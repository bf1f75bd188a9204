//! An incremental build engine: units of declared tasks are fused into a
//! dependency graph, ordered topologically, and filtered down to the tasks
//! whose targets are out of date relative to their prerequisites.

pub mod env;
pub mod graph;
pub mod make;
pub mod path;
pub mod recipe;
pub mod recipe_text;
pub mod stale;
pub mod targets;
pub mod targets_spec;
pub mod unit;
pub mod views;

pub use env::{EnvSpec, EnvSpecValue};
pub use graph::{NewTaskListError, Plan, Prerequisite, Task, TaskHandle, TaskList, UnitEntry};
pub use stale::{CakeError, FileStat, StatView};
pub use make::{cake, Rule};
pub use path::{Component, FsPath, Relativiser};
pub use recipe::{PreparedCommand, Recipe, RecipeParseError, RecipePrepareError};
pub use recipe_text::{parse_args, parse_elements, ArgElement, ParseArgsError, ParseElementsError, Variable};
pub use targets::Targets;
pub use unit::{PrerequisiteSpec, TargetSpecHandle, TargetSpecHandleIterator, TaskDecl, TaskSpec, Unit, UnitBuilder};
pub use targets_spec::{ResolveError, TargetSpec, TargetsSpec};
