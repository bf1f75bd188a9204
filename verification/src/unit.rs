//! Units: the declarations one input file contributes — tasks, dependency
//! fragment handles, and references to further unit files — with every path
//! relativised against the context root.

use vstd::prelude::*;

use crate::env::{duplicate_env, EnvSpec, EnvSpecV};
use crate::path::{
    parse_path_spec, relativise_spec, render_path, CompV, Error, FsPath, Relativiser,
};
use crate::recipe::Recipe;
use crate::recipe_text::ElemV;
use crate::targets_spec::TargetsSpec;
use crate::views::{group_views_of, views_of};

verus! {

broadcast use group_views_of;

/// A reference to one target of one task within a unit: the task's index
/// and the target's index within the task.
#[derive(Clone, Copy, Debug, PartialEq, Eq, Structural)]
pub struct TargetSpecHandle {
    pub task_index: usize,
    pub target_index: usize,
}

impl TargetSpecHandle {
    pub fn new(task_index: usize, target_index: usize) -> (r: Self)
        ensures
            r.task_index == task_index,
            r.target_index == target_index,
    {
        Self { task_index, target_index }
    }

    /// Shift the task index by the unit's offset in the fused list.
    pub fn resolve(self, task_offset: usize) -> (r: Self)
        requires
            self.task_index + task_offset <= usize::MAX,
        ensures
            r.task_index == self.task_index + task_offset,
            r.target_index == self.target_index,
    {
        Self { task_index: self.task_index + task_offset, target_index: self.target_index }
    }
}

/// Yields one handle per target of a freshly added task.
pub struct TargetSpecHandleIterator {
    task_index: usize,
    target_count: usize,
    target_index: usize,
}

impl TargetSpecHandleIterator {
    pub closed spec fn task(&self) -> usize {
        self.task_index
    }

    pub closed spec fn count(&self) -> usize {
        self.target_count
    }

    pub closed spec fn at(&self) -> usize {
        self.target_index
    }

    pub fn new(task_index: usize, target_count: usize) -> (r: Self)
        ensures
            r.task() == task_index,
            r.count() == target_count,
            r.at() == 0,
    {
        Self { task_index, target_count, target_index: 0 }
    }

    /// The next handle, until one per target has been yielded.
    pub fn next(&mut self) -> (r: Option<TargetSpecHandle>)
        ensures
            final(self).task() == old(self).task(),
            final(self).count() == old(self).count(),
            match r {
                Some(h) => old(self).at() < old(self).count() && h.task_index == old(self).task()
                    && h.target_index == old(self).at() && final(self).at() == old(self).at() + 1,
                None => old(self).at() >= old(self).count() && final(self).at() == old(self).at(),
            },
    {
        if self.target_index < self.target_count {
            let handle = TargetSpecHandle::new(self.task_index, self.target_index);
            self.target_index += 1;
            Some(handle)
        } else {
            None
        }
    }
}

/// A prerequisite as declared: a file by name (with an optional flag), or a
/// handle to a target declared earlier in the same unit.
#[derive(Clone, Debug)]
pub enum PrerequisiteSpec {
    Named(FsPath, bool),
    Handle(TargetSpecHandle),
}

/// The mathematical value of a `PrerequisiteSpec`.
pub enum PrereqSpecV {
    Named(Seq<CompV>, bool),
    Handle(TargetSpecHandle),
}

impl View for PrerequisiteSpec {
    type V = PrereqSpecV;

    open spec fn view(&self) -> PrereqSpecV {
        match self {
            PrerequisiteSpec::Named(p, optional) => PrereqSpecV::Named(p@, *optional),
            PrerequisiteSpec::Handle(h) => PrereqSpecV::Handle(*h),
        }
    }
}

impl PrerequisiteSpec {
    /// A copy whose value equals this one.
    pub fn duplicate(&self) -> (r: PrerequisiteSpec)
        ensures
            r@ == self@,
    {
        match self {
            PrerequisiteSpec::Named(p, optional) => PrerequisiteSpec::Named(
                p.duplicate(),
                *optional,
            ),
            PrerequisiteSpec::Handle(h) => PrerequisiteSpec::Handle(*h),
        }
    }
}

/// Duplicate a whole prerequisite list.
pub fn duplicate_prereqs(ps: &Vec<PrerequisiteSpec>) -> (r: Vec<PrerequisiteSpec>)
    ensures
        views_of(r@) == views_of(ps@),
{
    let mut out: Vec<PrerequisiteSpec> = Vec::new();
    let n = ps.len();
    let mut i: usize = 0;
    while i < n
        invariant
            i <= n,
            n == ps@.len(),
            views_of(out@) =~= views_of(ps@).take(i as int),
        decreases n - i,
    {
        out.push(ps[i].duplicate());
        proof {
            assert(views_of(out@) =~= views_of(ps@).take(i + 1));
        }
        i += 1;
    }
    proof {
        assert(views_of(ps@).take(n as int) =~= views_of(ps@));
    }
    out
}

/// A task as declared, before targets are resolved.
#[derive(Clone, Debug)]
pub struct TaskSpec {
    pub consumes: Vec<PrerequisiteSpec>,
    pub depends_on: Vec<PrerequisiteSpec>,
    pub not_before: Vec<PrerequisiteSpec>,
    pub aggregate: bool,
    pub env: Vec<EnvSpec>,
    pub recipe: Recipe,
}

/// The mathematical value of a `TaskSpec`.
pub struct TaskSpecV {
    pub consumes: Seq<PrereqSpecV>,
    pub depends_on: Seq<PrereqSpecV>,
    pub not_before: Seq<PrereqSpecV>,
    pub aggregate: bool,
    pub env: Seq<EnvSpecV>,
    pub recipe: Seq<ElemV>,
}

impl View for TaskSpec {
    type V = TaskSpecV;

    open spec fn view(&self) -> TaskSpecV {
        TaskSpecV {
            consumes: views_of(self.consumes@),
            depends_on: views_of(self.depends_on@),
            not_before: views_of(self.not_before@),
            aggregate: self.aggregate,
            env: views_of(self.env@),
            recipe: self.recipe@,
        }
    }
}

/// One declared task with its target templates.
#[derive(Clone, Debug)]
pub struct TaskDecl {
    pub targets: TargetsSpec,
    pub task: TaskSpec,
}

/// The mathematical value of a `TaskDecl`.
pub struct TaskDeclV {
    pub targets: Seq<Seq<char>>,
    pub task: TaskSpecV,
}

impl View for TaskDecl {
    type V = TaskDeclV;

    open spec fn view(&self) -> TaskDeclV {
        TaskDeclV { targets: self.targets@, task: self.task@ }
    }
}

/// What one declared task decomposes to: itself, unless it is marked
/// non-aggregate and consumes several inputs, in which case one task per
/// input, each consuming that input alone and sharing everything else.
pub open spec fn decompose_task(d: TaskDeclV) -> Seq<TaskDeclV> {
    if d.task.aggregate || d.task.consumes.len() <= 1 {
        seq![d]
    } else {
        Seq::new(
            d.task.consumes.len(),
            |i: int|
                TaskDeclV {
                    targets: d.targets,
                    task: TaskSpecV {
                        consumes: seq![d.task.consumes[i]],
                        depends_on: d.task.depends_on,
                        not_before: d.task.not_before,
                        aggregate: true,
                        env: d.task.env,
                        recipe: d.task.recipe,
                    },
                },
        )
    }
}

/// All declared tasks decomposed, in order.
pub open spec fn decompose_tasks(ds: Seq<TaskDeclV>) -> Seq<TaskDeclV>
    decreases ds.len(),
{
    if ds.len() == 0 {
        Seq::empty()
    } else {
        decompose_task(ds[0]) + decompose_tasks(ds.drop_first())
    }
}

/// Where the decomposed copies of the declared task at `i` start within the
/// decomposed list.
pub open spec fn decompose_start(ds: Seq<TaskDeclV>, i: int) -> nat
    decreases i,
{
    if i <= 0 || ds.len() == 0 {
        0
    } else {
        decompose_task(ds[0]).len() + decompose_start(ds.drop_first(), i - 1)
    }
}

/// A unit: the tasks one input file declares, the handles of targets whose
/// produced files hold further dependencies, and further unit files.
#[derive(Debug)]
pub struct Unit {
    tasks: Vec<TaskDecl>,
    fragments: Vec<TargetSpecHandle>,
    sub_units: Vec<FsPath>,
}

/// The mathematical value of a `Unit`.
pub struct UnitV {
    pub tasks: Seq<TaskDeclV>,
    pub fragments: Seq<TargetSpecHandle>,
    pub sub_units: Seq<Seq<CompV>>,
}

impl View for Unit {
    type V = UnitV;

    closed spec fn view(&self) -> UnitV {
        UnitV {
            tasks: views_of(self.tasks@),
            fragments: self.fragments@,
            sub_units: views_of(self.sub_units@),
        }
    }
}

impl Unit {
    fn new() -> (r: Self)
        ensures
            r@.tasks == Seq::<TaskDeclV>::empty(),
            r@.fragments == Seq::<TargetSpecHandle>::empty(),
            r@.sub_units == Seq::<Seq<CompV>>::empty(),
    {
        let r = Unit { tasks: Vec::new(), fragments: Vec::new(), sub_units: Vec::new() };
        proof {
            assert(r@.tasks =~= Seq::<TaskDeclV>::empty());
            assert(r@.sub_units =~= Seq::<Seq<CompV>>::empty());
        }
        r
    }

    /// The further unit files this unit names.
    pub fn sub_units(&self) -> (r: &Vec<FsPath>)
        ensures
            views_of(r@) == self@.sub_units,
    {
        &self.sub_units
    }

    fn add_task(&mut self, targets: TargetsSpec, task: TaskSpec) -> (r: TargetSpecHandleIterator)
        ensures
            final(self)@.tasks == old(self)@.tasks.push(
                TaskDeclV { targets: targets@, task: task@ },
            ),
            final(self)@.fragments == old(self)@.fragments,
            final(self)@.sub_units == old(self)@.sub_units,
            r.task() == old(self)@.tasks.len(),
            r.count() == targets@.len(),
            r.at() == 0,
    {
        let target_count = targets.len();
        let task_index = self.tasks.len();
        let ghost tv = targets@;
        let ghost kv = task@;
        self.tasks.push(TaskDecl { targets, task });
        proof {
            assert(views_of(self.tasks@) == views_of(old(self).tasks@).push(
                TaskDeclV { targets: tv, task: kv },
            ));
        }
        TargetSpecHandleIterator::new(task_index, target_count)
    }

    fn add_fragment(&mut self, fragment: TargetSpecHandle)
        ensures
            final(self)@.tasks == old(self)@.tasks,
            final(self)@.fragments == old(self)@.fragments.push(fragment),
            final(self)@.sub_units == old(self)@.sub_units,
    {
        self.fragments.push(fragment)
    }

    fn add_sub_unit(&mut self, sub_unit: FsPath)
        ensures
            final(self)@.tasks == old(self)@.tasks,
            final(self)@.fragments == old(self)@.fragments,
            final(self)@.sub_units == old(self)@.sub_units.push(sub_unit@),
    {
        let ghost pv = sub_unit@;
        self.sub_units.push(sub_unit);
        proof {
            assert(views_of(self.sub_units@) == views_of(old(self).sub_units@).push(pv));
        }
    }

    /// Split the unit into its decomposed tasks (fanned out where declared
    /// non-aggregate), where each declared task's copies start, and the
    /// fragment handles.
    #[verifier::loop_isolation(false)]
    pub fn decompose(self) -> (r: (Vec<TaskDecl>, Vec<usize>, Vec<TargetSpecHandle>))
        ensures
            views_of(r.0@) == decompose_tasks(self@.tasks),
            r.1@.len() == self@.tasks.len(),
            forall|i: int|
                0 <= i < r.1@.len() ==> r.1@[i] == decompose_start(self@.tasks, i)
                    && decompose_start(self@.tasks, i) <= decompose_tasks(self@.tasks).len(),
            r.2@ == self@.fragments,
    {
        let ghost dsv = views_of(self.tasks@);
        let mut out: Vec<TaskDecl> = Vec::new();
        let mut starts: Vec<usize> = Vec::new();
        let n = self.tasks.len();
        let mut tasks = self.tasks;
        let mut i: usize = 0;
        proof {
            assert(dsv.skip(0) =~= dsv);
            assert(views_of(out@) =~= Seq::<TaskDeclV>::empty());
        }
        while i < n
            invariant
                i <= n,
                n == dsv.len(),
                tasks@.len() == n,
                views_of(tasks@) == dsv,
                views_of(out@) + decompose_tasks(dsv.skip(i as int)) == decompose_tasks(dsv),
                starts@.len() == i,
                forall|k: int|
                    0 <= k < i ==> starts@[k] == decompose_start(dsv, k) && decompose_start(
                        dsv,
                        k,
                    ) <= decompose_tasks(dsv).len(),
                decompose_start(dsv, i as int) == views_of(out@).len(),
            decreases n - i,
        {
            let ghost rest = dsv.skip(i as int);
            proof {
                assert(rest[0] == dsv[i as int]);
                assert(rest.drop_first() =~= dsv.skip(i + 1));
                assert(dsv[i as int] == tasks@[i as int]@);
                lemma_decompose_start_step(dsv, i as int);
            }
            starts.push(out.len());
            let d = &tasks[i];
            let fan_out = !d.task.aggregate && d.task.consumes.len() > 1;
            if !fan_out {
                let ghost out0 = views_of(out@);
                out.push(duplicate_decl(d));
                proof {
                    assert(decompose_task(dsv[i as int]) =~= seq![dsv[i as int]]);
                    assert(views_of(out@) =~= out0 + decompose_task(dsv[i as int]));
                    assert(views_of(out@) + decompose_tasks(dsv.skip(i + 1)) =~= out0 + (
                    decompose_task(dsv[i as int]) + decompose_tasks(dsv.skip(i + 1))));
                }
            } else {
                let m = d.task.consumes.len();
                let mut j: usize = 0;
                let ghost out0 = views_of(out@);
                let ghost fan = decompose_task(dsv[i as int]);
                while j < m
                    invariant
                        j <= m,
                        m == tasks@[i as int].task.consumes@.len(),
                        i < n,
                        n == dsv.len(),
                        tasks@.len() == n,
                        views_of(tasks@) == dsv,
                        dsv[i as int] == tasks@[i as int]@,
                        fan == decompose_task(dsv[i as int]),
                        fan.len() == m,
                        views_of(out@) =~= out0 + fan.take(j as int),
                    decreases m - j,
                {
                    let d2 = &tasks[i];
                    let copy = TaskDecl {
                        targets: d2.targets.duplicate(),
                        task: TaskSpec {
                            consumes: vec![d2.task.consumes[j].duplicate()],
                            depends_on: duplicate_prereqs(&d2.task.depends_on),
                            not_before: duplicate_prereqs(&d2.task.not_before),
                            aggregate: true,
                            env: duplicate_env(&d2.task.env),
                            recipe: d2.task.recipe.duplicate(),
                        },
                    };
                    proof {
                        let dv = dsv[i as int];
                        assert(fan[j as int] == TaskDeclV {
                            targets: dv.targets,
                            task: TaskSpecV {
                                consumes: seq![dv.task.consumes[j as int]],
                                depends_on: dv.task.depends_on,
                                not_before: dv.task.not_before,
                                aggregate: true,
                                env: dv.task.env,
                                recipe: dv.task.recipe,
                            },
                        });
                        assert(views_of(copy.task.consumes@) =~= seq![
                            dv.task.consumes[j as int],
                        ]);
                        assert(copy@.task == fan[j as int].task);
                        assert(copy@ == fan[j as int]);
                    }
                    out.push(copy);
                    proof {
                        assert(views_of(out@) =~= out0 + fan.take(j + 1));
                    }
                    j += 1;
                }
                proof {
                    assert(fan.take(m as int) =~= fan);
                    assert(views_of(out@) + decompose_tasks(dsv.skip(i + 1)) =~= out0 + (fan
                        + decompose_tasks(dsv.skip(i + 1))));
                }
            }
            i += 1;
        }
        proof {
            assert(dsv.skip(n as int) =~= Seq::<TaskDeclV>::empty());
            assert(views_of(out@) + Seq::<TaskDeclV>::empty() =~= views_of(out@));
        }
        (out, starts, self.fragments)
    }
}

/// Decomposition lengths accumulate stepwise.
proof fn lemma_decompose_start_step(ds: Seq<TaskDeclV>, i: int)
    requires
        0 <= i < ds.len(),
    ensures
        decompose_start(ds, i + 1) == decompose_start(ds, i) + decompose_task(ds[i]).len(),
        decompose_tasks(ds) == decompose_tasks(ds.take(i)) + decompose_tasks(ds.skip(i)),
        decompose_start(ds, i) == decompose_tasks(ds.take(i)).len(),
    decreases i + 1,
{
    if i == 0 {
        assert(ds.take(0) =~= Seq::<TaskDeclV>::empty());
        assert(ds.skip(0) =~= ds);
        assert(decompose_start(ds, 1) == decompose_task(ds[0]).len() + decompose_start(
            ds.drop_first(),
            0,
        ));
    } else {
        lemma_decompose_start_step(ds.drop_first(), i - 1);
        assert(ds.drop_first().take(i - 1) =~= ds.take(i).drop_first());
        assert(ds.drop_first().skip(i - 1) =~= ds.skip(i));
        assert(ds.drop_first()[i - 1] == ds[i]);
        assert(decompose_tasks(ds.take(i)) == decompose_task(ds[0]) + decompose_tasks(
            ds.take(i).drop_first(),
        )) by {
            assert(ds.take(i)[0] == ds[0]);
        }
    }
}

/// A copy of one declared task, equal in value.
fn duplicate_decl(d: &TaskDecl) -> (r: TaskDecl)
    ensures
        r@ == d@,
{
    TaskDecl {
        targets: d.targets.duplicate(),
        task: TaskSpec {
            consumes: duplicate_prereqs(&d.task.consumes),
            depends_on: duplicate_prereqs(&d.task.depends_on),
            not_before: duplicate_prereqs(&d.task.not_before),
            aggregate: d.task.aggregate,
            env: duplicate_env(&d.task.env),
            recipe: d.task.recipe.duplicate(),
        },
    }
}

/// Why a task could not be added.
#[derive(Clone, Copy, Debug, PartialEq, Eq, Structural)]
pub enum AddTaskError {
    RelativiseError(Error),
    NonUnicodePath,
}

/// A textual path, read as a path, relativised, and written back as text.
pub open spec fn relativise_text(context: Seq<CompV>, base: Seq<CompV>, s: Seq<char>) -> Result<
    Seq<char>,
    Error,
> {
    match relativise_spec(context, base, parse_path_spec(s)) {
        Ok(p) => Ok(render_path(p)),
        Err(e) => Err(e),
    }
}

/// Each text relativised, the first error aborting.
pub open spec fn relativise_texts(
    context: Seq<CompV>,
    base: Seq<CompV>,
    ss: Seq<Seq<char>>,
) -> Result<Seq<Seq<char>>, Error>
    decreases ss.len(),
{
    if ss.len() == 0 {
        Ok(Seq::empty())
    } else {
        match relativise_text(context, base, ss[0]) {
            Err(e) => Err(e),
            Ok(t) => match relativise_texts(context, base, ss.drop_first()) {
                Ok(ts) => Ok(seq![t] + ts),
                Err(e) => Err(e),
            },
        }
    }
}

/// A named prerequisite's path relativised; handles pass through.
pub open spec fn relativise_prereq(
    context: Seq<CompV>,
    base: Seq<CompV>,
    p: PrereqSpecV,
) -> Result<PrereqSpecV, Error> {
    match p {
        PrereqSpecV::Named(path, optional) => match relativise_spec(context, base, path) {
            Ok(q) => Ok(PrereqSpecV::Named(q, optional)),
            Err(e) => Err(e),
        },
        PrereqSpecV::Handle(h) => Ok(PrereqSpecV::Handle(h)),
    }
}

/// Each prerequisite relativised, the first error aborting.
pub open spec fn relativise_prereqs(
    context: Seq<CompV>,
    base: Seq<CompV>,
    ps: Seq<PrereqSpecV>,
) -> Result<Seq<PrereqSpecV>, Error>
    decreases ps.len(),
{
    if ps.len() == 0 {
        Ok(Seq::empty())
    } else {
        match relativise_prereq(context, base, ps[0]) {
            Err(e) => Err(e),
            Ok(p) => match relativise_prereqs(context, base, ps.drop_first()) {
                Ok(qs) => Ok(seq![p] + qs),
                Err(e) => Err(e),
            },
        }
    }
}

/// Builds one unit, relativising every declared path against the context.
pub struct UnitBuilder {
    context: FsPath,
    relativiser: Relativiser,
    unit: Unit,
}

impl UnitBuilder {
    pub closed spec fn context_view(&self) -> Seq<CompV> {
        self.context@
    }

    pub closed spec fn base_view(&self) -> Seq<CompV> {
        self.relativiser.base_view()
    }

    pub closed spec fn unit_view(&self) -> UnitV {
        self.unit@
    }

    /// A builder for a unit whose file sits in `base`, under the `context`
    /// root.
    pub fn new(context: FsPath, base: FsPath) -> (r: Self)
        ensures
            r.context_view() == context@,
            r.base_view() == base@,
            r.unit_view().tasks == Seq::<TaskDeclV>::empty(),
            r.unit_view().fragments == Seq::<TargetSpecHandle>::empty(),
            r.unit_view().sub_units == Seq::<Seq<CompV>>::empty(),
    {
        Self { context, relativiser: Relativiser::new(base), unit: Unit::new() }
    }

    /// Declare one task: its target templates, what it consumes, what else
    /// it depends on, what must merely come first, whether several inputs
    /// stay one task, its environment and its recipe.  Every named path is
    /// relativised before it is stored.  One handle per target is returned.
    pub fn add_task(
        &mut self,
        targets: Vec<String>,
        consumes: Vec<PrerequisiteSpec>,
        depends_on: Vec<PrerequisiteSpec>,
        not_before: Vec<PrerequisiteSpec>,
        aggregate: bool,
        env: Vec<EnvSpec>,
        recipe: Recipe,
    ) -> (r: Result<TargetSpecHandleIterator, AddTaskError>)
        ensures
            final(self).context_view() == old(self).context_view(),
            final(self).base_view() == old(self).base_view(),
            final(self).unit_view().fragments == old(self).unit_view().fragments,
            final(self).unit_view().sub_units == old(self).unit_view().sub_units,
            match r {
                Ok(it) => {
                    &&& relativise_texts(
                        old(self).context_view(),
                        old(self).base_view(),
                        views_of(targets@),
                    ) is Ok
                    &&& relativise_prereqs(
                        old(self).context_view(),
                        old(self).base_view(),
                        views_of(consumes@),
                    ) is Ok
                    &&& relativise_prereqs(
                        old(self).context_view(),
                        old(self).base_view(),
                        views_of(depends_on@),
                    ) is Ok
                    &&& relativise_prereqs(
                        old(self).context_view(),
                        old(self).base_view(),
                        views_of(not_before@),
                    ) is Ok
                    &&& final(self).unit_view().tasks.len() == old(self).unit_view().tasks.len()
                        + 1
                    &&& final(self).unit_view().tasks == old(self).unit_view().tasks.push(
                        TaskDeclV {
                            targets: relativise_texts(
                                old(self).context_view(),
                                old(self).base_view(),
                                views_of(targets@),
                            )->Ok_0,
                            task: TaskSpecV {
                                consumes: relativise_prereqs(
                                    old(self).context_view(),
                                    old(self).base_view(),
                                    views_of(consumes@),
                                )->Ok_0,
                                depends_on: relativise_prereqs(
                                    old(self).context_view(),
                                    old(self).base_view(),
                                    views_of(depends_on@),
                                )->Ok_0,
                                not_before: relativise_prereqs(
                                    old(self).context_view(),
                                    old(self).base_view(),
                                    views_of(not_before@),
                                )->Ok_0,
                                aggregate: aggregate,
                                env: views_of(env@),
                                recipe: recipe@,
                            },
                        },
                    )
                    &&& it.task() == old(self).unit_view().tasks.len()
                    &&& it.count() == targets@.len()
                    &&& it.at() == 0
                },
                Err(AddTaskError::RelativiseError(e)) => {
                    &&& final(self).unit_view().tasks == old(self).unit_view().tasks
                    &&& {
                        ||| relativise_texts(
                            old(self).context_view(),
                            old(self).base_view(),
                            views_of(targets@),
                        ) == Err::<Seq<Seq<char>>, Error>(e)
                        ||| relativise_prereqs(
                            old(self).context_view(),
                            old(self).base_view(),
                            views_of(consumes@),
                        ) == Err::<Seq<PrereqSpecV>, Error>(e)
                        ||| relativise_prereqs(
                            old(self).context_view(),
                            old(self).base_view(),
                            views_of(depends_on@),
                        ) == Err::<Seq<PrereqSpecV>, Error>(e)
                        ||| relativise_prereqs(
                            old(self).context_view(),
                            old(self).base_view(),
                            views_of(not_before@),
                        ) == Err::<Seq<PrereqSpecV>, Error>(e)
                    }
                },
                Err(AddTaskError::NonUnicodePath) => false,
            },
    {
        let ghost ctx = self.context_view();
        let ghost base = self.base_view();
        let targets2 = match self.relativise_all_texts(targets) {
            Ok(ts) => ts,
            Err(e) => {
                return Err(AddTaskError::RelativiseError(e));
            },
        };
        let consumes2 = match self.relativise_all_prereqs(consumes) {
            Ok(ps) => ps,
            Err(e) => {
                return Err(AddTaskError::RelativiseError(e));
            },
        };
        let depends_on2 = match self.relativise_all_prereqs(depends_on) {
            Ok(ps) => ps,
            Err(e) => {
                return Err(AddTaskError::RelativiseError(e));
            },
        };
        let not_before2 = match self.relativise_all_prereqs(not_before) {
            Ok(ps) => ps,
            Err(e) => {
                return Err(AddTaskError::RelativiseError(e));
            },
        };
        let tc = targets2.len();
        let spec = TargetsSpec::from_texts(targets2);
        proof {
            assert(spec@ =~= relativise_texts(ctx, base, views_of(targets@))->Ok_0);
        }
        let it = self.unit.add_task(
            spec,
            TaskSpec {
                consumes: consumes2,
                depends_on: depends_on2,
                not_before: not_before2,
                aggregate,
                env,
                recipe,
            },
        );
        Ok(it)
    }

    /// Relativise each textual path, the first error aborting.
    #[verifier::loop_isolation(false)]
    fn relativise_all_texts(&self, texts: Vec<String>) -> (r: Result<Vec<String>, Error>)
        ensures
            match r {
                Ok(ts) => relativise_texts(self.context_view(), self.base_view(), views_of(texts@))
                    == Ok::<Seq<Seq<char>>, Error>(views_of(ts@)) && ts@.len() == texts@.len(),
                Err(e) => relativise_texts(self.context_view(), self.base_view(), views_of(texts@))
                    == Err::<Seq<Seq<char>>, Error>(e),
            },
    {
        let ghost ctx = self.context_view();
        let ghost base = self.base_view();
        let ghost tv = views_of(texts@);
        let mut out: Vec<String> = Vec::new();
        let n = texts.len();
        let mut i: usize = 0;
        proof {
            assert(tv.skip(0) =~= tv);
            assert(views_of(out@) =~= Seq::<Seq<char>>::empty());
        }
        while i < n
            invariant
                i <= n,
                n == texts@.len(),
                out@.len() == i,
                match relativise_texts(ctx, base, tv.skip(i as int)) {
                    Ok(ts) => relativise_texts(ctx, base, tv) == Ok::<Seq<Seq<char>>, Error>(
                        views_of(out@) + ts,
                    ),
                    Err(e) => relativise_texts(ctx, base, tv) == Err::<Seq<Seq<char>>, Error>(e),
                },
            decreases n - i,
        {
            let ghost rest = tv.skip(i as int);
            proof {
                assert(rest[0] == tv[i as int]);
                assert(rest.drop_first() =~= tv.skip(i + 1));
                assert(tv[i as int] == texts@[i as int]@);
            }
            let parsed = FsPath::parse(texts[i].as_str());
            match self.relativiser.relativise(&self.context, &parsed) {
                Ok(p) => {
                    let ghost out0 = views_of(out@);
                    let t = p.to_text();
                    let ghost tt = t@;
                    out.push(t);
                    proof {
                        if let Ok(ts) = relativise_texts(ctx, base, tv.skip(i + 1)) {
                            assert(views_of(out@) + ts =~= out0 + (seq![tt] + ts));
                        }
                    }
                },
                Err(e) => {
                    return Err(e);
                },
            }
            i += 1;
        }
        proof {
            assert(tv.skip(n as int) =~= Seq::<Seq<char>>::empty());
            assert(views_of(out@) + Seq::<Seq<char>>::empty() =~= views_of(out@));
        }
        Ok(out)
    }

    /// Relativise each named prerequisite, the first error aborting.
    #[verifier::loop_isolation(false)]
    fn relativise_all_prereqs(&self, prereqs: Vec<PrerequisiteSpec>) -> (r: Result<
        Vec<PrerequisiteSpec>,
        Error,
    >)
        ensures
            match r {
                Ok(ps) => relativise_prereqs(
                    self.context_view(),
                    self.base_view(),
                    views_of(prereqs@),
                ) == Ok::<Seq<PrereqSpecV>, Error>(views_of(ps@)),
                Err(e) => relativise_prereqs(
                    self.context_view(),
                    self.base_view(),
                    views_of(prereqs@),
                ) == Err::<Seq<PrereqSpecV>, Error>(e),
            },
    {
        let ghost ctx = self.context_view();
        let ghost base = self.base_view();
        let ghost pv = views_of(prereqs@);
        let mut out: Vec<PrerequisiteSpec> = Vec::new();
        let n = prereqs.len();
        let mut i: usize = 0;
        proof {
            assert(pv.skip(0) =~= pv);
            assert(views_of(out@) =~= Seq::<PrereqSpecV>::empty());
        }
        while i < n
            invariant
                i <= n,
                n == prereqs@.len(),
                match relativise_prereqs(ctx, base, pv.skip(i as int)) {
                    Ok(ps) => relativise_prereqs(ctx, base, pv) == Ok::<Seq<PrereqSpecV>, Error>(
                        views_of(out@) + ps,
                    ),
                    Err(e) => relativise_prereqs(ctx, base, pv) == Err::<Seq<PrereqSpecV>, Error>(
                        e,
                    ),
                },
            decreases n - i,
        {
            let ghost rest = pv.skip(i as int);
            proof {
                assert(rest[0] == pv[i as int]);
                assert(rest.drop_first() =~= pv.skip(i + 1));
                assert(pv[i as int] == prereqs@[i as int]@);
            }
            let next: PrerequisiteSpec = match &prereqs[i] {
                PrerequisiteSpec::Named(path, optional) => {
                    match self.relativiser.relativise(&self.context, path) {
                        Ok(p) => PrerequisiteSpec::Named(p, *optional),
                        Err(e) => {
                            return Err(e);
                        },
                    }
                },
                PrerequisiteSpec::Handle(h) => PrerequisiteSpec::Handle(*h),
            };
            let ghost nv = next@;
            let ghost out0 = views_of(out@);
            out.push(next);
            proof {
                if let Ok(ps) = relativise_prereqs(ctx, base, pv.skip(i + 1)) {
                    assert(views_of(out@) + ps =~= out0 + (seq![nv] + ps));
                }
            }
            i += 1;
        }
        proof {
            assert(pv.skip(n as int) =~= Seq::<PrereqSpecV>::empty());
            assert(views_of(out@) + Seq::<PrereqSpecV>::empty() =~= views_of(out@));
        }
        Ok(out)
    }

    /// Record a further unit file, relativised.
    pub fn add_sub_unit(&mut self, sub_unit: FsPath) -> (r: Result<(), Error>)
        ensures
            final(self).context_view() == old(self).context_view(),
            final(self).base_view() == old(self).base_view(),
            final(self).unit_view().tasks == old(self).unit_view().tasks,
            final(self).unit_view().fragments == old(self).unit_view().fragments,
            match r {
                Ok(_) => relativise_spec(
                    old(self).context_view(),
                    old(self).base_view(),
                    sub_unit@,
                ) is Ok && final(self).unit_view().sub_units == old(
                    self,
                ).unit_view().sub_units.push(
                    relativise_spec(
                        old(self).context_view(),
                        old(self).base_view(),
                        sub_unit@,
                    )->Ok_0,
                ),
                Err(e) => relativise_spec(old(self).context_view(), old(self).base_view(), sub_unit@)
                    == Err::<Seq<CompV>, Error>(e) && final(self).unit_view().sub_units == old(
                    self,
                ).unit_view().sub_units,
            },
    {
        match self.relativiser.relativise(&self.context, &sub_unit) {
            Ok(p) => {
                self.unit.add_sub_unit(p);
                Ok(())
            },
            Err(e) => Err(e),
        }
    }

    /// Record a fragment handle: the referenced target's produced file holds
    /// further dependencies.
    pub fn add_fragment(&mut self, fragment: TargetSpecHandle)
        ensures
            final(self).context_view() == old(self).context_view(),
            final(self).base_view() == old(self).base_view(),
            final(self).unit_view().tasks == old(self).unit_view().tasks,
            final(self).unit_view().sub_units == old(self).unit_view().sub_units,
            final(self).unit_view().fragments == old(self).unit_view().fragments.push(fragment),
    {
        self.unit.add_fragment(fragment)
    }

    /// Hand the built unit over.
    pub fn unit(self) -> (r: Unit)
        ensures
            r@ == self.unit_view(),
    {
        self.unit
    }
}

} // verus!
