//! The task graph: units fused into one task list, targets resolved,
//! prerequisites bound to producing tasks, reverse edges derived, and the
//! whole ordered so that every producer comes before its consumers.

use vstd::prelude::*;

use crate::env::{EnvSpec, EnvSpecV};
use crate::make::MakeErrV;
use crate::path::{CompV, Error, FsPath};
use crate::recipe::Recipe;
use crate::recipe_text::ElemV;
use crate::targets::{resolve_targets_specs, Targets};
use crate::targets_spec::ResolveError;
use crate::unit::{
    decompose_start, decompose_tasks, PrereqSpecV, PrerequisiteSpec, TargetSpecHandle, TaskDecl,
    TaskDeclV, Unit, UnitV,
};
use crate::views::{group_views_of, views_of};

verus! {

broadcast use group_views_of;

/// Why a task list could not be built.
#[derive(Clone, Debug)]
pub enum NewTaskListError {
    /// A target template could not be resolved.
    ResolveError(ResolveError),
    /// A path could not be relativised.
    RelativiseError(Error),
    /// A dependency fragment could not be read.
    MakeParseError(crate::make::Error),
    /// A fragment file could not be brought in; the text names it.
    IOError(String),
    /// A handle names a task or a target that does not exist.
    BadHandle,
    /// Target resolution chased handles in a circle.
    CyclicDependency,
}

/// The mathematical value of a `NewTaskListError`.
pub enum GraphErrV {
    Resolve(ResolveError),
    Relativise(Error),
    MakeParse(MakeErrV),
    Io(Seq<char>),
    BadHandle,
    Cyclic,
}

impl View for NewTaskListError {
    type V = GraphErrV;

    open spec fn view(&self) -> GraphErrV {
        match self {
            NewTaskListError::ResolveError(e) => GraphErrV::Resolve(*e),
            NewTaskListError::RelativiseError(e) => GraphErrV::Relativise(*e),
            NewTaskListError::MakeParseError(e) => GraphErrV::MakeParse(e@),
            NewTaskListError::IOError(s) => GraphErrV::Io(s@),
            NewTaskListError::BadHandle => GraphErrV::BadHandle,
            NewTaskListError::CyclicDependency => GraphErrV::Cyclic,
        }
    }
}

/// One base directory with its unit.
pub struct UnitEntry {
    pub base: FsPath,
    pub unit: Unit,
}

/// The mathematical value of a `UnitEntry`.
pub struct UnitEntryV {
    pub base: Seq<CompV>,
    pub unit: UnitV,
}

impl View for UnitEntry {
    type V = UnitEntryV;

    open spec fn view(&self) -> UnitEntryV {
        UnitEntryV { base: self.base@, unit: self.unit@ }
    }
}

/// Globalise one prerequisite: a handle's task index is moved from the
/// unit's declared numbering to the fused list, landing on the first
/// decomposed copy of the declared task; named prerequisites pass through.
pub open spec fn glob_prereq(p: PrereqSpecV, decls: Seq<TaskDeclV>, offset: nat) -> Result<
    PrereqSpecV,
    GraphErrV,
> {
    match p {
        PrereqSpecV::Named(path, optional) => Ok(PrereqSpecV::Named(path, optional)),
        PrereqSpecV::Handle(h) => if h.task_index < decls.len() && offset + decompose_start(
            decls,
            h.task_index as int,
        ) <= usize::MAX {
            Ok(
                PrereqSpecV::Handle(
                    TargetSpecHandle {
                        task_index: (offset + decompose_start(decls, h.task_index as int)) as usize,
                        target_index: h.target_index,
                    },
                ),
            )
        } else {
            Err(GraphErrV::BadHandle)
        },
    }
}

/// Each prerequisite globalised, the first error aborting.
pub open spec fn glob_prereqs(ps: Seq<PrereqSpecV>, decls: Seq<TaskDeclV>, offset: nat) -> Result<
    Seq<PrereqSpecV>,
    GraphErrV,
>
    decreases ps.len(),
{
    if ps.len() == 0 {
        Ok(Seq::empty())
    } else {
        match glob_prereq(ps[0], decls, offset) {
            Err(e) => Err(e),
            Ok(p) => match glob_prereqs(ps.drop_first(), decls, offset) {
                Ok(qs) => Ok(seq![p] + qs),
                Err(e) => Err(e),
            },
        }
    }
}

/// One decomposed task with every handle globalised.
pub open spec fn glob_task(d: TaskDeclV, decls: Seq<TaskDeclV>, offset: nat) -> Result<
    TaskDeclV,
    GraphErrV,
> {
    match glob_prereqs(d.task.consumes, decls, offset) {
        Err(e) => Err(e),
        Ok(cs) => match glob_prereqs(d.task.depends_on, decls, offset) {
            Err(e) => Err(e),
            Ok(ds) => match glob_prereqs(d.task.not_before, decls, offset) {
                Err(e) => Err(e),
                Ok(ns) => Ok(
                    TaskDeclV {
                        targets: d.targets,
                        task: crate::unit::TaskSpecV {
                            consumes: cs,
                            depends_on: ds,
                            not_before: ns,
                            aggregate: d.task.aggregate,
                            env: d.task.env,
                            recipe: d.task.recipe,
                        },
                    },
                ),
            },
        },
    }
}

/// Each decomposed task globalised, the first error aborting.
pub open spec fn glob_decls(
    fanned: Seq<TaskDeclV>,
    decls: Seq<TaskDeclV>,
    offset: nat,
) -> Result<Seq<TaskDeclV>, GraphErrV>
    decreases fanned.len(),
{
    if fanned.len() == 0 {
        Ok(Seq::empty())
    } else {
        match glob_task(fanned[0], decls, offset) {
            Err(e) => Err(e),
            Ok(t) => match glob_decls(fanned.drop_first(), decls, offset) {
                Ok(ts) => Ok(seq![t] + ts),
                Err(e) => Err(e),
            },
        }
    }
}

pub proof fn lemma_glob_decls_len(fanned: Seq<TaskDeclV>, decls: Seq<TaskDeclV>, offset: nat)
    requires
        glob_decls(fanned, decls, offset) is Ok,
    ensures
        glob_decls(fanned, decls, offset)->Ok_0.len() == fanned.len(),
    decreases fanned.len(),
{
    if fanned.len() > 0 {
        lemma_glob_decls_len(fanned.drop_first(), decls, offset);
    }
}

/// Each fragment handle globalised, with its unit's base directory.
pub open spec fn glob_frags(
    frags: Seq<TargetSpecHandle>,
    decls: Seq<TaskDeclV>,
    offset: nat,
    base: Seq<CompV>,
) -> Result<Seq<(Seq<CompV>, TargetSpecHandle)>, GraphErrV>
    decreases frags.len(),
{
    if frags.len() == 0 {
        Ok(Seq::empty())
    } else {
        match glob_prereq(PrereqSpecV::Handle(frags[0]), decls, offset) {
            Err(e) => Err(e),
            Ok(PrereqSpecV::Handle(h)) => match glob_frags(
                frags.drop_first(),
                decls,
                offset,
                base,
            ) {
                Ok(fs) => Ok(seq![(base, h)] + fs),
                Err(e) => Err(e),
            },
            Ok(_) => Err(GraphErrV::BadHandle),
        }
    }
}

/// Units fused: every unit's decomposed tasks concatenated, with every
/// handle globalised, and the fragment handles collected alongside.
pub open spec fn fuse_units(us: Seq<UnitEntryV>, offset: nat) -> Result<
    (Seq<TaskDeclV>, Seq<(Seq<CompV>, TargetSpecHandle)>),
    GraphErrV,
>
    decreases us.len(),
{
    if us.len() == 0 {
        Ok((Seq::empty(), Seq::empty()))
    } else {
        let fanned = decompose_tasks(us[0].unit.tasks);
        match glob_decls(fanned, us[0].unit.tasks, offset) {
            Err(e) => Err(e),
            Ok(gts) => match glob_frags(us[0].unit.fragments, us[0].unit.tasks, offset, us[0].base) {
                Err(e) => Err(e),
                Ok(gfs) => match fuse_units(us.drop_first(), offset + fanned.len()) {
                    Ok((ts, fs)) => Ok((gts + ts, gfs + fs)),
                    Err(e) => Err(e),
                },
            },
        }
    }
}

/// The first concrete input path of the task at `i`, chasing the producing
/// task when the first consumed prerequisite is a handle.  The fuel bounds
/// the chase; it runs out only on a circle.
pub open spec fn first_input_spec(
    pre: Seq<TaskDeclV>,
    prefix: Seq<CompV>,
    i: int,
    fuel: nat,
) -> Result<Option<Seq<CompV>>, GraphErrV>
    decreases fuel, 0int,
{
    if pre[i].task.consumes.len() == 0 {
        Ok(None)
    } else {
        match pre[i].task.consumes[0] {
            PrereqSpecV::Named(p, _) => Ok(Some(p)),
            PrereqSpecV::Handle(h) => if h.task_index >= pre.len() {
                Err(GraphErrV::BadHandle)
            } else if fuel == 0 {
                Err(GraphErrV::Cyclic)
            } else {
                match task_targets_spec(pre, prefix, h.task_index as int, (fuel - 1) as nat) {
                    Err(e) => Err(e),
                    Ok(ts) => if h.target_index < ts.len() {
                        Ok(Some(ts[h.target_index as int]))
                    } else {
                        Err(GraphErrV::BadHandle)
                    },
                }
            },
        }
    }
}

/// The concrete targets of the task at `i`: its templates resolved against
/// the prefix and its first input.
pub open spec fn task_targets_spec(
    pre: Seq<TaskDeclV>,
    prefix: Seq<CompV>,
    i: int,
    fuel: nat,
) -> Result<Seq<Seq<CompV>>, GraphErrV>
    decreases fuel, 1int,
{
    match first_input_spec(pre, prefix, i, fuel) {
        Err(e) => Err(e),
        Ok(input) => match resolve_targets_specs(pre[i].targets, prefix, input) {
            Ok(ts) => Ok(ts),
            Err(e) => Err(GraphErrV::Resolve(e)),
        },
    }
}

/// The concrete targets of every task, each resolved with fuel for a full
/// chase through the list.
pub open spec fn all_targets_spec(pre: Seq<TaskDeclV>, prefix: Seq<CompV>) -> Result<
    Seq<Seq<Seq<CompV>>>,
    GraphErrV,
> {
    all_targets_upto(pre, prefix, pre.len() as int)
}

pub open spec fn all_targets_upto(pre: Seq<TaskDeclV>, prefix: Seq<CompV>, n: int) -> Result<
    Seq<Seq<Seq<CompV>>>,
    GraphErrV,
>
    decreases n,
{
    if n <= 0 {
        Ok(Seq::empty())
    } else {
        match all_targets_upto(pre, prefix, n - 1) {
            Err(e) => Err(e),
            Ok(ts) => match task_targets_spec(pre, prefix, n - 1, pre.len()) {
                Err(e) => Err(e),
                Ok(t) => Ok(ts.push(t)),
            },
        }
    }
}

/// Once one task's targets fail to resolve, the whole resolution fails with
/// that error.
proof fn lemma_all_targets_err(pre: Seq<TaskDeclV>, prefix: Seq<CompV>, i: int, m: int)
    requires
        0 <= i < m <= pre.len(),
        all_targets_upto(pre, prefix, i) is Ok,
        task_targets_spec(pre, prefix, i, pre.len() as nat) is Err,
    ensures
        all_targets_upto(pre, prefix, m) == Err::<Seq<Seq<Seq<CompV>>>, GraphErrV>(
            task_targets_spec(pre, prefix, i, pre.len() as nat)->Err_0,
        ),
    decreases m,
{
    if m - 1 > i {
        lemma_all_targets_err(pre, prefix, i, m - 1);
    }
}

/// One task ready for prerequisite resolution: concrete targets, with the
/// declared prerequisite lists carried along.
pub struct PlannedTask {
    pub targets: Targets,
    pub consumes: Vec<PrerequisiteSpec>,
    pub depends_on: Vec<PrerequisiteSpec>,
    pub not_before: Vec<PrerequisiteSpec>,
    pub env: Vec<EnvSpec>,
    pub recipe: Recipe,
}

/// The mathematical value of a `PlannedTask`.
pub struct PlannedTaskV {
    pub targets: Seq<Seq<CompV>>,
    pub consumes: Seq<PrereqSpecV>,
    pub depends_on: Seq<PrereqSpecV>,
    pub not_before: Seq<PrereqSpecV>,
    pub env: Seq<EnvSpecV>,
    pub recipe: Seq<ElemV>,
}

impl View for PlannedTask {
    type V = PlannedTaskV;

    open spec fn view(&self) -> PlannedTaskV {
        PlannedTaskV {
            targets: self.targets@,
            consumes: views_of(self.consumes@),
            depends_on: views_of(self.depends_on@),
            not_before: views_of(self.not_before@),
            env: views_of(self.env@),
            recipe: self.recipe@,
        }
    }
}

/// The planned tasks: targets from stage two beside the declared lists.
pub open spec fn planned_of(pre: Seq<TaskDeclV>, all: Seq<Seq<Seq<CompV>>>) -> Seq<PlannedTaskV> {
    Seq::new(
        pre.len(),
        |i: int|
            PlannedTaskV {
                targets: all[i],
                consumes: pre[i].task.consumes,
                depends_on: pre[i].task.depends_on,
                not_before: pre[i].task.not_before,
                env: pre[i].task.env,
                recipe: pre[i].task.recipe,
            },
    )
}

/// The fragment files to read: each handle's concrete target path, kept
/// with its unit's base directory.
pub open spec fn frag_paths_spec(
    frags: Seq<(Seq<CompV>, TargetSpecHandle)>,
    all: Seq<Seq<Seq<CompV>>>,
) -> Result<Seq<(Seq<CompV>, Seq<CompV>)>, GraphErrV>
    decreases frags.len(),
{
    if frags.len() == 0 {
        Ok(Seq::empty())
    } else {
        let h = frags[0].1;
        if h.task_index < all.len() && h.target_index < all[h.task_index as int].len() {
            match frag_paths_spec(frags.drop_first(), all) {
                Ok(fs) => Ok(seq![(frags[0].0, all[h.task_index as int][h.target_index as int])] + fs),
                Err(e) => Err(e),
            }
        } else {
            Err(GraphErrV::BadHandle)
        }
    }
}

/// The mathematical value of a `Plan`.
pub struct PlanV {
    pub context: Seq<CompV>,
    pub tasks: Seq<PlannedTaskV>,
    pub frags: Seq<(Seq<CompV>, Seq<CompV>)>,
}

/// What planning yields: the fused tasks with their concrete targets, and
/// the fragment files to read before the graph can be finished.
pub open spec fn plan_spec(
    context: Seq<CompV>,
    prefix: Seq<CompV>,
    us: Seq<UnitEntryV>,
) -> Result<PlanV, GraphErrV> {
    match fuse_units(us, 0) {
        Err(e) => Err(e),
        Ok((pre, frags)) => match all_targets_spec(pre, prefix) {
            Err(e) => Err(e),
            Ok(all) => match frag_paths_spec(frags, all) {
                Err(e) => Err(e),
                Ok(fps) => Ok(PlanV { context, tasks: planned_of(pre, all), frags: fps }),
            },
        },
    }
}

/// A half-built graph: targets resolved, prerequisites still unresolved,
/// and the fragment files not yet read.
pub struct Plan {
    context: FsPath,
    tasks: Vec<PlannedTask>,
    frag_bases: Vec<FsPath>,
    frag_paths: Vec<FsPath>,
}

impl Plan {
    /// The two fragment lists run in step.
    pub closed spec fn wf(&self) -> bool {
        self.frag_bases@.len() == self.frag_paths@.len()
    }

    pub closed spec fn view_spec(&self) -> PlanV {
        PlanV {
            context: self.context@,
            tasks: views_of(self.tasks@),
            frags: frag_zip(views_of(self.frag_bases@), views_of(self.frag_paths@)),
        }
    }

    /// The files whose contents `TaskList::new` will ask for, in order.
    pub fn fragment_paths(&self) -> (r: &Vec<FsPath>)
        requires
            self.wf(),
        ensures
            views_of(r@).len() == self.view_spec().frags.len(),
            forall|i: int|
                0 <= i < views_of(r@).len() ==> views_of(r@)[i] == self.view_spec().frags[i].1,
    {
        proof {
            lemma_frag_zip(views_of(self.frag_bases@), views_of(self.frag_paths@));
        }
        &self.frag_paths
    }
}

/// Two equal-length lists read as one list of pairs.
pub open spec fn frag_zip(bases: Seq<Seq<CompV>>, paths: Seq<Seq<CompV>>) -> Seq<
    (Seq<CompV>, Seq<CompV>),
> {
    Seq::new(bases.len(), |i: int| (bases[i], paths[i]))
}

proof fn lemma_frag_zip(bases: Seq<Seq<CompV>>, paths: Seq<Seq<CompV>>)
    ensures
        frag_zip(bases, paths).len() == bases.len(),
        forall|i: int|
            0 <= i < bases.len() ==> (#[trigger] frag_zip(bases, paths)[i]) == (
            bases[i],
            paths[i],
        ),
{
}

/// Globalise one prerequisite against a unit's declared tasks.
fn glob_prereq_exec(
    p: &PrerequisiteSpec,
    starts: &Vec<usize>,
    offset: usize,
    Ghost(decls): Ghost<Seq<TaskDeclV>>,
) -> (r: Result<PrerequisiteSpec, NewTaskListError>)
    requires
        starts@.len() == decls.len(),
        forall|k: int| 0 <= k < starts@.len() ==> starts@[k] == decompose_start(decls, k),
    ensures
        match r {
            Ok(q) => glob_prereq(p@, decls, offset as nat) == Ok::<PrereqSpecV, GraphErrV>(q@),
            Err(e) => glob_prereq(p@, decls, offset as nat) == Err::<PrereqSpecV, GraphErrV>(e@),
        },
{
    match p {
        PrerequisiteSpec::Named(path, optional) => Ok(
            PrerequisiteSpec::Named(path.duplicate(), *optional),
        ),
        PrerequisiteSpec::Handle(h) => {
            if h.task_index >= starts.len() {
                return Err(NewTaskListError::BadHandle);
            }
            let start = starts[h.task_index];
            if start > usize::MAX - offset {
                return Err(NewTaskListError::BadHandle);
            }
            Ok(
                PrerequisiteSpec::Handle(
                    TargetSpecHandle {
                        task_index: offset + start,
                        target_index: h.target_index,
                    },
                ),
            )
        },
    }
}

/// Globalise a whole prerequisite list.
#[verifier::loop_isolation(false)]
fn glob_prereqs_exec(
    ps: &Vec<PrerequisiteSpec>,
    starts: &Vec<usize>,
    offset: usize,
    Ghost(decls): Ghost<Seq<TaskDeclV>>,
) -> (r: Result<Vec<PrerequisiteSpec>, NewTaskListError>)
    requires
        starts@.len() == decls.len(),
        forall|k: int| 0 <= k < starts@.len() ==> starts@[k] == decompose_start(decls, k),
    ensures
        match r {
            Ok(qs) => glob_prereqs(views_of(ps@), decls, offset as nat) == Ok::<
                Seq<PrereqSpecV>,
                GraphErrV,
            >(views_of(qs@)),
            Err(e) => glob_prereqs(views_of(ps@), decls, offset as nat) == Err::<
                Seq<PrereqSpecV>,
                GraphErrV,
            >(e@),
        },
{
    let ghost pv = views_of(ps@);
    let mut out: Vec<PrerequisiteSpec> = Vec::new();
    let n = ps.len();
    let mut i: usize = 0;
    proof {
        assert(pv.skip(0) =~= pv);
        assert(views_of(out@) =~= Seq::<PrereqSpecV>::empty());
    }
    while i < n
        invariant
            i <= n,
            n == ps@.len(),
            match glob_prereqs(pv.skip(i as int), decls, offset as nat) {
                Ok(qs) => glob_prereqs(pv, decls, offset as nat) == Ok::<
                    Seq<PrereqSpecV>,
                    GraphErrV,
                >(views_of(out@) + qs),
                Err(e) => glob_prereqs(pv, decls, offset as nat) == Err::<
                    Seq<PrereqSpecV>,
                    GraphErrV,
                >(e),
            },
        decreases n - i,
    {
        let ghost rest = pv.skip(i as int);
        proof {
            assert(rest[0] == pv[i as int]);
            assert(rest.drop_first() =~= pv.skip(i + 1));
            assert(pv[i as int] == ps@[i as int]@);
        }
        match glob_prereq_exec(&ps[i], starts, offset, Ghost(decls)) {
            Ok(q) => {
                let ghost qv = q@;
                let ghost out0 = views_of(out@);
                out.push(q);
                proof {
                    if let Ok(qs) = glob_prereqs(pv.skip(i + 1), decls, offset as nat) {
                        assert(views_of(out@) + qs =~= out0 + (seq![qv] + qs));
                    }
                }
            },
            Err(e) => {
                return Err(e);
            },
        }
        i += 1;
    }
    proof {
        assert(pv.skip(n as int) =~= Seq::<PrereqSpecV>::empty());
        assert(views_of(out@) + Seq::<PrereqSpecV>::empty() =~= views_of(out@));
    }
    Ok(out)
}

/// Fragment bases and handles read as one list of pairs.
pub open spec fn fzip(bases: Seq<Seq<CompV>>, hs: Seq<TargetSpecHandle>) -> Seq<
    (Seq<CompV>, TargetSpecHandle),
> {
    Seq::new(bases.len(), |i: int| (bases[i], hs[i]))
}

/// Decompose and globalise one unit, appending its tasks and fragment
/// handles.
#[verifier::loop_isolation(false)]
#[verifier::rlimit(60)]
fn fuse_unit(
    entry: UnitEntry,
    out: &mut Vec<TaskDecl>,
    fbases: &mut Vec<FsPath>,
    fhandles: &mut Vec<TargetSpecHandle>,
) -> (r: Result<(), NewTaskListError>)
    requires
        old(fbases)@.len() == old(fhandles)@.len(),
    ensures
        final(fbases)@.len() == final(fhandles)@.len(),
        match r {
            Ok(_) => {
                &&& glob_decls(
                    decompose_tasks(entry.unit@.tasks),
                    entry.unit@.tasks,
                    old(out)@.len() as nat,
                ) is Ok
                &&& views_of(final(out)@) == views_of(old(out)@) + glob_decls(
                    decompose_tasks(entry.unit@.tasks),
                    entry.unit@.tasks,
                    old(out)@.len() as nat,
                )->Ok_0
                &&& glob_frags(
                    entry.unit@.fragments,
                    entry.unit@.tasks,
                    old(out)@.len() as nat,
                    entry.base@,
                ) is Ok
                &&& fzip(views_of(final(fbases)@), final(fhandles)@) == fzip(
                    views_of(old(fbases)@),
                    old(fhandles)@,
                ) + glob_frags(
                    entry.unit@.fragments,
                    entry.unit@.tasks,
                    old(out)@.len() as nat,
                    entry.base@,
                )->Ok_0
            },
            Err(e) => {
                ||| glob_decls(
                    decompose_tasks(entry.unit@.tasks),
                    entry.unit@.tasks,
                    old(out)@.len() as nat,
                ) == Err::<Seq<TaskDeclV>, GraphErrV>(e@)
                ||| (glob_decls(
                    decompose_tasks(entry.unit@.tasks),
                    entry.unit@.tasks,
                    old(out)@.len() as nat,
                ) is Ok && glob_frags(
                    entry.unit@.fragments,
                    entry.unit@.tasks,
                    old(out)@.len() as nat,
                    entry.base@,
                ) == Err::<Seq<(Seq<CompV>, TargetSpecHandle)>, GraphErrV>(e@))
            },
        },
{
    let ghost declsv = entry.unit@.tasks;
    let base = entry.base;
    let offset = out.len();
    let (flat, starts, frags) = entry.unit.decompose();
    let ghost fannedv = decompose_tasks(declsv);
    let ghost out_before = views_of(out@);
    // Globalise and append this unit's decomposed tasks.
    let mut flat = flat;
    let m = flat.len();
    let mut j: usize = 0;
    proof {
        assert(fannedv.skip(0) =~= fannedv);
        assert(views_of(out@).take(offset as int) =~= out_before);
        assert(views_of(out@).skip(offset as int) =~= Seq::<TaskDeclV>::empty());
    }
    while j < m
        invariant
            j <= m,
            m == fannedv.len(),
            flat@.len() == m - j,
            views_of(flat@) =~= fannedv.skip(j as int),
            starts@.len() == declsv.len(),
            forall|k: int| 0 <= k < starts@.len() ==> starts@[k] == decompose_start(declsv, k),
            views_of(out@).len() >= offset,
            views_of(out@).take(offset as int) == out_before,
            match glob_decls(fannedv.skip(j as int), declsv, offset as nat) {
                Ok(ts) => glob_decls(fannedv, declsv, offset as nat) == Ok::<
                    Seq<TaskDeclV>,
                    GraphErrV,
                >(views_of(out@).skip(offset as int) + ts),
                Err(e) => glob_decls(fannedv, declsv, offset as nat) == Err::<
                    Seq<TaskDeclV>,
                    GraphErrV,
                >(e),
            },
        decreases m - j,
    {
        let ghost frest = fannedv.skip(j as int);
        proof {
            assert(frest[0] == fannedv[j as int]);
            assert(frest.drop_first() =~= fannedv.skip(j + 1));
            assert(fannedv[j as int] == flat@[0]@);
        }
        let d = flat.remove(0);
        proof {
            assert(views_of(flat@) =~= fannedv.skip(j + 1));
        }
        let cs = match glob_prereqs_exec(&d.task.consumes, &starts, offset, Ghost(declsv)) {
            Ok(cs) => cs,
            Err(e) => {
                return Err(e);
            },
        };
        let ds = match glob_prereqs_exec(&d.task.depends_on, &starts, offset, Ghost(declsv)) {
            Ok(ds) => ds,
            Err(e) => {
                return Err(e);
            },
        };
        let ns = match glob_prereqs_exec(&d.task.not_before, &starts, offset, Ghost(declsv)) {
            Ok(ns) => ns,
            Err(e) => {
                return Err(e);
            },
        };
        let g = TaskDecl {
            targets: d.targets,
            task: crate::unit::TaskSpec {
                consumes: cs,
                depends_on: ds,
                not_before: ns,
                aggregate: d.task.aggregate,
                env: d.task.env,
                recipe: d.task.recipe,
            },
        };
        proof {
            assert(glob_task(fannedv[j as int], declsv, offset as nat) == Ok::<
                TaskDeclV,
                GraphErrV,
            >(g@));
        }
        let ghost out0 = views_of(out@);
        out.push(g);
        proof {
            assert(views_of(out@).take(offset as int) =~= out0.take(offset as int));
            if let Ok(ts) = glob_decls(fannedv.skip(j + 1), declsv, offset as nat) {
                assert(views_of(out@).skip(offset as int) + ts =~= out0.skip(offset as int) + (
                seq![glob_task(fannedv[j as int], declsv, offset as nat)->Ok_0] + ts));
            }
        }
        j += 1;
    }
    proof {
        assert(fannedv.skip(m as int) =~= Seq::<TaskDeclV>::empty());
        assert(views_of(out@).skip(offset as int) + Seq::<TaskDeclV>::empty() =~= views_of(
            out@,
        ).skip(offset as int));
        assert(out_before + views_of(out@).skip(offset as int) =~= views_of(out@));
    }
    // Globalise this unit's fragment handles.
    let ghost fragsv = frags@;
    let ghost basev = base@;
    let fm = frags.len();
    let mut k: usize = 0;
    let ghost fz_before = fzip(views_of(fbases@), fhandles@);
    proof {
        assert(fragsv.skip(0) =~= fragsv);
        assert(fzip(views_of(fbases@), fhandles@).take(fz_before.len() as int) =~= fz_before);
        assert(fzip(views_of(fbases@), fhandles@).skip(fz_before.len() as int) =~= Seq::<
            (Seq<CompV>, TargetSpecHandle),
        >::empty());
    }
    while k < fm
        invariant
            k <= fm,
            fm == fragsv.len(),
            frags@ == fragsv,
            fbases@.len() == fhandles@.len(),
            starts@.len() == declsv.len(),
            forall|k2: int| 0 <= k2 < starts@.len() ==> starts@[k2] == decompose_start(declsv, k2),
            fzip(views_of(fbases@), fhandles@).len() >= fz_before.len(),
            fzip(views_of(fbases@), fhandles@).take(fz_before.len() as int) == fz_before,
            match glob_frags(fragsv.skip(k as int), declsv, offset as nat, basev) {
                Ok(fs) => glob_frags(fragsv, declsv, offset as nat, basev) == Ok::<
                    Seq<(Seq<CompV>, TargetSpecHandle)>,
                    GraphErrV,
                >(fzip(views_of(fbases@), fhandles@).skip(fz_before.len() as int) + fs),
                Err(e) => glob_frags(fragsv, declsv, offset as nat, basev) == Err::<
                    Seq<(Seq<CompV>, TargetSpecHandle)>,
                    GraphErrV,
                >(e),
            },
        decreases fm - k,
    {
        let ghost frest = fragsv.skip(k as int);
        proof {
            assert(frest[0] == fragsv[k as int]);
            assert(frest.drop_first() =~= fragsv.skip(k + 1));
        }
        let p = PrerequisiteSpec::Handle(frags[k]);
        match glob_prereq_exec(&p, &starts, offset, Ghost(declsv)) {
            Ok(PrerequisiteSpec::Handle(h)) => {
                let ghost fz0 = fzip(views_of(fbases@), fhandles@);
                fbases.push(base.duplicate());
                fhandles.push(h);
                proof {
                    assert(fzip(views_of(fbases@), fhandles@) =~= fz0.push((basev, h)));
                    assert(fzip(views_of(fbases@), fhandles@).take(fz_before.len() as int)
                        =~= fz0.take(fz_before.len() as int));
                    if let Ok(fs) = glob_frags(fragsv.skip(k + 1), declsv, offset as nat, basev) {
                        assert(fzip(views_of(fbases@), fhandles@).skip(fz_before.len() as int) + fs
                            =~= fz0.skip(fz_before.len() as int) + (seq![(basev, h)] + fs));
                    }
                }
            },
            Ok(_) => {
                return Err(NewTaskListError::BadHandle);
            },
            Err(e) => {
                return Err(e);
            },
        }
        k += 1;
    }
    proof {
        assert(fragsv.skip(fm as int) =~= Seq::<TargetSpecHandle>::empty());
        assert(fzip(views_of(fbases@), fhandles@).skip(fz_before.len() as int) + Seq::<
            (Seq<CompV>, TargetSpecHandle),
        >::empty() =~= fzip(views_of(fbases@), fhandles@).skip(fz_before.len() as int));
        assert(fz_before + fzip(views_of(fbases@), fhandles@).skip(fz_before.len() as int)
            =~= fzip(views_of(fbases@), fhandles@));
    }
    Ok(())
}

/// Fuse the units: decompose each, globalise its handles, and concatenate.
#[verifier::loop_isolation(false)]
fn fuse(units: Vec<UnitEntry>) -> (r: Result<
    (Vec<TaskDecl>, Vec<FsPath>, Vec<TargetSpecHandle>),
    NewTaskListError,
>)
    ensures
        match r {
            Ok(t) => t.1@.len() == t.2@.len() && fuse_units(views_of(units@), 0) == Ok::<
                (Seq<TaskDeclV>, Seq<(Seq<CompV>, TargetSpecHandle)>),
                GraphErrV,
            >((views_of(t.0@), fzip(views_of(t.1@), t.2@))),
            Err(e) => fuse_units(views_of(units@), 0) == Err::<
                (Seq<TaskDeclV>, Seq<(Seq<CompV>, TargetSpecHandle)>),
                GraphErrV,
            >(e@),
        },
{
    let ghost uv = views_of(units@);
    let mut units = units;
    let mut out: Vec<TaskDecl> = Vec::new();
    let mut fbases: Vec<FsPath> = Vec::new();
    let mut fhandles: Vec<TargetSpecHandle> = Vec::new();
    let n = units.len();
    let mut i: usize = 0;
    proof {
        assert(uv.skip(0) =~= uv);
        assert(views_of(out@) =~= Seq::<TaskDeclV>::empty());
        assert(fzip(views_of(fbases@), fhandles@) =~= Seq::<
            (Seq<CompV>, TargetSpecHandle),
        >::empty());
    }
    while i < n
        invariant
            i <= n,
            n == uv.len(),
            units@.len() == n - i,
            views_of(units@) =~= uv.skip(i as int),
            fbases@.len() == fhandles@.len(),
            match fuse_units(uv.skip(i as int), views_of(out@).len() as nat) {
                Ok(rest) => fuse_units(uv, 0) == Ok::<
                    (Seq<TaskDeclV>, Seq<(Seq<CompV>, TargetSpecHandle)>),
                    GraphErrV,
                >((views_of(out@) + rest.0, fzip(views_of(fbases@), fhandles@) + rest.1)),
                Err(e) => fuse_units(uv, 0) == Err::<
                    (Seq<TaskDeclV>, Seq<(Seq<CompV>, TargetSpecHandle)>),
                    GraphErrV,
                >(e),
            },
        decreases n - i,
    {
        let ghost rest = uv.skip(i as int);
        proof {
            assert(rest[0] == uv[i as int]);
            assert(rest.drop_first() =~= uv.skip(i + 1));
            assert(uv[i as int] == units@[0]@);
        }
        let entry = units.remove(0);
        proof {
            assert(views_of(units@) =~= uv.skip(i + 1));
        }
        let ghost out_before = views_of(out@);
        let ghost fz_before = fzip(views_of(fbases@), fhandles@);
        let ghost ev = entry@;
        match fuse_unit(entry, &mut out, &mut fbases, &mut fhandles) {
            Ok(_) => {
                proof {
                    let fanned = decompose_tasks(ev.unit.tasks);
                    let gts = glob_decls(fanned, ev.unit.tasks, out_before.len() as nat)->Ok_0;
                    let gfs = glob_frags(
                        ev.unit.fragments,
                        ev.unit.tasks,
                        out_before.len() as nat,
                        ev.base,
                    )->Ok_0;
                    lemma_glob_decls_len(fanned, ev.unit.tasks, out_before.len() as nat);
                    assert(views_of(out@).len() == out_before.len() + fanned.len());
                    if let Ok(rest2) = fuse_units(uv.skip(i + 1), views_of(out@).len() as nat) {
                        assert(views_of(out@) + rest2.0 =~= out_before + (gts + rest2.0));
                        assert(fzip(views_of(fbases@), fhandles@) + rest2.1 =~= fz_before + (gfs
                            + rest2.1));
                    }
                }
            },
            Err(e) => {
                return Err(e);
            },
        }
        i += 1;
    }
    proof {
        assert(uv.skip(n as int) =~= Seq::<UnitEntryV>::empty());
        assert(views_of(out@) + Seq::<TaskDeclV>::empty() =~= views_of(out@));
        assert(fzip(views_of(fbases@), fhandles@) + Seq::<(Seq<CompV>, TargetSpecHandle)>::empty()
            =~= fzip(views_of(fbases@), fhandles@));
    }
    Ok((out, fbases, fhandles))
}

/// The concrete targets of the task at `i`, chasing the first-input handle
/// chain with bounded fuel; the fuel runs out only on a circle.
#[verifier::rlimit(30)]
fn task_targets_exec(pre: &Vec<TaskDecl>, prefix: &FsPath, i: usize, fuel: usize) -> (r: Result<
    Targets,
    NewTaskListError,
>)
    requires
        i < pre@.len(),
    ensures
        match r {
            Ok(t) => task_targets_spec(views_of(pre@), prefix@, i as int, fuel as nat) == Ok::<
                Seq<Seq<CompV>>,
                GraphErrV,
            >(t@),
            Err(e) => task_targets_spec(views_of(pre@), prefix@, i as int, fuel as nat) == Err::<
                Seq<Seq<CompV>>,
                GraphErrV,
            >(e@),
        },
    decreases fuel, 1int,
{
    let ghost prev = views_of(pre@);
    proof {
        assert(prev[i as int] == pre@[i as int]@);
    }
    let input: Option<FsPath> = if pre[i].task.consumes.len() == 0 {
        None
    } else {
        match &pre[i].task.consumes[0] {
            PrerequisiteSpec::Named(p, _) => Some(p.duplicate()),
            PrerequisiteSpec::Handle(h) => {
                if h.task_index >= pre.len() {
                    return Err(NewTaskListError::BadHandle);
                }
                if fuel == 0 {
                    return Err(NewTaskListError::CyclicDependency);
                }
                match task_targets_exec(pre, prefix, h.task_index, fuel - 1) {
                    Ok(ts) => {
                        if h.target_index < ts.len() {
                            Some(ts.get(h.target_index).duplicate())
                        } else {
                            return Err(NewTaskListError::BadHandle);
                        }
                    },
                    Err(e) => {
                        return Err(e);
                    },
                }
            },
        }
    };
    proof {
        match input {
            Some(ref p) => assert(first_input_spec(prev, prefix@, i as int, fuel as nat) == Ok::<
                Option<Seq<CompV>>,
                GraphErrV,
            >(Some(p@))),
            None => assert(first_input_spec(prev, prefix@, i as int, fuel as nat) == Ok::<
                Option<Seq<CompV>>,
                GraphErrV,
            >(None)),
        }
    }
    match Targets::try_from((prefix.duplicate(), &input, pre[i].targets.duplicate())) {
        Ok(t) => Ok(t),
        Err(e) => Err(NewTaskListError::ResolveError(e)),
    }
}

/// The task list under construction and what remains to resolve.
pub struct TaskList {
    tasks: Vec<Task>,
}

/// A handle into the ordered task list.
#[derive(Clone, Copy, Debug, PartialEq, Eq, Hash, Structural)]
pub struct TaskHandle {
    pub index: usize,
}

impl TaskHandle {
    pub fn new(index: usize) -> (r: Self)
        ensures
            r.index == index,
    {
        Self { index }
    }
}

/// A resolved prerequisite: a producing task in the list, or an outside
/// file by name with its optional flag.
#[derive(Clone, Debug)]
pub enum Prerequisite {
    Named(FsPath, bool),
    Handle(TaskHandle),
}

/// The mathematical value of a `Prerequisite`.
pub enum PrereqRV {
    Named(Seq<CompV>, bool),
    Handle(int),
}

impl View for Prerequisite {
    type V = PrereqRV;

    open spec fn view(&self) -> PrereqRV {
        match self {
            Prerequisite::Named(p, optional) => PrereqRV::Named(p@, *optional),
            Prerequisite::Handle(h) => PrereqRV::Handle(h.index as int),
        }
    }
}

/// One task of the finished graph.
#[derive(Debug)]
pub struct Task {
    targets: Targets,
    inputs: Vec<FsPath>,
    upstream: Vec<Prerequisite>,
    downstream: Vec<TaskHandle>,
    env: Vec<EnvSpec>,
    recipe: Recipe,
}

/// The mathematical value of a `Task`.
pub struct TaskV {
    pub targets: Seq<Seq<CompV>>,
    pub inputs: Seq<Seq<CompV>>,
    pub upstream: Seq<PrereqRV>,
    pub downstream: Seq<int>,
    pub env: Seq<EnvSpecV>,
    pub recipe: Seq<ElemV>,
}

impl View for Task {
    type V = TaskV;

    closed spec fn view(&self) -> TaskV {
        TaskV {
            targets: self.targets@,
            inputs: views_of(self.inputs@),
            upstream: views_of(self.upstream@),
            downstream: Seq::new(self.downstream@.len(), |i: int| self.downstream@[i].index as int),
            env: views_of(self.env@),
            recipe: self.recipe@,
        }
    }
}

impl Task {
    /// The task's concrete target paths.
    pub fn targets(&self) -> (r: &Targets)
        ensures
            r@ == self@.targets,
    {
        &self.targets
    }

    /// The task's concrete input paths, in consuming order.
    pub fn inputs(&self) -> (r: &Vec<FsPath>)
        ensures
            views_of(r@) == self@.inputs,
    {
        &self.inputs
    }

    /// Everything the task waits on.
    pub fn upstream(&self) -> (r: &Vec<Prerequisite>)
        ensures
            views_of(r@) == self@.upstream,
    {
        &self.upstream
    }

    /// The tasks that wait on this one.
    pub fn downstream(&self) -> (r: &Vec<TaskHandle>)
        ensures
            r@.len() == self@.downstream.len(),
            forall|i: int| 0 <= i < r@.len() ==> r@[i].index as int == self@.downstream[i],
    {
        &self.downstream
    }

    /// Render the task's recipe into a command ready to issue.
    pub fn prepare(&self) -> (r: Result<
        crate::recipe::PreparedCommand,
        crate::recipe::RecipePrepareError,
    >)
        ensures
            match r {
                Ok(pc) => crate::recipe::prepare_spec(
                    self@.recipe,
                    crate::recipe::paths_texts(self@.targets),
                    crate::recipe::paths_texts(self@.inputs),
                ) == Ok::<(Seq<char>, Seq<Seq<char>>), crate::recipe::PrepErrV>(
                    (pc.cmd@, pc.args_view()),
                ) && pc.env_view() == self@.env,
                Err(e) => crate::recipe::prepare_spec(
                    self@.recipe,
                    crate::recipe::paths_texts(self@.targets),
                    crate::recipe::paths_texts(self@.inputs),
                ) == Err::<(Seq<char>, Seq<Seq<char>>), crate::recipe::PrepErrV>(e@),
            },
    {
        self.recipe.prepare(&self.targets, &self.inputs, &self.env)
    }
}

impl TaskList {
    /// The number of tasks.
    pub fn len(&self) -> (r: usize)
        ensures
            r == self@.len(),
    {
        self.tasks.len()
    }

    /// The task at `index`.
    pub fn get(&self, index: usize) -> (r: &Task)
        requires
            index < self@.len(),
        ensures
            r@ == self@[index as int],
    {
        &self.tasks[index]
    }
}

impl View for TaskList {
    type V = Seq<TaskV>;

    closed spec fn view(&self) -> Seq<TaskV> {
        views_of(self.tasks@)
    }
}

impl TaskList {
    /// Fuse the units and resolve every task's concrete targets.  The
    /// returned plan still waits for the named fragment files' contents.
    #[verifier::loop_isolation(false)]
    pub fn plan(context: &FsPath, target_prefix: &FsPath, units: Vec<UnitEntry>) -> (r: Result<
        Plan,
        NewTaskListError,
    >)
        ensures
            match r {
                Ok(p) => p.wf() && plan_spec(context@, target_prefix@, views_of(units@)) == Ok::<
                    PlanV,
                    GraphErrV,
                >(p.view_spec()),
                Err(e) => plan_spec(context@, target_prefix@, views_of(units@)) == Err::<
                    PlanV,
                    GraphErrV,
                >(e@),
            },
    {
        let (pre, fbases, fhandles) = match fuse(units) {
            Ok(t) => t,
            Err(e) => {
                return Err(e);
            },
        };
        let ghost prev = views_of(pre@);
        let ghost allv = all_targets_spec(prev, target_prefix@);

        // Resolve every task's targets.
        let n = pre.len();
        let mut targets: Vec<Targets> = Vec::new();
        let mut i: usize = 0;
        proof {
            assert(all_targets_upto(prev, target_prefix@, 0) == Ok::<
                Seq<Seq<Seq<CompV>>>,
                GraphErrV,
            >(Seq::empty()));
            assert(views_of(targets@) =~= Seq::<Seq<Seq<CompV>>>::empty());
        }
        while i < n
            invariant
                i <= n,
                n == prev.len(),
                prev == views_of(pre@),
                all_targets_upto(prev, target_prefix@, i as int) == Ok::<
                    Seq<Seq<Seq<CompV>>>,
                    GraphErrV,
                >(views_of(targets@)),
                views_of(targets@).len() == i,
            decreases n - i,
        {
            match task_targets_exec(&pre, target_prefix, i, n) {
                Ok(t) => {
                    let ghost tv = t@;
                    let ghost t0 = views_of(targets@);
                    targets.push(t);
                    proof {
                        assert(views_of(targets@) =~= t0.push(tv));
                    }
                },
                Err(e) => {
                    proof {
                        lemma_all_targets_err(prev, target_prefix@, i as int, n as int);
                    }
                    return Err(e);
                },
            }
            i += 1;
        }
        let ghost all = views_of(targets@);
        proof {
            assert(all_targets_spec(prev, target_prefix@) == Ok::<
                Seq<Seq<Seq<CompV>>>,
                GraphErrV,
            >(all));
        }

        // The fragment files to read: each handle's concrete target.
        let ghost fragsv = fzip(views_of(fbases@), fhandles@);
        let fn_ = fhandles.len();
        let mut fpaths: Vec<FsPath> = Vec::new();
        let mut k: usize = 0;
        proof {
            assert(fragsv.skip(0) =~= fragsv);
            assert(views_of(fpaths@) =~= Seq::<Seq<CompV>>::empty());
        }
        while k < fn_
            invariant
                k <= fn_,
                fn_ == fragsv.len(),
                fn_ == fhandles@.len(),
                fn_ == fbases@.len(),
                fragsv == fzip(views_of(fbases@), fhandles@),
                n == prev.len(),
                all.len() == n,
                all_targets_spec(prev, target_prefix@) == Ok::<
                    Seq<Seq<Seq<CompV>>>,
                    GraphErrV,
                >(all),
                targets@.len() == n,
                views_of(targets@) == all,
                views_of(fpaths@).len() == k,
                match frag_paths_spec(fragsv.skip(k as int), all) {
                    Ok(fs) => frag_paths_spec(fragsv, all) == Ok::<
                        Seq<(Seq<CompV>, Seq<CompV>)>,
                        GraphErrV,
                    >(frag_zip(views_of(fbases@).take(k as int), views_of(fpaths@)) + fs),
                    Err(e) => frag_paths_spec(fragsv, all) == Err::<
                        Seq<(Seq<CompV>, Seq<CompV>)>,
                        GraphErrV,
                    >(e),
                },
            decreases fn_ - k,
        {
            let ghost frest = fragsv.skip(k as int);
            proof {
                assert(frest[0] == fragsv[k as int]);
                assert(frest.drop_first() =~= fragsv.skip(k + 1));
            }
            let h = fhandles[k];
            if h.task_index >= targets.len() {
                return Err(NewTaskListError::BadHandle);
            }
            if h.target_index >= targets[h.task_index].len() {
                return Err(NewTaskListError::BadHandle);
            }
            let ghost fp0 = views_of(fpaths@);
            fpaths.push(targets[h.task_index].get(h.target_index).duplicate());
            proof {
                assert(views_of(fpaths@) =~= fp0.push(all[h.task_index as int][h.target_index as int]));
                assert(frag_zip(views_of(fbases@).take(k + 1), views_of(fpaths@)) =~= frag_zip(
                    views_of(fbases@).take(k as int),
                    fp0,
                ).push((views_of(fbases@)[k as int], all[h.task_index as int][h.target_index as int])));
                if let Ok(fs) = frag_paths_spec(fragsv.skip(k + 1), all) {
                    assert(frag_zip(views_of(fbases@).take(k + 1), views_of(fpaths@)) + fs
                        =~= frag_zip(views_of(fbases@).take(k as int), fp0) + (seq![
                        (fragsv[k as int].0, all[h.task_index as int][h.target_index as int]),
                    ] + fs));
                }
            }
            k += 1;
        }
        proof {
            assert(fragsv.skip(fn_ as int) =~= Seq::<(Seq<CompV>, TargetSpecHandle)>::empty());
            assert(frag_zip(views_of(fbases@).take(fn_ as int), views_of(fpaths@)) + Seq::<
                (Seq<CompV>, Seq<CompV>),
            >::empty() =~= frag_zip(views_of(fbases@).take(fn_ as int), views_of(fpaths@)));
            assert(views_of(fbases@).take(fn_ as int) =~= views_of(fbases@));
        }

        // Assemble the planned tasks.
        let mut tasks: Vec<PlannedTask> = Vec::new();
        let mut j: usize = 0;
        let mut pre = pre;
        let mut targets = targets;
        proof {
            assert(views_of(tasks@) =~= Seq::<PlannedTaskV>::empty());
        }
        while j < n
            invariant
                j <= n,
                n == prev.len(),
                all.len() == n,
                pre@.len() == n - j,
                views_of(pre@) =~= prev.skip(j as int),
                targets@.len() == n - j,
                views_of(targets@) =~= all.skip(j as int),
                views_of(tasks@).len() == j,
                forall|q: int| 0 <= q < j ==> views_of(tasks@)[q] == planned_of(prev, all)[q],
            decreases n - j,
        {
            proof {
                assert(prev.skip(j as int)[0] == prev[j as int]);
                assert(prev.skip(j as int).drop_first() =~= prev.skip(j + 1));
                assert(all.skip(j as int)[0] == all[j as int]);
                assert(all.skip(j as int).drop_first() =~= all.skip(j + 1));
                assert(prev[j as int] == pre@[0]@);
                assert(all[j as int] == targets@[0]@);
            }
            let d = pre.remove(0);
            let t = targets.remove(0);
            proof {
                assert(views_of(pre@) =~= prev.skip(j + 1));
                assert(views_of(targets@) =~= all.skip(j + 1));
            }
            let p = PlannedTask {
                targets: t,
                consumes: d.task.consumes,
                depends_on: d.task.depends_on,
                not_before: d.task.not_before,
                env: d.task.env,
                recipe: d.task.recipe,
            };
            proof {
                assert(p@ == planned_of(prev, all)[j as int]);
            }
            tasks.push(p);
            j += 1;
        }
        proof {
            assert(views_of(tasks@) =~= planned_of(prev, all));
        }
        let plan = Plan { context: context.duplicate(), tasks, frag_bases: fbases, frag_paths: fpaths };
        proof {
            assert(plan.view_spec().frags =~= frag_paths_spec(fragsv, all)->Ok_0);
            assert(plan.view_spec() == plan_spec(context@, target_prefix@, views_of(units@))->Ok_0);
        }
        Ok(plan)
    }
}

/// The index of the last target in `ts` equal to `p`, if any.
pub open spec fn find_in_targets(ts: Seq<Seq<CompV>>, p: Seq<CompV>) -> Option<int>
    decreases ts.len(),
{
    if ts.len() == 0 {
        None
    } else if ts.last() == p {
        Some(ts.len() - 1)
    } else {
        find_in_targets(ts.drop_last(), p)
    }
}

/// The last task (and target) binding the path `p`, if any: later bindings
/// overwrite earlier ones.
pub open spec fn find_target(all: Seq<Seq<Seq<CompV>>>, p: Seq<CompV>) -> Option<(int, int)>
    decreases all.len(),
{
    if all.len() == 0 {
        None
    } else {
        match find_in_targets(all.last(), p) {
            Some(t) => Some((all.len() - 1, t)),
            None => find_target(all.drop_last(), p),
        }
    }
}

/// The targets of each planned task.
pub open spec fn targets_of(tasks: Seq<PlannedTaskV>) -> Seq<Seq<Seq<CompV>>> {
    Seq::new(tasks.len(), |i: int| tasks[i].targets)
}

/// Merge one dependency pair: both sides are relativised against the
/// fragment's unit directory; when the target names a known task, that task
/// gains an optional named dependency; unknown targets are dropped quietly.
pub open spec fn merge_pair(
    tasks: Seq<PlannedTaskV>,
    all: Seq<Seq<Seq<CompV>>>,
    context: Seq<CompV>,
    base: Seq<CompV>,
    pair: (Seq<char>, Seq<char>),
) -> Result<Seq<PlannedTaskV>, GraphErrV> {
    match crate::path::relativise_spec(context, base, crate::path::parse_path_spec(pair.0)) {
        Err(e) => Err(GraphErrV::Relativise(e)),
        Ok(tp) => match crate::path::relativise_spec(
            context,
            base,
            crate::path::parse_path_spec(pair.1),
        ) {
            Err(e) => Err(GraphErrV::Relativise(e)),
            Ok(pp) => match find_target(all, tp) {
                Some((t, _)) => if 0 <= t < tasks.len() {
                    Ok(
                        tasks.update(
                            t,
                            PlannedTaskV {
                                targets: tasks[t].targets,
                                consumes: tasks[t].consumes,
                                depends_on: tasks[t].depends_on.push(
                                    PrereqSpecV::Named(pp, true),
                                ),
                                not_before: tasks[t].not_before,
                                env: tasks[t].env,
                                recipe: tasks[t].recipe,
                            },
                        ),
                    )
                } else {
                    Ok(tasks)
                },
                None => Ok(tasks),
            },
        },
    }
}

/// Merge a fragment's pairs in order.
pub open spec fn merge_pairs(
    tasks: Seq<PlannedTaskV>,
    all: Seq<Seq<Seq<CompV>>>,
    context: Seq<CompV>,
    base: Seq<CompV>,
    pairs: Seq<(Seq<char>, Seq<char>)>,
) -> Result<Seq<PlannedTaskV>, GraphErrV>
    decreases pairs.len(),
{
    if pairs.len() == 0 {
        Ok(tasks)
    } else {
        match merge_pair(tasks, all, context, base, pairs[0]) {
            Err(e) => Err(e),
            Ok(ts) => merge_pairs(ts, all, context, base, pairs.drop_first()),
        }
    }
}

/// Merge every fragment's text, in order.
pub open spec fn merge_all(
    tasks: Seq<PlannedTaskV>,
    all: Seq<Seq<Seq<CompV>>>,
    context: Seq<CompV>,
    bases: Seq<Seq<CompV>>,
    texts: Seq<Seq<char>>,
) -> Result<Seq<PlannedTaskV>, GraphErrV>
    decreases bases.len(),
{
    if bases.len() == 0 {
        Ok(tasks)
    } else {
        match merge_pairs(
            tasks,
            all,
            context,
            bases[0],
            crate::make::rules_pairs(crate::make::parse_rules(texts[0])),
        ) {
            Err(e) => Err(e),
            Ok(ts) => merge_all(ts, all, context, bases.drop_first(), texts.drop_first()),
        }
    }
}

/// Find the last task whose target list holds `p`.
#[verifier::loop_isolation(false)]
fn find_target_exec(targets: &Vec<Targets>, p: &FsPath) -> (r: Option<(usize, usize)>)
    ensures
        match r {
            Some(tk) => find_target(views_of(targets@), p@) == Some((tk.0 as int, tk.1 as int)),
            None => find_target(views_of(targets@), p@) is None,
        },
{
    let ghost allv = views_of(targets@);
    let n = targets.len();
    let mut i: usize = n;
    proof {
        assert(allv.take(n as int) =~= allv);
    }
    while i > 0
        invariant
            i <= n,
            n == allv.len(),
            allv == views_of(targets@),
            find_target(allv, p@) == find_target(allv.take(i as int), p@),
        decreases i,
    {
        let ghost pre = allv.take(i as int);
        proof {
            assert(pre.last() == allv[i - 1]);
            assert(pre.drop_last() =~= allv.take(i - 1));
        }
        match find_in_targets_exec(&targets[i - 1], p) {
            Some(t) => {
                proof {
                    assert(allv[i - 1] == targets@[i - 1]@);
                }
                return Some((i - 1, t));
            },
            None => {
                proof {
                    assert(allv[i - 1] == targets@[i - 1]@);
                }
            },
        }
        i -= 1;
    }
    proof {
        assert(allv.take(0) =~= Seq::<Seq<Seq<CompV>>>::empty());
    }
    None
}

/// Find the last target in one task's list equal to `p`.
#[verifier::loop_isolation(false)]
fn find_in_targets_exec(ts: &Targets, p: &FsPath) -> (r: Option<usize>)
    ensures
        match r {
            Some(t) => find_in_targets(ts@, p@) == Some(t as int),
            None => find_in_targets(ts@, p@) is None,
        },
{
    let n = ts.len();
    let mut i: usize = n;
    proof {
        assert(ts@.take(n as int) =~= ts@);
    }
    while i > 0
        invariant
            i <= n,
            n == ts@.len(),
            find_in_targets(ts@, p@) == find_in_targets(ts@.take(i as int), p@),
        decreases i,
    {
        let ghost pre = ts@.take(i as int);
        proof {
            assert(pre.last() == ts@[i - 1]);
            assert(pre.drop_last() =~= ts@.take(i - 1));
        }
        if ts.get(i - 1).matches(p) {
            return Some(i - 1);
        }
        i -= 1;
    }
    proof {
        assert(ts@.take(0) =~= Seq::<Seq<CompV>>::empty());
    }
    None
}

/// Append an optional named dependency to the task at `t`.
fn push_dep(tasks: &mut Vec<PlannedTask>, t: usize, path: FsPath)
    requires
        t < old(tasks)@.len(),
    ensures
        views_of(final(tasks)@) == views_of(old(tasks)@).update(
            t as int,
            PlannedTaskV {
                targets: views_of(old(tasks)@)[t as int].targets,
                consumes: views_of(old(tasks)@)[t as int].consumes,
                depends_on: views_of(old(tasks)@)[t as int].depends_on.push(
                    PrereqSpecV::Named(path@, true),
                ),
                not_before: views_of(old(tasks)@)[t as int].not_before,
                env: views_of(old(tasks)@)[t as int].env,
                recipe: views_of(old(tasks)@)[t as int].recipe,
            },
        ),
{
    let ghost before = views_of(tasks@);
    let mut item = tasks.remove(t);
    item.depends_on.push(PrerequisiteSpec::Named(path, true));
    tasks.insert(t, item);
    proof {
        assert forall|q: int| 0 <= q < views_of(tasks@).len() implies views_of(tasks@)[q]
            == before.update(
            t as int,
            PlannedTaskV {
                targets: before[t as int].targets,
                consumes: before[t as int].consumes,
                depends_on: before[t as int].depends_on.push(
                    PrereqSpecV::Named(path@, true),
                ),
                not_before: before[t as int].not_before,
                env: before[t as int].env,
                recipe: before[t as int].recipe,
            },
        )[q] by {
            assert(views_of(tasks@)[q] == tasks@[q]@);
        }
        assert(views_of(tasks@) =~= before.update(
            t as int,
            PlannedTaskV {
                targets: before[t as int].targets,
                consumes: before[t as int].consumes,
                depends_on: before[t as int].depends_on.push(
                    PrereqSpecV::Named(path@, true),
                ),
                not_before: before[t as int].not_before,
                env: before[t as int].env,
                recipe: before[t as int].recipe,
            },
        ));
    }
}

/// Merge every fragment's pairs into the task list.
#[verifier::loop_isolation(false)]
#[verifier::rlimit(60)]
fn merge_frags_exec(
    tasks: &mut Vec<PlannedTask>,
    luts: &Vec<Targets>,
    context: &FsPath,
    fbases: &Vec<FsPath>,
    texts: &Vec<String>,
) -> (r: Result<(), NewTaskListError>)
    requires
        fbases@.len() == texts@.len(),
        views_of(luts@) == targets_of(views_of(old(tasks)@)),
    ensures
        match r {
            Ok(_) => merge_all(
                views_of(old(tasks)@),
                views_of(luts@),
                context@,
                views_of(fbases@),
                views_of(texts@),
            ) == Ok::<Seq<PlannedTaskV>, GraphErrV>(views_of(final(tasks)@)),
            Err(e) => merge_all(
                views_of(old(tasks)@),
                views_of(luts@),
                context@,
                views_of(fbases@),
                views_of(texts@),
            ) == Err::<Seq<PlannedTaskV>, GraphErrV>(e@),
        },
{
    let ghost allv = views_of(luts@);
    let ghost start = views_of(tasks@);
    let ghost basesv = views_of(fbases@);
    let ghost textsv = views_of(texts@);
    let fnum = fbases.len();
    let mut k: usize = 0;
    proof {
        assert(basesv.skip(0) =~= basesv);
        assert(textsv.skip(0) =~= textsv);
    }
    while k < fnum
        invariant
            k <= fnum,
            fnum == basesv.len(),
            fnum == textsv.len(),
            targets_of(views_of(tasks@)) =~= allv,
            merge_all(start, allv, context@, basesv, textsv) == merge_all(
                views_of(tasks@),
                allv,
                context@,
                basesv.skip(k as int),
                textsv.skip(k as int),
            ),
        decreases fnum - k,
    {
        proof {
            assert(basesv.skip(k as int)[0] == basesv[k as int]);
            assert(basesv.skip(k as int).drop_first() =~= basesv.skip(k + 1));
            assert(textsv.skip(k as int)[0] == textsv[k as int]);
            assert(textsv.skip(k as int).drop_first() =~= textsv.skip(k + 1));
            assert(basesv[k as int] == fbases@[k as int]@);
            assert(textsv[k as int] == texts@[k as int]@);
        }
        let pairs = match crate::make::cake(texts[k].as_str()) {
            Ok(pairs) => pairs,
            Err(e) => {
                return Err(NewTaskListError::MakeParseError(e));
            },
        };
        let relativiser = crate::path::Relativiser::new(fbases[k].duplicate());
        let ghost pairsv = crate::make::pairs_view(pairs@);
        let ghost tasks_at_k = views_of(tasks@);
        let pnum = pairs.len();
        let mut q: usize = 0;
        proof {
            crate::make::lemma_pairs_view_len(pairs@);
            assert(pairsv.skip(0) =~= pairsv);
        }
        while q < pnum
            invariant
                q <= pnum,
                pnum == pairsv.len(),
                pairsv == crate::make::pairs_view(pairs@),
                pnum == pairs@.len(),
                targets_of(views_of(tasks@)) =~= allv,
                relativiser.base_view() == basesv[k as int],
                merge_pairs(
                    views_of(tasks@),
                    allv,
                    context@,
                    basesv[k as int],
                    pairsv.skip(q as int),
                ) == merge_pairs(tasks_at_k, allv, context@, basesv[k as int], pairsv),
                merge_all(start, allv, context@, basesv, textsv) == merge_all(
                    tasks_at_k,
                    allv,
                    context@,
                    basesv.skip(k as int),
                    textsv.skip(k as int),
                ),
            decreases pnum - q,
        {
            proof {
                assert(pairsv.skip(q as int)[0] == pairsv[q as int]);
                assert(pairsv.skip(q as int).drop_first() =~= pairsv.skip(q + 1));
                crate::make::lemma_pairs_view_index(pairs@, q as int);
            }
            let tpath = FsPath::parse(pairs[q].0.as_str());
            let tp = match relativiser.relativise(context, &tpath) {
                Ok(tp) => tp,
                Err(e) => {
                    return Err(NewTaskListError::RelativiseError(e));
                },
            };
            let ppath = FsPath::parse(pairs[q].1.as_str());
            let pp = match relativiser.relativise(context, &ppath) {
                Ok(pp) => pp,
                Err(e) => {
                    return Err(NewTaskListError::RelativiseError(e));
                },
            };
            match find_target_exec(luts, &tp) {
                Some((t, _)) => {
                    if t < tasks.len() {
                        push_dep(tasks, t, pp);
                        proof {
                            assert(targets_of(views_of(tasks@)) =~= allv);
                        }
                    }
                },
                None => {},
            }
            q += 1;
        }
        proof {
            assert(pairsv.skip(pnum as int) =~= Seq::<(Seq<char>, Seq<char>)>::empty());
        }
        k += 1;
    }
    proof {
        assert(basesv.skip(fnum as int) =~= Seq::<Seq<CompV>>::empty());
        assert(textsv.skip(fnum as int) =~= Seq::<Seq<char>>::empty());
    }
    Ok(())
}

/// Resolve one prerequisite: a handle binds to its producing task and that
/// task's concrete target; a named path that some task produces binds to
/// that task; any other named path stays an outside file.
pub open spec fn resolve_one(p: PrereqSpecV, all: Seq<Seq<Seq<CompV>>>) -> Result<
    (PrereqRV, Seq<CompV>),
    GraphErrV,
> {
    match p {
        PrereqSpecV::Handle(h) => if h.task_index < all.len() && h.target_index
            < all[h.task_index as int].len() {
            Ok(
                (
                    PrereqRV::Handle(h.task_index as int),
                    all[h.task_index as int][h.target_index as int],
                ),
            )
        } else {
            Err(GraphErrV::BadHandle)
        },
        PrereqSpecV::Named(path, optional) => match find_target(all, path) {
            Some((t, k)) => Ok((PrereqRV::Handle(t), all[t][k])),
            None => Ok((PrereqRV::Named(path, optional), path)),
        },
    }
}

/// Resolve a prerequisite list, the first error aborting.
pub open spec fn resolve_list(ps: Seq<PrereqSpecV>, all: Seq<Seq<Seq<CompV>>>) -> Result<
    Seq<(PrereqRV, Seq<CompV>)>,
    GraphErrV,
>
    decreases ps.len(),
{
    if ps.len() == 0 {
        Ok(Seq::empty())
    } else {
        match resolve_one(ps[0], all) {
            Err(e) => Err(e),
            Ok(r) => match resolve_list(ps.drop_first(), all) {
                Ok(rs) => Ok(seq![r] + rs),
                Err(e) => Err(e),
            },
        }
    }
}

pub open spec fn firsts(rs: Seq<(PrereqRV, Seq<CompV>)>) -> Seq<PrereqRV> {
    Seq::new(rs.len(), |i: int| rs[i].0)
}

pub open spec fn seconds(rs: Seq<(PrereqRV, Seq<CompV>)>) -> Seq<Seq<CompV>> {
    Seq::new(rs.len(), |i: int| rs[i].1)
}

/// One task's resolved upstream list (consumed, depended-on, then
/// ordering-only prerequisites) and its input paths.
pub open spec fn resolve_task(t: PlannedTaskV, all: Seq<Seq<Seq<CompV>>>) -> Result<
    (Seq<PrereqRV>, Seq<Seq<CompV>>),
    GraphErrV,
> {
    match resolve_list(t.consumes, all) {
        Err(e) => Err(e),
        Ok(cs) => match resolve_list(t.depends_on, all) {
            Err(e) => Err(e),
            Ok(ds) => match resolve_list(t.not_before, all) {
                Err(e) => Err(e),
                Ok(ns) => Ok((firsts(cs) + firsts(ds) + firsts(ns), seconds(cs))),
            },
        },
    }
}

/// Every task resolved, the first error aborting.
pub open spec fn resolve_tasks(tasks: Seq<PlannedTaskV>, all: Seq<Seq<Seq<CompV>>>) -> Result<
    Seq<(Seq<PrereqRV>, Seq<Seq<CompV>>)>,
    GraphErrV,
>
    decreases tasks.len(),
{
    if tasks.len() == 0 {
        Ok(Seq::empty())
    } else {
        match resolve_task(tasks[0], all) {
            Err(e) => Err(e),
            Ok(r) => match resolve_tasks(tasks.drop_first(), all) {
                Ok(rs) => Ok(seq![r] + rs),
                Err(e) => Err(e),
            },
        }
    }
}

pub open spec fn ups_of(rs: Seq<(Seq<PrereqRV>, Seq<Seq<CompV>>)>) -> Seq<Seq<PrereqRV>> {
    Seq::new(rs.len(), |i: int| rs[i].0)
}

/// Whether the task at `i` may be appended: not yet placed, and every
/// upstream handle already placed.
pub open spec fn eligible(upsall: Seq<Seq<PrereqRV>>, order: Seq<int>, i: int) -> bool {
    &&& 0 <= i < upsall.len()
    &&& !order.contains(i)
    &&& forall|k: int|
        0 <= k < upsall[i].len() ==> ((#[trigger] upsall[i][k]) is Handle ==> order.contains(
            upsall[i][k]->Handle_0,
        ))
}

/// The smallest eligible task at or past `i`, if any.
pub open spec fn next_task_from(upsall: Seq<Seq<PrereqRV>>, order: Seq<int>, i: int) -> Option<int>
    decreases upsall.len() - i,
{
    if i < 0 || i >= upsall.len() {
        None
    } else if eligible(upsall, order, i) {
        Some(i)
    } else {
        next_task_from(upsall, order, i + 1)
    }
}

/// The smallest eligible task, if any.
pub open spec fn next_task(upsall: Seq<Seq<PrereqRV>>, order: Seq<int>) -> Option<int> {
    next_task_from(upsall, order, 0)
}

proof fn lemma_next_task_eligible(upsall: Seq<Seq<PrereqRV>>, order: Seq<int>, i0: int)
    requires
        next_task_from(upsall, order, i0) is Some,
    ensures
        eligible(upsall, order, next_task_from(upsall, order, i0)->Some_0),
    decreases upsall.len() - i0,
{
    if i0 < 0 || i0 >= upsall.len() {
    } else if eligible(upsall, order, i0) {
    } else {
        lemma_next_task_eligible(upsall, order, i0 + 1);
    }
}

/// The order built by repeatedly appending the smallest eligible task.
pub open spec fn topo_fuel(upsall: Seq<Seq<PrereqRV>>, order: Seq<int>, fuel: nat) -> Seq<int>
    decreases fuel,
{
    if fuel == 0 {
        order
    } else {
        match next_task(upsall, order) {
            None => order,
            Some(i) => topo_fuel(upsall, order.push(i), (fuel - 1) as nat),
        }
    }
}

/// The emitted order: tasks reached from no-handle leaves, waves of the
/// smallest eligible first; tasks on or behind a circle never become
/// eligible and are left out quietly.
pub open spec fn topo_spec(upsall: Seq<Seq<PrereqRV>>) -> Seq<int> {
    topo_fuel(upsall, Seq::empty(), upsall.len() as nat)
}

/// The position of `u` in `order` (its first occurrence).
pub open spec fn pos_of(order: Seq<int>, u: int) -> int
    decreases order.len(),
{
    if order.len() == 0 {
        -1
    } else if order[0] == u {
        0
    } else {
        1 + pos_of(order.drop_first(), u)
    }
}

proof fn lemma_pos_of(order: Seq<int>, u: int)
    requires
        order.contains(u),
    ensures
        0 <= pos_of(order, u) < order.len(),
        order[pos_of(order, u)] == u,
    decreases order.len(),
{
    if order[0] != u {
        assert(order.drop_first().contains(u)) by {
            let w = choose|w: int| 0 <= w < order.len() && order[w] == u;
            assert(order.drop_first()[w - 1] == u);
        }
        lemma_pos_of(order.drop_first(), u);
    }
}

proof fn lemma_pos_of_prefix(order: Seq<int>, u: int, j: int)
    requires
        0 <= j <= order.len(),
        order.take(j).contains(u),
    ensures
        0 <= pos_of(order, u) < j,
        order[pos_of(order, u)] == u,
    decreases order.len(),
{
    lemma_pos_of(order.take(j), u);
    if order[0] == u {
    } else {
        assert(order.take(j)[0] == order[0]);
        assert(j >= 1);
        assert(order.drop_first().take(j - 1) =~= order.take(j).drop_first());
        assert(order.drop_first().take(j - 1).contains(u)) by {
            let w = choose|w: int| 0 <= w < j && order.take(j)[w] == u;
            assert(order.take(j).drop_first()[w - 1] == u);
        }
        lemma_pos_of_prefix(order.drop_first(), u, j - 1);
        lemma_pos_of(order, u);
    }
}

/// A handle remapped to the producing task's position in the order.
pub open spec fn remap_prereq(p: PrereqRV, order: Seq<int>) -> PrereqRV {
    match p {
        PrereqRV::Handle(u) => PrereqRV::Handle(pos_of(order, u)),
        PrereqRV::Named(path, optional) => PrereqRV::Named(path, optional),
    }
}

pub open spec fn remap_list(ps: Seq<PrereqRV>, order: Seq<int>) -> Seq<PrereqRV> {
    Seq::new(ps.len(), |i: int| remap_prereq(ps[i], order))
}

/// How many upstream entries of `ups` are a handle to `u`, among the first
/// `t` entries.
pub open spec fn h_count_upto(ups: Seq<PrereqRV>, u: int, t: int) -> nat
    decreases t,
{
    if t <= 0 {
        0
    } else {
        h_count_upto(ups, u, t - 1) + (if ups[t - 1] is Handle && ups[t - 1]->Handle_0 == u {
            1nat
        } else {
            0nat
        })
    }
}

pub open spec fn repeat_idx(x: int, c: nat) -> Seq<int> {
    Seq::new(c, |i: int| x)
}

/// The reverse edges of `u`: each consumer task repeated once per handle
/// occurrence, in task order.
pub open spec fn downstream_upto(upsall: Seq<Seq<PrereqRV>>, u: int, s: int) -> Seq<int>
    decreases s,
{
    if s <= 0 {
        Seq::empty()
    } else {
        downstream_upto(upsall, u, s - 1) + repeat_idx(
            s - 1,
            h_count_upto(upsall[s - 1], u, upsall[s - 1].len() as int),
        )
    }
}

pub open spec fn downstream_of(upsall: Seq<Seq<PrereqRV>>, u: int) -> Seq<int> {
    downstream_upto(upsall, u, upsall.len() as int)
}

/// The finished tasks: the ordered subsequence, upstream handles remapped
/// to positions, reverse edges derived on the ordered list.
pub open spec fn build_tasks(
    merged: Seq<PlannedTaskV>,
    resolved: Seq<(Seq<PrereqRV>, Seq<Seq<CompV>>)>,
    order: Seq<int>,
) -> Seq<TaskV> {
    let final_ups = Seq::new(order.len(), |j: int| remap_list(resolved[order[j]].0, order));
    Seq::new(
        order.len(),
        |j: int|
            TaskV {
                targets: merged[order[j]].targets,
                inputs: resolved[order[j]].1,
                upstream: final_ups[j],
                downstream: downstream_of(final_ups, j),
                env: merged[order[j]].env,
                recipe: merged[order[j]].recipe,
            },
    )
}

/// What building the list from a plan and the fragment texts yields.
pub open spec fn build_spec(plan: PlanV, texts: Seq<Seq<char>>) -> Result<Seq<TaskV>, GraphErrV> {
    let bases = Seq::new(plan.frags.len(), |i: int| plan.frags[i].0);
    match merge_all(plan.tasks, targets_of(plan.tasks), plan.context, bases, texts) {
        Err(e) => Err(e),
        Ok(merged) => match resolve_tasks(merged, targets_of(plan.tasks)) {
            Err(e) => Err(e),
            Ok(resolved) => Ok(build_tasks(merged, resolved, topo_spec(ups_of(resolved)))),
        },
    }
}

/// Every upstream handle of every task points at an earlier task, and
/// every reverse edge points into the list.
pub open spec fn list_wf(ts: Seq<TaskV>) -> bool {
    &&& forall|i: int, k: int|
        0 <= i < ts.len() && 0 <= k < ts[i].upstream.len() ==> ((#[trigger] ts[i].upstream[k])
            is Handle ==> 0 <= ts[i].upstream[k]->Handle_0 < i)
    &&& forall|i: int, k: int|
        0 <= i < ts.len() && 0 <= k < ts[i].downstream.len() ==> 0 <= (
        #[trigger] ts[i].downstream[k]) < ts.len()
}

/// The upstream views of a list of upstream vectors.
pub open spec fn upss_view(v: Seq<Vec<Prerequisite>>) -> Seq<Seq<PrereqRV>> {
    Seq::new(v.len(), |i: int| views_of(v[i]@))
}

/// The order as mathematical integers.
pub open spec fn order_view(v: Seq<usize>) -> Seq<int> {
    Seq::new(v.len(), |j: int| v[j] as int)
}

/// Resolve one prerequisite against the target index.
fn resolve_one_exec(p: &PrerequisiteSpec, luts: &Vec<Targets>) -> (r: Result<
    (Prerequisite, FsPath),
    NewTaskListError,
>)
    ensures
        match r {
            Ok(q) => resolve_one(p@, views_of(luts@)) == Ok::<(PrereqRV, Seq<CompV>), GraphErrV>(
                (q.0@, q.1@),
            ),
            Err(e) => resolve_one(p@, views_of(luts@)) == Err::<
                (PrereqRV, Seq<CompV>),
                GraphErrV,
            >(e@),
        },
{
    match p {
        PrerequisiteSpec::Handle(h) => {
            if h.task_index < luts.len() {
                if h.target_index < luts[h.task_index].len() {
                    proof {
                        assert(views_of(luts@)[h.task_index as int] == luts@[h.task_index as int]@);
                    }
                    Ok(
                        (
                            Prerequisite::Handle(TaskHandle { index: h.task_index }),
                            luts[h.task_index].get(h.target_index).duplicate(),
                        ),
                    )
                } else {
                    proof {
                        assert(views_of(luts@)[h.task_index as int] == luts@[h.task_index as int]@);
                    }
                    Err(NewTaskListError::BadHandle)
                }
            } else {
                Err(NewTaskListError::BadHandle)
            }
        },
        PrerequisiteSpec::Named(path, optional) => {
            match find_target_exec(luts, path) {
                Some((t, k)) => {
                    proof {
                        lemma_find_target_bounds(views_of(luts@), path@);
                        assert(views_of(luts@)[t as int] == luts@[t as int]@);
                    }
                    Ok((Prerequisite::Handle(TaskHandle { index: t }), luts[t].get(k).duplicate()))
                },
                None => Ok((Prerequisite::Named(path.duplicate(), *optional), path.duplicate())),
            }
        },
    }
}

proof fn lemma_find_in_targets_bounds(ts: Seq<Seq<CompV>>, p: Seq<CompV>)
    requires
        find_in_targets(ts, p) is Some,
    ensures
        0 <= find_in_targets(ts, p)->Some_0 < ts.len(),
    decreases ts.len(),
{
    if ts.len() > 0 && ts.last() != p {
        lemma_find_in_targets_bounds(ts.drop_last(), p);
    }
}

proof fn lemma_find_target_bounds(all: Seq<Seq<Seq<CompV>>>, p: Seq<CompV>)
    requires
        find_target(all, p) is Some,
    ensures
        0 <= find_target(all, p)->Some_0.0 < all.len(),
        0 <= find_target(all, p)->Some_0.1 < all[find_target(all, p)->Some_0.0].len(),
    decreases all.len(),
{
    if all.len() > 0 {
        if find_in_targets(all.last(), p) is Some {
            lemma_find_in_targets_bounds(all.last(), p);
        } else {
            lemma_find_target_bounds(all.drop_last(), p);
        }
    }
}

/// Resolve a whole prerequisite list.
#[verifier::loop_isolation(false)]
fn resolve_list_exec(ps: &Vec<PrerequisiteSpec>, luts: &Vec<Targets>) -> (r: Result<
    (Vec<Prerequisite>, Vec<FsPath>),
    NewTaskListError,
>)
    ensures
        match r {
            Ok(q) => resolve_list(views_of(ps@), views_of(luts@)) is Ok && views_of(q.0@) == firsts(
                resolve_list(views_of(ps@), views_of(luts@))->Ok_0,
            ) && views_of(q.1@) == seconds(resolve_list(views_of(ps@), views_of(luts@))->Ok_0),
            Err(e) => resolve_list(views_of(ps@), views_of(luts@)) == Err::<
                Seq<(PrereqRV, Seq<CompV>)>,
                GraphErrV,
            >(e@),
        },
{
    let ghost pv = views_of(ps@);
    let ghost allv = views_of(luts@);
    let mut outp: Vec<Prerequisite> = Vec::new();
    let mut outf: Vec<FsPath> = Vec::new();
    let n = ps.len();
    let mut i: usize = 0;
    proof {
        assert(pv.skip(0) =~= pv);
    }
    while i < n
        invariant
            i <= n,
            n == pv.len(),
            outp@.len() == i,
            outf@.len() == i,
            match resolve_list(pv.skip(i as int), allv) {
                Ok(rs) => resolve_list(pv, allv) is Ok && resolve_list(pv, allv)->Ok_0
                    =~= pairs_of(views_of(outp@), views_of(outf@)) + rs,
                Err(e) => resolve_list(pv, allv) == Err::<
                    Seq<(PrereqRV, Seq<CompV>)>,
                    GraphErrV,
                >(e),
            },
        decreases n - i,
    {
        let ghost rest = pv.skip(i as int);
        proof {
            assert(rest[0] == pv[i as int]);
            assert(rest.drop_first() =~= pv.skip(i + 1));
            assert(pv[i as int] == ps@[i as int]@);
        }
        match resolve_one_exec(&ps[i], luts) {
            Ok((pr, fp)) => {
                let ghost prv = pr@;
                let ghost fpv = fp@;
                let ghost p0 = pairs_of(views_of(outp@), views_of(outf@));
                outp.push(pr);
                outf.push(fp);
                proof {
                    assert(pairs_of(views_of(outp@), views_of(outf@)) =~= p0.push((prv, fpv)));
                    if let Ok(rs) = resolve_list(pv.skip(i + 1), allv) {
                        assert(pairs_of(views_of(outp@), views_of(outf@)) + rs =~= p0 + (seq![
                            (prv, fpv),
                        ] + rs));
                    }
                }
            },
            Err(e) => {
                return Err(e);
            },
        }
        i += 1;
    }
    proof {
        assert(pv.skip(n as int) =~= Seq::<PrereqSpecV>::empty());
        assert(pairs_of(views_of(outp@), views_of(outf@)) + Seq::<
            (PrereqRV, Seq<CompV>),
        >::empty() =~= pairs_of(views_of(outp@), views_of(outf@)));
        let rs = resolve_list(pv, allv)->Ok_0;
        assert(views_of(outp@) =~= firsts(rs));
        assert(views_of(outf@) =~= seconds(rs));
    }
    Ok((outp, outf))
}

/// Two equal-length lists read as one list of pairs.
pub open spec fn pairs_of(a: Seq<PrereqRV>, b: Seq<Seq<CompV>>) -> Seq<(PrereqRV, Seq<CompV>)> {
    Seq::new(a.len(), |i: int| (a[i], b[i]))
}

/// Whether the task at `i` may be appended now.
#[verifier::loop_isolation(false)]
fn eligible_exec(
    ups: &Vec<Vec<Prerequisite>>,
    placed: &Vec<bool>,
    i: usize,
    Ghost(order): Ghost<Seq<int>>,
) -> (r: bool)
    requires
        placed@.len() == ups@.len(),
        forall|x: int| 0 <= x < placed@.len() ==> (placed@[x] <==> order.contains(x)),
        forall|j: int| 0 <= j < order.len() ==> 0 <= #[trigger] order[j] < placed@.len(),
        i < ups@.len(),
    ensures
        r == eligible(upss_view(ups@), order, i as int),
{
    let ghost upsall = upss_view(ups@);
    if placed[i] {
        return false;
    }
    let n = ups[i].len();
    let mut k: usize = 0;
    proof {
        assert(upsall[i as int] == views_of(ups@[i as int]@));
    }
    while k < n
        invariant
            k <= n,
            n == upsall[i as int].len(),
            forall|k2: int|
                0 <= k2 < k ==> ((#[trigger] upsall[i as int][k2]) is Handle ==> order.contains(
                    upsall[i as int][k2]->Handle_0,
                )),
        decreases n - k,
    {
        proof {
            assert(upsall[i as int][k as int] == ups@[i as int]@[k as int]@);
        }
        match &ups[i][k] {
            Prerequisite::Handle(h) => {
                if h.index >= placed.len() {
                    proof {
                        if order.contains(h.index as int) {
                            let w = choose|w: int| 0 <= w < order.len() && order[w] == h.index as int;
                        }
                    }
                    return false;
                }
                if !placed[h.index] {
                    return false;
                }
            },
            Prerequisite::Named(_, _) => {},
        }
        k += 1;
    }
    true
}

/// The smallest eligible task at or past `from`, if any.
#[verifier::loop_isolation(false)]
fn next_task_exec(
    ups: &Vec<Vec<Prerequisite>>,
    placed: &Vec<bool>,
    Ghost(order): Ghost<Seq<int>>,
) -> (r: Option<usize>)
    requires
        placed@.len() == ups@.len(),
        forall|x: int| 0 <= x < placed@.len() ==> (placed@[x] <==> order.contains(x)),
        forall|j: int| 0 <= j < order.len() ==> 0 <= #[trigger] order[j] < placed@.len(),
    ensures
        match r {
            Some(i) => i < ups@.len() && next_task(upss_view(ups@), order) == Some(i as int),
            None => next_task(upss_view(ups@), order) is None,
        },
{
    let ghost upsall = upss_view(ups@);
    let n = ups.len();
    let mut i: usize = 0;
    while i < n
        invariant
            i <= n,
            n == upsall.len(),
            next_task(upsall, order) == next_task_from(upsall, order, i as int),
        decreases n - i,
    {
        if eligible_exec(ups, placed, i, Ghost(order)) {
            return Some(i);
        }
        i += 1;
    }
    None
}

/// The order: repeatedly append the smallest eligible task.
#[verifier::loop_isolation(false)]
fn topo_exec(ups: &Vec<Vec<Prerequisite>>) -> (r: Vec<usize>)
    ensures
        r@.len() <= ups@.len(),
        order_view(r@) == topo_spec(upss_view(ups@)),
        forall|j: int| 0 <= j < r@.len() ==> (#[trigger] r@[j]) < ups@.len(),
        forall|j: int|
            0 <= j < r@.len() ==> eligible(upss_view(ups@), order_view(r@).take(j), r@[j] as int),
        next_task(upss_view(ups@), order_view(r@)) is None,
        order_view(r@).no_duplicates(),
{
    let ghost upsall = upss_view(ups@);
    let n = ups.len();
    let mut placed: Vec<bool> = Vec::new();
    let mut i: usize = 0;
    while i < n
        invariant
            i <= n,
            placed@.len() == i,
            forall|x: int| 0 <= x < i ==> !placed@[x],
        decreases n - i,
    {
        placed.push(false);
        i += 1;
    }
    let mut order: Vec<usize> = Vec::new();
    let ghost fuel0: nat = n as nat;
    let mut spent: usize = 0;
    proof {
        assert(order_view(order@) =~= Seq::<int>::empty());
    }
    loop
        invariant
            placed@.len() == n,
            n == upsall.len(),
            n == ups@.len(),
            upsall == upss_view(ups@),
            order@.len() == spent <= n,
            forall|x: int| 0 <= x < n ==> (placed@[x] <==> order_view(order@).contains(x)),
            forall|j: int| 0 <= j < order@.len() ==> (#[trigger] order@[j]) < n,
            forall|j: int|
                0 <= j < order@.len() ==> eligible(
                    upsall,
                    order_view(order@).take(j),
                    order@[j] as int,
                ),
            topo_spec(upsall) == topo_fuel(upsall, order_view(order@), (n - spent) as nat),
        decreases n - spent,
    {
        let ghost order_int = order_view(order@);
        match next_task_exec(ups, &placed, Ghost(order_int)) {
            Some(i2) => {
                proof {
                    lemma_next_task_eligible(upsall, order_int, 0);
                    assert(eligible(upsall, order_int, i2 as int));
                    assert(!order_int.contains(i2 as int));
                    if spent >= n {
                        // A full order already holds every task, so nothing
                        // is left to be eligible.
                        lemma_distinct_order(order_int, upsall, n as int);
                    }
                }
                let ghost old_order = order_int;
                order.push(i2);
                placed.set(i2, true);
                spent += 1;
                proof {
                    let new_order = order_view(order@);
                    assert(new_order =~= old_order.push(i2 as int));
                    assert forall|x: int| 0 <= x < n implies (placed@[x] <==> new_order.contains(
                        x,
                    )) by {
                        if x == i2 as int {
                            assert(new_order[new_order.len() - 1] == x);
                        } else {
                            if new_order.contains(x) {
                                let w = choose|w: int|
                                    0 <= w < new_order.len() && new_order[w] == x;
                                assert(old_order[w] == x);
                            }
                            if old_order.contains(x) {
                                let w = choose|w: int|
                                    0 <= w < old_order.len() && old_order[w] == x;
                                assert(new_order[w] == x);
                            }
                        }
                    }
                    assert forall|j: int| 0 <= j < new_order.len() implies eligible(
                        upsall,
                        new_order.take(j),
                        new_order[j],
                    ) by {
                        if j < old_order.len() {
                            assert(new_order.take(j) =~= old_order.take(j));
                            assert(new_order[j] == old_order[j]);
                            assert(eligible(upsall, old_order.take(j), old_order[j]));
                        } else {
                            assert(new_order.take(j) =~= old_order);
                            assert(new_order[j] == i2 as int);
                        }
                    }
                    assert(forall|j: int|
                        0 <= j < order@.len() ==> eligible(
                            upsall,
                            order_view(order@).take(j),
                            #[trigger] order_view(order@)[j],
                        ));
                    assert(forall|j: int|
                        0 <= j < order@.len() ==> order_view(order@)[j] == order@[j] as int);
                }
            },
            None => {
                proof {
                    let ov = order_view(order@);
                    assert(ov.no_duplicates()) by {
                        assert forall|a: int, b: int| 0 <= a < b < ov.len() implies ov[a] != ov[b] by {
                            assert(eligible(upsall, ov.take(b), order@[b] as int));
                            if ov[a] == ov[b] {
                                assert(ov.take(b)[a] == ov[a]);
                                assert(ov.take(b).contains(ov[b]));
                            }
                        }
                    }
                }
                return order;
            },
        }
    }
}

/// An order of distinct tasks below `n` cannot hold more than `n` entries.
proof fn lemma_distinct_order(order: Seq<int>, upsall: Seq<Seq<PrereqRV>>, n: int)
    requires
        n >= 0,
        n == upsall.len(),
        order.len() >= n,
        forall|j: int| 0 <= j < order.len() ==> 0 <= #[trigger] order[j] < n,
        forall|j: int| 0 <= j < order.len() ==> eligible(upsall, order.take(j), order[j]),
        next_task(upsall, order) is Some,
        eligible(upsall, order, next_task(upsall, order)->Some_0),
    ensures
        order.contains(next_task(upsall, order)->Some_0),
{
    broadcast use vstd::seq_lib::seq_to_set_is_finite;
    broadcast use vstd::set::group_set_axioms;
    broadcast use vstd::set::axiom_set_insert_len;

    // The order has no duplicates: each entry was not yet contained when
    // it was appended.
    assert(order.no_duplicates()) by {
        assert forall|a: int, b: int| 0 <= a < b < order.len() implies order[a] != order[b] by {
            assert(eligible(upsall, order.take(b), order[b]));
            if order[a] == order[b] {
                assert(order.take(b)[a] == order[a]);
                assert(order.take(b).contains(order[b]));
            }
        }
    }
    order.unique_seq_to_set();
    let range = vstd::set_lib::set_int_range(0, n);
    vstd::set_lib::lemma_int_range(0, n);
    assert(order.to_set().subset_of(range)) by {
        assert forall|x: int| order.to_set().contains(x) implies range.contains(x) by {
            assert(order.contains(x));
        }
    }
    vstd::set_lib::lemma_len_subset(order.to_set(), range);
    // So every task below `n` occurs, and nothing is left unplaced.
    let i = next_task(upsall, order)->Some_0;
    assert(order.len() == n);
    assert(order.to_set().len() == n);
    assert(range.subset_of(order.to_set())) by {
        if exists|x: int| range.contains(x) && !order.to_set().contains(x) {
            let x = choose|x: int| range.contains(x) && !order.to_set().contains(x);
            assert(order.to_set().insert(x).subset_of(range));
            vstd::set_lib::lemma_len_subset(order.to_set().insert(x), range);
            assert(order.to_set().insert(x).len() == n + 1);
        }
    }
    assert(0 <= i < n);
    assert(range.contains(i));
    assert(order.to_set().contains(i));
    assert(order.contains(i));
}

proof fn lemma_pos_of_unique(order: Seq<int>, p: int)
    requires
        order.no_duplicates(),
        0 <= p < order.len(),
    ensures
        pos_of(order, order[p]) == p,
    decreases order.len(),
{
    if p > 0 {
        assert(order[0] != order[p]);
        assert(order.drop_first()[p - 1] == order[p]);
        assert(order.drop_first().no_duplicates()) by {
            assert(forall|a: int|
                0 <= a < order.drop_first().len() ==> #[trigger] order.drop_first()[a] == order[a
                    + 1]);
        }
        lemma_pos_of_unique(order.drop_first(), p - 1);
    }
}

/// The handle indices of a handle list.
pub open spec fn handles_view(v: Seq<TaskHandle>) -> Seq<int> {
    Seq::new(v.len(), |i: int| v[i].index as int)
}

/// The reverse edges of `u` over the final upstream lists.
#[verifier::loop_isolation(false)]
fn downstream_for(ups: &Vec<Vec<Prerequisite>>, u: usize) -> (r: Vec<TaskHandle>)
    ensures
        handles_view(r@) == downstream_of(upss_view(ups@), u as int),
{
    let ghost upsall = upss_view(ups@);
    let mut out: Vec<TaskHandle> = Vec::new();
    let n = ups.len();
    let mut s: usize = 0;
    proof {
        assert(handles_view(out@) =~= Seq::<int>::empty());
    }
    while s < n
        invariant
            s <= n,
            n == upsall.len(),
            upsall == upss_view(ups@),
            handles_view(out@) == downstream_upto(upsall, u as int, s as int),
        decreases n - s,
    {
        let m = ups[s].len();
        let mut k: usize = 0;
        proof {
            assert(upsall[s as int] == views_of(ups@[s as int]@));
            assert(repeat_idx(s as int, h_count_upto(upsall[s as int], u as int, 0)) =~= Seq::<
                int,
            >::empty());
            assert(handles_view(out@) + Seq::<int>::empty() =~= handles_view(out@));
        }
        while k < m
            invariant
                k <= m,
                s < n,
                m == upsall[s as int].len(),
                handles_view(out@) == downstream_upto(upsall, u as int, s as int) + repeat_idx(
                    s as int,
                    h_count_upto(upsall[s as int], u as int, k as int),
                ),
            decreases m - k,
        {
            proof {
                assert(upsall[s as int][k as int] == ups@[s as int]@[k as int]@);
            }
            let push_it: bool = match &ups[s][k] {
                Prerequisite::Handle(h) => h.index == u,
                Prerequisite::Named(_, _) => false,
            };
            if push_it {
                let ghost h0 = handles_view(out@);
                out.push(TaskHandle { index: s });
                proof {
                    assert(handles_view(out@) =~= h0.push(s as int));
                    assert(repeat_idx(
                        s as int,
                        h_count_upto(upsall[s as int], u as int, k + 1),
                    ) =~= repeat_idx(s as int, h_count_upto(upsall[s as int], u as int, k as int)).push(
                        s as int,
                    ));
                    assert(handles_view(out@) =~= downstream_upto(upsall, u as int, s as int)
                        + repeat_idx(s as int, h_count_upto(upsall[s as int], u as int, k + 1)));
                }
            }
            k += 1;
        }
        s += 1;
    }
    out
}

/// Append every element of `more` to `out`.
fn append_prereqs(out: &mut Vec<Prerequisite>, more: Vec<Prerequisite>)
    ensures
        views_of(final(out)@) == views_of(old(out)@) + views_of(more@),
{
    broadcast use group_views_of;

    let mut more = more;
    let ghost morev = views_of(more@);
    let n = more.len();
    let mut i: usize = 0;
    proof {
        assert(morev.skip(0) =~= morev);
        assert(views_of(out@) + morev.take(0) =~= views_of(out@));
    }
    while i < n
        invariant
            i <= n,
            n == morev.len(),
            more@.len() == n - i,
            views_of(more@) =~= morev.skip(i as int),
            views_of(out@) =~= views_of(old(out)@) + morev.take(i as int),
        decreases n - i,
    {
        proof {
            assert(morev.skip(i as int)[0] == morev[i as int]);
            assert(morev.skip(i as int).drop_first() =~= morev.skip(i + 1));
            assert(morev[i as int] == more@[0]@);
        }
        let e = more.remove(0);
        proof {
            assert(views_of(more@) =~= morev.skip(i + 1));
        }
        out.push(e);
        proof {
            assert(views_of(out@) =~= views_of(old(out)@) + morev.take(i + 1));
        }
        i += 1;
    }
    proof {
        assert(morev.take(n as int) =~= morev);
    }
}

/// The per-task resolved pairs two vectors stand for.
pub open spec fn resolved_zip(ups: Seq<Vec<Prerequisite>>, ins: Seq<Vec<FsPath>>) -> Seq<
    (Seq<PrereqRV>, Seq<Seq<CompV>>),
> {
    Seq::new(ups.len(), |q: int| (views_of(ups[q]@), views_of(ins[q]@)))
}

/// Duplicate a path list.
fn duplicate_paths(ps: &Vec<FsPath>) -> (r: Vec<FsPath>)
    ensures
        views_of(r@) == views_of(ps@),
{
    let mut out: Vec<FsPath> = Vec::new();
    let n = ps.len();
    let mut i: usize = 0;
    while i < n
        invariant
            i <= n,
            n == ps@.len(),
            views_of(out@) =~= views_of(ps@).take(i as int),
        decreases n - i,
    {
        out.push(ps[i].duplicate());
        proof {
            assert(views_of(out@) =~= views_of(ps@).take(i + 1));
        }
        i += 1;
    }
    proof {
        assert(views_of(ps@).take(n as int) =~= views_of(ps@));
    }
    out
}

/// Remap one task's upstream handles to positions in the order.
#[verifier::loop_isolation(false)]
fn remap_ups(
    ps: &Vec<Prerequisite>,
    pos: &Vec<usize>,
    placed: &Vec<bool>,
    Ghost(order): Ghost<Seq<int>>,
) -> (r: Vec<Prerequisite>)
    requires
        pos@.len() == placed@.len(),
        forall|x: int|
            0 <= x < placed@.len() ==> (placed@[x] ==> pos@[x] as int == pos_of(order, x)),
        forall|x: int| 0 <= x < placed@.len() ==> (placed@[x] <==> order.contains(x)),
        forall|k: int|
            0 <= k < ps@.len() ==> ((#[trigger] views_of(ps@)[k]) is Handle ==> 0 <= views_of(
                ps@,
            )[k]->Handle_0 < placed@.len() && order.contains(views_of(ps@)[k]->Handle_0)),
    ensures
        views_of(r@) == remap_list(views_of(ps@), order),
{
    let ghost pv = views_of(ps@);
    let mut out: Vec<Prerequisite> = Vec::new();
    let n = ps.len();
    let mut i: usize = 0;
    while i < n
        invariant
            i <= n,
            n == pv.len(),
            views_of(out@).len() == i,
            forall|q: int| 0 <= q < i ==> views_of(out@)[q] == remap_list(pv, order)[q],
        decreases n - i,
    {
        proof {
            assert(pv[i as int] == ps@[i as int]@);
        }
        let next: Prerequisite = match &ps[i] {
            Prerequisite::Named(p, optional) => Prerequisite::Named(p.duplicate(), *optional),
            Prerequisite::Handle(h) => {
                proof {
                    assert(pv[i as int] is Handle);
                    assert(pv[i as int]->Handle_0 == h.index as int);
                }
                Prerequisite::Handle(TaskHandle { index: pos[h.index] })
            },
        };
        proof {
            assert(next@ == remap_prereq(pv[i as int], order));
        }
        out.push(next);
        i += 1;
    }
    proof {
        assert(views_of(out@) =~= remap_list(pv, order));
    }
    out
}

impl TaskList {
    /// Finish the graph: merge the fragment texts, bind every prerequisite,
    /// derive the reverse edges, and order the tasks so that every producer
    /// comes before its consumers.  `texts` holds the contents of the files
    /// the plan asked for, in the same order.
    #[verifier::loop_isolation(false)]
    #[verifier::rlimit(60)]
    pub fn new(plan: Plan, texts: Vec<String>) -> (r: Result<TaskList, NewTaskListError>)
        requires
            plan.wf(),
            plan.view_spec().frags.len() == texts@.len(),
        ensures
            match r {
                Ok(list) => build_spec(plan.view_spec(), views_of(texts@)) == Ok::<
                    Seq<TaskV>,
                    GraphErrV,
                >(list@) && list_wf(list@),
                Err(e) => build_spec(plan.view_spec(), views_of(texts@)) == Err::<
                    Seq<TaskV>,
                    GraphErrV,
                >(e@),
            },
    {
        let ghost planv = plan.view_spec();
        let Plan { context, tasks, frag_bases, frag_paths: _ } = plan;
        let mut tasks = tasks;
        let ghost basesv = Seq::new(planv.frags.len(), |i: int| planv.frags[i].0);
        proof {
            assert(basesv =~= views_of(frag_bases@));
        }

        // The target index the lookups go through.
        let mut luts: Vec<Targets> = Vec::new();
        let n = tasks.len();
        let mut i: usize = 0;
        proof {
            assert(views_of(luts@) =~= targets_of(views_of(tasks@)).take(0));
        }
        while i < n
            invariant
                i <= n,
                n == tasks@.len(),
                views_of(luts@) =~= targets_of(views_of(tasks@)).take(i as int),
            decreases n - i,
        {
            proof {
                assert(targets_of(views_of(tasks@))[i as int] == views_of(tasks@)[i as int].targets);
                assert(views_of(tasks@)[i as int] == tasks@[i as int]@);
            }
            luts.push(tasks[i].targets.duplicate());
            proof {
                assert(views_of(luts@) =~= targets_of(views_of(tasks@)).take(i + 1));
            }
            i += 1;
        }
        proof {
            assert(targets_of(views_of(tasks@)).take(n as int) =~= targets_of(views_of(tasks@)));
        }
        let ghost allv = views_of(luts@);

        // Merge the fragment texts.
        match merge_frags_exec(&mut tasks, &luts, &context, &frag_bases, &texts) {
            Ok(_) => {},
            Err(e) => {
                return Err(e);
            },
        }
        let ghost mergedv = views_of(tasks@);
        proof {
            lemma_merge_all_len(planv.tasks, allv, context@, basesv, views_of(texts@));
            assert(mergedv.len() == n);
        }

        // Bind every prerequisite.
        let mut upstreams: Vec<Vec<Prerequisite>> = Vec::new();
        let mut inputs_v: Vec<Vec<FsPath>> = Vec::new();
        let mut i2: usize = 0;
        proof {
            assert(mergedv.skip(0) =~= mergedv);
            assert(resolved_zip(upstreams@, inputs_v@) =~= Seq::<
                (Seq<PrereqRV>, Seq<Seq<CompV>>),
            >::empty());
        }
        while i2 < n
            invariant
                i2 <= n,
                n == mergedv.len(),
                n == tasks@.len(),
                mergedv == views_of(tasks@),
                upstreams@.len() == i2,
                inputs_v@.len() == i2,
                match resolve_tasks(mergedv.skip(i2 as int), allv) {
                    Ok(rs) => resolve_tasks(mergedv, allv) is Ok && resolve_tasks(mergedv, allv)->Ok_0
                        =~= resolved_zip(upstreams@, inputs_v@) + rs,
                    Err(e) => resolve_tasks(mergedv, allv) == Err::<
                        Seq<(Seq<PrereqRV>, Seq<Seq<CompV>>)>,
                        GraphErrV,
                    >(e),
                },
            decreases n - i2,
        {
            let ghost rest = mergedv.skip(i2 as int);
            proof {
                assert(rest[0] == mergedv[i2 as int]);
                assert(rest.drop_first() =~= mergedv.skip(i2 + 1));
                assert(mergedv[i2 as int] == tasks@[i2 as int]@);
            }
            let (mut ups, ins) = match resolve_list_exec(&tasks[i2].consumes, &luts) {
                Ok(q) => q,
                Err(e) => {
                    return Err(e);
                },
            };
            let (dsp, _dsf) = match resolve_list_exec(&tasks[i2].depends_on, &luts) {
                Ok(q) => q,
                Err(e) => {
                    return Err(e);
                },
            };
            let (nsp, _nsf) = match resolve_list_exec(&tasks[i2].not_before, &luts) {
                Ok(q) => q,
                Err(e) => {
                    return Err(e);
                },
            };
            append_prereqs(&mut ups, dsp);
            append_prereqs(&mut ups, nsp);
            let ghost z0 = resolved_zip(upstreams@, inputs_v@);
            let ghost upsv = views_of(ups@);
            let ghost insv = views_of(ins@);
            upstreams.push(ups);
            inputs_v.push(ins);
            proof {
                assert(resolve_task(mergedv[i2 as int], allv) == Ok::<
                    (Seq<PrereqRV>, Seq<Seq<CompV>>),
                    GraphErrV,
                >((upsv, insv)));
                assert(resolved_zip(upstreams@, inputs_v@) =~= z0.push((upsv, insv)));
                if let Ok(rs) = resolve_tasks(mergedv.skip(i2 + 1), allv) {
                    assert(z0.push((upsv, insv)) + rs =~= z0 + (seq![(upsv, insv)] + rs));
                }
            }
            i2 += 1;
        }
        proof {
            assert(mergedv.skip(n as int) =~= Seq::<PlannedTaskV>::empty());
            assert(resolved_zip(upstreams@, inputs_v@) + Seq::<
                (Seq<PrereqRV>, Seq<Seq<CompV>>),
            >::empty() =~= resolved_zip(upstreams@, inputs_v@));
        }
        let ghost resolvedv = resolve_tasks(mergedv, allv)->Ok_0;
        let ghost upsallv = upss_view(upstreams@);
        proof {
            assert(upsallv =~= ups_of(resolvedv));
        }

        // Order the tasks.
        let order = topo_exec(&upstreams);
        let ghost orderv = order_view(order@);

        // Positions in the order.
        let mut pos: Vec<usize> = Vec::new();
        let mut placed: Vec<bool> = Vec::new();
        let mut i3: usize = 0;
        while i3 < n
            invariant
                i3 <= n,
                pos@.len() == i3,
                placed@.len() == i3,
                forall|x: int| 0 <= x < i3 ==> !placed@[x],
            decreases n - i3,
        {
            pos.push(0);
            placed.push(false);
            i3 += 1;
        }
        let on = order.len();
        let mut j: usize = 0;
        while j < on
            invariant
                j <= on,
                on == order@.len(),
                orderv == order_view(order@),
                pos@.len() == n,
                placed@.len() == n,
                forall|k: int| 0 <= k < on ==> (#[trigger] order@[k]) < n,
                orderv.no_duplicates(),
                forall|x: int| 0 <= x < n ==> (placed@[x] <==> orderv.take(j as int).contains(x)),
                forall|x: int|
                    0 <= x < n ==> (placed@[x] ==> pos@[x] as int == pos_of(orderv, x)),
            decreases on - j,
        {
            let t = order[j];
            pos.set(t, j);
            placed.set(t, true);
            proof {
                lemma_pos_of_unique(orderv, j as int);
                assert forall|x: int| 0 <= x < n implies (placed@[x] <==> orderv.take(
                    j + 1,
                ).contains(x)) by {
                    if x == t as int {
                        assert(orderv.take(j + 1)[j as int] == x);
                    } else {
                        if orderv.take(j + 1).contains(x) {
                            let w = choose|w: int|
                                0 <= w < j + 1 && #[trigger] orderv.take(j + 1)[w] == x;
                            assert(orderv.take(j as int)[w] == x);
                        }
                        if orderv.take(j as int).contains(x) {
                            let w = choose|w: int|
                                0 <= w < j && #[trigger] orderv.take(j as int)[w] == x;
                            assert(orderv.take(j + 1)[w] == x);
                        }
                    }
                }
            }
            j += 1;
        }
        proof {
            assert(orderv.take(on as int) =~= orderv);
        }

        // Remapped upstream lists of the ordered tasks.
        let mut final_ups: Vec<Vec<Prerequisite>> = Vec::new();
        let mut j2: usize = 0;
        let ghost spec_final_ups = Seq::new(
            orderv.len(),
            |q: int| remap_list(resolvedv[orderv[q]].0, orderv),
        );
        while j2 < on
            invariant
                j2 <= on,
                on == order@.len(),
                orderv == order_view(order@),
                upstreams@.len() == n,
                upsallv == upss_view(upstreams@),
                pos@.len() == n,
                placed@.len() == n,
                forall|x: int| 0 <= x < n ==> (placed@[x] <==> orderv.contains(x)),
                forall|x: int|
                    0 <= x < n ==> (placed@[x] ==> pos@[x] as int == pos_of(orderv, x)),
                final_ups@.len() == j2,
                forall|q: int|
                    0 <= q < j2 ==> views_of(#[trigger] final_ups@[q]@) == spec_final_ups[q],
            decreases on - j2,
        {
            let t = order[j2];
            proof {
                assert(eligible(upsallv, orderv.take(j2 as int), orderv[j2 as int]));
                assert(upsallv[t as int] == views_of(upstreams@[t as int]@));
                assert forall|k: int|
                    0 <= k < upstreams@[t as int]@.len() implies ((#[trigger] views_of(
                    upstreams@[t as int]@,
                )[k]) is Handle ==> 0 <= views_of(upstreams@[t as int]@)[k]->Handle_0 < n && orderv.contains(
                    views_of(upstreams@[t as int]@)[k]->Handle_0,
                )) by {
                    if views_of(upstreams@[t as int]@)[k] is Handle {
                        let u = views_of(upstreams@[t as int]@)[k]->Handle_0;
                        assert(orderv.take(j2 as int).contains(u));
                        let w = choose|w: int|
                            0 <= w < j2 && orderv.take(j2 as int)[w] == u;
                        assert(orderv[w] == u);
                        assert(0 <= u < n);
                    }
                }
                assert(resolvedv[t as int].0 == views_of(upstreams@[t as int]@));
            }
            let remapped = remap_ups(&upstreams[t], &pos, &placed, Ghost(orderv));
            final_ups.push(remapped);
            proof {
                assert(views_of(final_ups@[j2 as int]@) == spec_final_ups[j2 as int]);
            }
            j2 += 1;
        }
        let ghost fupsv = upss_view(final_ups@);
        proof {
            assert(fupsv =~= spec_final_ups);
        }

        // Assemble the ordered tasks.
        let mut out: Vec<Task> = Vec::new();
        let mut j3: usize = 0;
        let ghost built = build_tasks(mergedv, resolvedv, orderv);
        while j3 < on
            invariant
                j3 <= on,
                on == order@.len(),
                orderv == order_view(order@),
                tasks@.len() == n,
                mergedv == views_of(tasks@),
                inputs_v@.len() == n,
                final_ups@.len() == on,
                fupsv == upss_view(final_ups@),
                fupsv == spec_final_ups,
                forall|k: int| 0 <= k < on ==> (#[trigger] order@[k]) < n,
                built == build_tasks(mergedv, resolvedv, orderv),
                views_of(out@).len() == j3,
                forall|q: int| 0 <= q < j3 ==> views_of(out@)[q] == built[q],
                forall|q: int| 0 <= q < n ==> resolvedv[q].1 == views_of(#[trigger] inputs_v@[q]@),
            decreases on - j3,
        {
            let t = order[j3];
            let ghost tv = built[j3 as int];
            let downstream = downstream_for(&final_ups, j3);
            let task = Task {
                targets: tasks[t].targets.duplicate(),
                inputs: duplicate_paths(&inputs_v[t]),
                upstream: duplicate_prereqs_r(&final_ups[j3]),
                downstream,
                env: crate::env::duplicate_env(&tasks[t].env),
                recipe: tasks[t].recipe.duplicate(),
            };
            proof {
                assert(mergedv[t as int] == tasks@[t as int]@);
                assert(task@.targets == tv.targets);
                assert(task@.inputs == tv.inputs);
                assert(task@.upstream =~= tv.upstream) by {
                    assert(views_of(final_ups@[j3 as int]@) == fupsv[j3 as int]);
                }
                assert(task@.downstream =~= tv.downstream);
                assert(task@.env == tv.env);
                assert(task@.recipe == tv.recipe);
                assert(task@ == tv);
            }
            out.push(task);
            j3 += 1;
        }
        let list = TaskList { tasks: out };
        proof {
            assert(list@ =~= built);
            lemma_built_wf(mergedv, resolvedv, orderv, upsallv);
        }
        Ok(list)
    }
}

/// Duplicate a resolved prerequisite list.
fn duplicate_prereqs_r(ps: &Vec<Prerequisite>) -> (r: Vec<Prerequisite>)
    ensures
        views_of(r@) == views_of(ps@),
{
    let mut out: Vec<Prerequisite> = Vec::new();
    let n = ps.len();
    let mut i: usize = 0;
    while i < n
        invariant
            i <= n,
            n == ps@.len(),
            views_of(out@) =~= views_of(ps@).take(i as int),
        decreases n - i,
    {
        let next = match &ps[i] {
            Prerequisite::Named(p, optional) => Prerequisite::Named(p.duplicate(), *optional),
            Prerequisite::Handle(h) => Prerequisite::Handle(*h),
        };
        out.push(next);
        proof {
            assert(views_of(out@) =~= views_of(ps@).take(i + 1));
        }
        i += 1;
    }
    proof {
        assert(views_of(ps@).take(n as int) =~= views_of(ps@));
    }
    out
}

/// Every element of a reverse-edge list lies below `s`.
proof fn lemma_downstream_upto_bounds(upsall: Seq<Seq<PrereqRV>>, u: int, s: int)
    ensures
        forall|k: int|
            0 <= k < downstream_upto(upsall, u, s).len() ==> 0 <= #[trigger] downstream_upto(
                upsall,
                u,
                s,
            )[k] < s,
    decreases s,
{
    if s > 0 {
        lemma_downstream_upto_bounds(upsall, u, s - 1);
        let a = downstream_upto(upsall, u, s - 1);
        let b = repeat_idx(s - 1, h_count_upto(upsall[s - 1], u, upsall[s - 1].len() as int));
        assert forall|k: int| 0 <= k < (a + b).len() implies 0 <= #[trigger] (a + b)[k] < s by {
            if k < a.len() {
                assert((a + b)[k] == a[k]);
            } else {
                assert((a + b)[k] == b[k - a.len()]);
            }
        }
    }
}

proof fn lemma_merge_pairs_len(
    tasks: Seq<PlannedTaskV>,
    all: Seq<Seq<Seq<CompV>>>,
    context: Seq<CompV>,
    base: Seq<CompV>,
    pairs: Seq<(Seq<char>, Seq<char>)>,
)
    requires
        merge_pairs(tasks, all, context, base, pairs) is Ok,
    ensures
        merge_pairs(tasks, all, context, base, pairs)->Ok_0.len() == tasks.len(),
    decreases pairs.len(),
{
    if pairs.len() > 0 {
        let t2 = merge_pair(tasks, all, context, base, pairs[0])->Ok_0;
        lemma_merge_pairs_len(t2, all, context, base, pairs.drop_first());
    }
}

proof fn lemma_merge_all_len(
    tasks: Seq<PlannedTaskV>,
    all: Seq<Seq<Seq<CompV>>>,
    context: Seq<CompV>,
    bases: Seq<Seq<CompV>>,
    texts: Seq<Seq<char>>,
)
    requires
        merge_all(tasks, all, context, bases, texts) is Ok,
    ensures
        merge_all(tasks, all, context, bases, texts)->Ok_0.len() == tasks.len(),
    decreases bases.len(),
{
    if bases.len() > 0 {
        let pairs = crate::make::rules_pairs(crate::make::parse_rules(texts[0]));
        let t2 = merge_pairs(tasks, all, context, bases[0], pairs)->Ok_0;
        lemma_merge_pairs_len(tasks, all, context, bases[0], pairs);
        lemma_merge_all_len(t2, all, context, bases.drop_first(), texts.drop_first());
    }
}

/// The finished list is well formed: the topological order makes every
/// upstream handle point backwards, and reverse edges stay in range.
proof fn lemma_built_wf(
    merged: Seq<PlannedTaskV>,
    resolved: Seq<(Seq<PrereqRV>, Seq<Seq<CompV>>)>,
    order: Seq<int>,
    upsall: Seq<Seq<PrereqRV>>,
)
    requires
        upsall == ups_of(resolved),
        forall|j: int| 0 <= j < order.len() ==> 0 <= #[trigger] order[j] < resolved.len(),
        forall|j: int|
            0 <= j < order.len() ==> eligible(upsall, order.take(j), order[j]),
        order.no_duplicates(),
    ensures
        list_wf(build_tasks(merged, resolved, order)),
{
    let ts = build_tasks(merged, resolved, order);
    let final_ups = Seq::new(order.len(), |j: int| remap_list(resolved[order[j]].0, order));
    assert forall|i: int, k: int|
        0 <= i < ts.len() && 0 <= k < ts[i].upstream.len() implies ((#[trigger] ts[i].upstream[k])
        is Handle ==> 0 <= ts[i].upstream[k]->Handle_0 < i) by {
        if ts[i].upstream[k] is Handle {
            assert(ts[i].upstream == remap_list(resolved[order[i]].0, order));
            let p = resolved[order[i]].0[k];
            assert(eligible(upsall, order.take(i), order[i]));
            assert(upsall[order[i]] == resolved[order[i]].0);
            assert(p is Handle);
            let u = p->Handle_0;
            assert(order.take(i).contains(u));
            lemma_pos_of_prefix(order, u, i);
        }
    }
    assert forall|i: int, k: int|
        0 <= i < ts.len() && 0 <= k < ts[i].downstream.len() implies 0 <= (
    #[trigger] ts[i].downstream[k]) < ts.len() by {
        assert(ts[i].downstream == downstream_of(final_ups, i));
        lemma_downstream_upto_bounds(final_ups, i, final_ups.len() as int);
    }
}

} // verus!
