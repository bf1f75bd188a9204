//! Staleness: walk the ordered task list, fold modification times upward,
//! and emit the tasks whose targets are missing or older than what they
//! depend on, in order.

use vstd::prelude::*;

use crate::graph::{PrereqRV, TaskHandle, TaskList, TaskV};
use crate::path::{CompV, FsPath};
use crate::views::{group_views_of, views_of};

verus! {

broadcast use group_views_of;

/// What the file system says about one path.
#[derive(Clone, Copy, Debug, PartialEq, Eq, Structural)]
pub enum FileStat {
    /// The file exists; its last modification time.
    Present(u64),
    /// The file does not exist.
    Absent,
    /// The file exists but offers no modification time.
    NoModTime,
    /// The file could not be examined at all.
    Inaccessible,
}

/// One observed path.
pub struct StatEntry {
    pub path: FsPath,
    pub stat: FileStat,
}

/// The mathematical value of a `StatEntry`.
pub struct StatEntryV {
    pub path: Seq<CompV>,
    pub stat: FileStat,
}

impl View for StatEntry {
    type V = StatEntryV;

    open spec fn view(&self) -> StatEntryV {
        StatEntryV { path: self.path@, stat: self.stat }
    }
}

/// A snapshot of everything the evaluation may look at.  Paths not listed
/// count as absent.
pub struct StatView {
    entries: Vec<StatEntry>,
}

impl View for StatView {
    type V = Seq<StatEntryV>;

    closed spec fn view(&self) -> Seq<StatEntryV> {
        views_of(self.entries@)
    }
}

/// What the snapshot says about `p`: the first matching entry, or absent.
pub open spec fn stat_of(fs: Seq<StatEntryV>, p: Seq<CompV>) -> FileStat
    decreases fs.len(),
{
    if fs.len() == 0 {
        FileStat::Absent
    } else if fs[0].path == p {
        fs[0].stat
    } else {
        stat_of(fs.drop_first(), p)
    }
}

impl StatView {
    pub fn new() -> (r: StatView)
        ensures
            r@ == Seq::<StatEntryV>::empty(),
    {
        let r = StatView { entries: Vec::new() };
        proof {
            assert(r@ =~= Seq::<StatEntryV>::empty());
        }
        r
    }

    /// Record what the file system said about one path.
    pub fn push(&mut self, path: FsPath, stat: FileStat)
        ensures
            final(self)@ == old(self)@.push(StatEntryV { path: path@, stat }),
    {
        let ghost pv = path@;
        self.entries.push(StatEntry { path, stat });
        proof {
            assert(views_of(self.entries@) == views_of(old(self).entries@).push(
                StatEntryV { path: pv, stat },
            ));
        }
    }

    /// What the snapshot says about `p`.
    #[verifier::loop_isolation(false)]
    pub fn stat(&self, p: &FsPath) -> (r: FileStat)
        ensures
            r == stat_of(self@, p@),
    {
        let n = self.entries.len();
        let mut i: usize = 0;
        proof {
            assert(self@.skip(0) =~= self@);
        }
        while i < n
            invariant
                i <= n,
                n == self@.len(),
                stat_of(self@, p@) == stat_of(self@.skip(i as int), p@),
            decreases n - i,
        {
            let ghost rest = self@.skip(i as int);
            proof {
                assert(rest[0] == self@[i as int]);
                assert(rest.drop_first() =~= self@.skip(i + 1));
                assert(self@[i as int] == self.entries@[i as int]@);
            }
            if self.entries[i].path.matches(p) {
                return self.entries[i].stat;
            }
            i += 1;
        }
        proof {
            assert(self@.skip(n as int).len() == 0);
        }
        FileStat::Absent
    }
}

/// Why the evaluation stopped.
#[derive(Clone, Debug)]
pub enum CakeError {
    /// A target could not be examined; its path.
    IoError(FsPath),
    /// A required prerequisite is unavailable; its path.
    PrerequisiteMissing(FsPath),
    /// A file offers no modification time; its path.
    NoLastModifiedTime(FsPath),
    /// A path was no unicode text.
    NonUnicodePath,
}

/// The mathematical value of a `CakeError`.
pub enum CakeErrV {
    Io(Seq<CompV>),
    Missing(Seq<CompV>),
    NoTime(Seq<CompV>),
    NonUnicode,
}

impl View for CakeError {
    type V = CakeErrV;

    open spec fn view(&self) -> CakeErrV {
        match self {
            CakeError::IoError(p) => CakeErrV::Io(p@),
            CakeError::PrerequisiteMissing(p) => CakeErrV::Missing(p@),
            CakeError::NoLastModifiedTime(p) => CakeErrV::NoTime(p@),
            CakeError::NonUnicodePath => CakeErrV::NonUnicode,
        }
    }
}

/// What one prerequisite contributes to the upstream time: a named file's
/// modification time (optional absences contribute nothing), or the
/// recorded time of the producing task.
pub open spec fn up_part(p: PrereqRV, times: Seq<Option<int>>, fs: Seq<StatEntryV>) -> Result<
    Option<int>,
    CakeErrV,
> {
    match p {
        PrereqRV::Named(path, optional) => match stat_of(fs, path) {
            FileStat::Present(t) => Ok(Some(t as int)),
            FileStat::NoModTime => Err(CakeErrV::NoTime(path)),
            FileStat::Absent | FileStat::Inaccessible => if optional {
                Ok(None)
            } else {
                Err(CakeErrV::Missing(path))
            },
        },
        PrereqRV::Handle(h) => if 0 <= h < times.len() {
            Ok(times[h])
        } else {
            Ok(None)
        },
    }
}

pub open spec fn max_opt(a: Option<int>, b: Option<int>) -> Option<int> {
    match (a, b) {
        (None, x) => x,
        (x, None) => x,
        (Some(x), Some(y)) => Some(
            if x >= y {
                x
            } else {
                y
            },
        ),
    }
}

/// The upstream modification time: the contributions folded with maximum,
/// the first error aborting.
pub open spec fn up_time(
    ups: Seq<PrereqRV>,
    times: Seq<Option<int>>,
    fs: Seq<StatEntryV>,
) -> Result<Option<int>, CakeErrV>
    decreases ups.len(),
{
    if ups.len() == 0 {
        Ok(None)
    } else {
        match up_part(ups[0], times, fs) {
            Err(e) => Err(e),
            Ok(c) => match up_time(ups.drop_first(), times, fs) {
                Err(e) => Err(e),
                Ok(rest) => Ok(max_opt(c, rest)),
            },
        }
    }
}

/// What one target contributes: its time, nothing when it is missing, an
/// error when it cannot be examined.
pub open spec fn target_part(path: Seq<CompV>, fs: Seq<StatEntryV>) -> Result<
    Option<int>,
    CakeErrV,
> {
    match stat_of(fs, path) {
        FileStat::Present(t) => Ok(Some(t as int)),
        FileStat::Absent => Ok(None),
        FileStat::NoModTime => Err(CakeErrV::NoTime(path)),
        FileStat::Inaccessible => Err(CakeErrV::Io(path)),
    }
}

/// Fold over the targets: the accumulator distinguishes "nothing seen yet"
/// from "a missing target was seen" (`Some(None)`).
pub open spec fn tgt_fold(
    ts: Seq<Seq<CompV>>,
    fs: Seq<StatEntryV>,
    acc: Option<Option<int>>,
) -> Result<Option<Option<int>>, CakeErrV>
    decreases ts.len(),
{
    if ts.len() == 0 {
        Ok(acc)
    } else {
        match target_part(ts[0], fs) {
            Err(e) => Err(e),
            Ok(t) => {
                let acc2 = match acc {
                    None => Some(t),
                    Some(r) => Some(max_missing(r, t)),
                };
                tgt_fold(ts.drop_first(), fs, acc2)
            },
        }
    }
}

/// Two target times combined: one missing target poisons the whole.
pub open spec fn max_missing(a: Option<int>, b: Option<int>) -> Option<int> {
    match (a, b) {
        (None, _) => None,
        (_, None) => None,
        (Some(x), Some(y)) => Some(
            if x >= y {
                x
            } else {
                y
            },
        ),
    }
}

/// The target modification time: the latest when all targets are present,
/// nothing when any is missing or there is no target at all.
pub open spec fn tgt_time(ts: Seq<Seq<CompV>>, fs: Seq<StatEntryV>) -> Result<
    Option<int>,
    CakeErrV,
> {
    match tgt_fold(ts, fs, None) {
        Err(e) => Err(e),
        Ok(None) => Ok(None),
        Ok(Some(t)) => Ok(t),
    }
}

/// Whether the task at `j` must be rebuilt, given the recorded times of the
/// tasks before it.
pub open spec fn stale_cond(
    task: TaskV,
    times: Seq<Option<int>>,
    fs: Seq<StatEntryV>,
) -> bool {
    match tgt_time(task.targets, fs) {
        Err(_) => false,
        Ok(None) => true,
        Ok(Some(t)) => match up_time(task.upstream, times, fs) {
            Err(_) => false,
            Ok(None) => false,
            Ok(Some(u)) => u > t,
        },
    }
}

/// The recorded time of the task at `j`: a just-built stamp when it is
/// stale, otherwise its targets' time.
pub open spec fn recorded_time(
    task: TaskV,
    times: Seq<Option<int>>,
    fs: Seq<StatEntryV>,
    now: int,
) -> Option<int> {
    if stale_cond(task, times, fs) {
        Some(now)
    } else {
        match tgt_time(task.targets, fs) {
            Ok(Some(t)) => Some(t),
            _ => Some(now),
        }
    }
}

/// Walk the tasks from `i` on, extending the recorded times and the stale
/// list.
pub open spec fn eval_from(
    tasks: Seq<TaskV>,
    fs: Seq<StatEntryV>,
    now: int,
    i: int,
    times: Seq<Option<int>>,
    stale: Seq<int>,
) -> Result<(Seq<Option<int>>, Seq<int>), CakeErrV>
    decreases tasks.len() - i,
{
    if i < 0 || i >= tasks.len() {
        Ok((times, stale))
    } else {
        match up_time(tasks[i].upstream, times, fs) {
            Err(e) => Err(e),
            Ok(_) => match tgt_time(tasks[i].targets, fs) {
                Err(e) => Err(e),
                Ok(_) => eval_from(
                    tasks,
                    fs,
                    now,
                    i + 1,
                    times.push(recorded_time(tasks[i], times, fs, now)),
                    if stale_cond(tasks[i], times, fs) {
                        stale.push(i)
                    } else {
                        stale
                    },
                ),
            },
        }
    }
}

/// What the evaluation of a whole list yields.
pub open spec fn eval_spec(tasks: Seq<TaskV>, fs: Seq<StatEntryV>, now: int) -> Result<
    (Seq<Option<int>>, Seq<int>),
    CakeErrV,
> {
    eval_from(tasks, fs, now, 0, Seq::empty(), Seq::empty())
}

/// The handle indices of a handle list.
pub open spec fn handle_ints(v: Seq<TaskHandle>) -> Seq<int> {
    Seq::new(v.len(), |i: int| v[i].index as int)
}

impl TaskList {
    /// The tasks that must be rebuilt, in build order, given what the file
    /// system says (`fs`) and the present moment (`now`).
    #[verifier::loop_isolation(false)]
    pub fn retain_out_of_date(&self, now: u64, fs: &StatView) -> (r: Result<
        Vec<TaskHandle>,
        CakeError,
    >)
        ensures
            match r {
                Ok(stale) => eval_spec(self@, fs@, now as int) is Ok && handle_ints(stale@)
                    == eval_spec(self@, fs@, now as int)->Ok_0.1,
                Err(e) => eval_spec(self@, fs@, now as int) == Err::<
                    (Seq<Option<int>>, Seq<int>),
                    CakeErrV,
                >(e@),
            },
    {
        let n = self.len();
        let mut times: Vec<Option<u64>> = Vec::new();
        let mut stale: Vec<TaskHandle> = Vec::new();
        let mut i: usize = 0;
        let ghost tv = self@;
        proof {
            assert(opt_times(times@) =~= Seq::<Option<int>>::empty());
            assert(handle_ints(stale@) =~= Seq::<int>::empty());
        }
        while i < n
            invariant
                i <= n,
                n == tv.len(),
                tv == self@,
                times@.len() == i,
                eval_spec(tv, fs@, now as int) == eval_from(
                    tv,
                    fs@,
                    now as int,
                    i as int,
                    opt_times(times@),
                    handle_ints(stale@),
                ),
            decreases n - i,
        {
            let task = self.get(i);
            // Upstream time.
            let u: Option<u64> = match self.up_time_exec(task, &times, fs) {
                Ok(u) => u,
                Err(e) => {
                    return Err(e);
                },
            };
            // Target time.
            let t: Option<u64> = match tgt_time_exec(task.targets(), fs) {
                Ok(t) => t,
                Err(e) => {
                    return Err(e);
                },
            };
            let is_stale: bool = match (t, u) {
                (None, _) => true,
                (Some(_), None) => false,
                (Some(tt), Some(uu)) => uu > tt,
            };
            proof {
                assert(is_stale == stale_cond(tv[i as int], opt_times(times@), fs@));
            }
            let ghost times0 = opt_times(times@);
            let ghost stale0 = handle_ints(stale@);
            if is_stale {
                stale.push(TaskHandle { index: i });
                times.push(Some(now));
                proof {
                    assert(handle_ints(stale@) =~= stale0.push(i as int));
                    assert(opt_times(times@) =~= times0.push(Some(now as int)));
                }
            } else {
                match t {
                    Some(tt) => {
                        times.push(Some(tt));
                        proof {
                            assert(opt_times(times@) =~= times0.push(Some(tt as int)));
                            assert(handle_ints(stale@) =~= stale0);
                        }
                    },
                    None => {
                        times.push(Some(now));
                        proof {
                            assert(opt_times(times@) =~= times0.push(Some(now as int)));
                            assert(handle_ints(stale@) =~= stale0);
                        }
                    },
                }
            }
            proof {
                assert(opt_times(times@) =~= times0.push(
                    recorded_time(tv[i as int], times0, fs@, now as int),
                ));
            }
            i += 1;
        }
        Ok(stale)
    }

    /// The upstream time of one task.
    #[verifier::loop_isolation(false)]
    fn up_time_exec(&self, task: &crate::graph::Task, times: &Vec<Option<u64>>, fs: &StatView) -> (
        r: Result<Option<u64>, CakeError>)
        ensures
            match r {
                Ok(u) => up_time(task@.upstream, opt_times(times@), fs@) == Ok::<
                    Option<int>,
                    CakeErrV,
                >(opt_int(u)),
                Err(e) => up_time(task@.upstream, opt_times(times@), fs@) == Err::<
                    Option<int>,
                    CakeErrV,
                >(e@),
            },
    {
        let ups = task.upstream();
        let ghost upsv = task@.upstream;
        let n = ups.len();
        let mut acc: Option<u64> = None;
        let mut i: usize = 0;
        proof {
            assert(upsv.skip(0) =~= upsv);
        }
        while i < n
            invariant
                i <= n,
                n == upsv.len(),
                upsv == task@.upstream,
                views_of(ups@) == upsv,
                match up_time(upsv.skip(i as int), opt_times(times@), fs@) {
                    Ok(rest) => up_time(upsv, opt_times(times@), fs@) == Ok::<
                        Option<int>,
                        CakeErrV,
                    >(max_opt(opt_int(acc), rest)),
                    Err(e) => up_time(upsv, opt_times(times@), fs@) == Err::<
                        Option<int>,
                        CakeErrV,
                    >(e),
                },
            decreases n - i,
        {
            let ghost rest = upsv.skip(i as int);
            proof {
                assert(rest[0] == upsv[i as int]);
                assert(rest.drop_first() =~= upsv.skip(i + 1));
                assert(upsv[i as int] == ups@[i as int]@);
            }
            let c: Option<u64> = match &ups[i] {
                crate::graph::Prerequisite::Named(path, optional) => {
                    match fs.stat(path) {
                        FileStat::Present(t) => Some(t),
                        FileStat::NoModTime => {
                            return Err(CakeError::NoLastModifiedTime(path.duplicate()));
                        },
                        FileStat::Absent | FileStat::Inaccessible => {
                            if *optional {
                                None
                            } else {
                                return Err(CakeError::PrerequisiteMissing(path.duplicate()));
                            }
                        },
                    }
                },
                crate::graph::Prerequisite::Handle(h) => {
                    if h.index < times.len() {
                        times[h.index]
                    } else {
                        None
                    }
                },
            };
            let ghost acc0 = opt_int(acc);
            acc = match (acc, c) {
                (None, x) => x,
                (x, None) => x,
                (Some(x), Some(y)) => Some(
                    if x >= y {
                        x
                    } else {
                        y
                    },
                ),
            };
            proof {
                assert(opt_int(acc) == max_opt(acc0, opt_int(c)));
                if let Ok(rest2) = up_time(upsv.skip(i + 1), opt_times(times@), fs@) {
                    assert(max_opt(acc0, max_opt(opt_int(c), rest2)) == max_opt(
                        max_opt(acc0, opt_int(c)),
                        rest2,
                    ));
                }
            }
            i += 1;
        }
        proof {
            assert(upsv.skip(n as int) =~= Seq::<PrereqRV>::empty());
        }
        Ok(acc)
    }
}

/// The target time of one task.
#[verifier::loop_isolation(false)]
fn tgt_time_exec(targets: &crate::targets::Targets, fs: &StatView) -> (r: Result<
    Option<u64>,
    CakeError,
>)
    ensures
        match r {
            Ok(t) => tgt_time(targets@, fs@) == Ok::<Option<int>, CakeErrV>(opt_int(t)),
            Err(e) => tgt_time(targets@, fs@) == Err::<Option<int>, CakeErrV>(e@),
        },
{
    let ghost tsv = targets@;
    let n = targets.len();
    let mut acc: Option<Option<u64>> = None;
    let mut i: usize = 0;
    proof {
        assert(tsv.skip(0) =~= tsv);
    }
    while i < n
        invariant
            i <= n,
            n == tsv.len(),
            tsv == targets@,
            match tgt_fold(tsv.skip(i as int), fs@, opt_opt_int(acc)) {
                Ok(x) => tgt_fold(tsv, fs@, None) == Ok::<Option<Option<int>>, CakeErrV>(x),
                Err(e) => tgt_fold(tsv, fs@, None) == Err::<Option<Option<int>>, CakeErrV>(e),
            },
        decreases n - i,
    {
        let ghost rest = tsv.skip(i as int);
        proof {
            assert(rest[0] == tsv[i as int]);
            assert(rest.drop_first() =~= tsv.skip(i + 1));
        }
        let c: Option<u64> = match fs.stat(targets.get(i)) {
            FileStat::Present(t) => Some(t),
            FileStat::Absent => None,
            FileStat::NoModTime => {
                return Err(CakeError::NoLastModifiedTime(targets.get(i).duplicate()));
            },
            FileStat::Inaccessible => {
                return Err(CakeError::IoError(targets.get(i).duplicate()));
            },
        };
        acc = match acc {
            None => Some(c),
            Some(r0) => Some(
                match (r0, c) {
                    (None, _) => None,
                    (_, None) => None,
                    (Some(x), Some(y)) => Some(
                        if x >= y {
                            x
                        } else {
                            y
                        },
                    ),
                },
            ),
        };
        i += 1;
    }
    proof {
        assert(tsv.skip(n as int) =~= Seq::<Seq<CompV>>::empty());
    }
    match acc {
        None => Ok(None),
        Some(t) => Ok(t),
    }
}

/// Machine times read as mathematical times.
pub open spec fn opt_int(t: Option<u64>) -> Option<int> {
    match t {
        Some(x) => Some(x as int),
        None => None,
    }
}

pub open spec fn opt_opt_int(t: Option<Option<u64>>) -> Option<Option<int>> {
    match t {
        Some(x) => Some(opt_int(x)),
        None => None,
    }
}

pub open spec fn opt_times(v: Seq<Option<u64>>) -> Seq<Option<int>> {
    Seq::new(v.len(), |i: int| opt_int(v[i]))
}

/// Every handle among the prerequisites points below `m`.
pub open spec fn handles_below(ups: Seq<PrereqRV>, m: int) -> bool {
    forall|k: int|
        0 <= k < ups.len() ==> ((#[trigger] ups[k]) is Handle ==> 0 <= ups[k]->Handle_0 < m)
}

/// The upstream time reads only the recorded times its handles name.
proof fn lemma_up_time_prefix(
    ups: Seq<PrereqRV>,
    t1: Seq<Option<int>>,
    t2: Seq<Option<int>>,
    fs: Seq<StatEntryV>,
    m: int,
)
    requires
        handles_below(ups, m),
        m <= t1.len(),
        m <= t2.len(),
        forall|q: int| 0 <= q < m ==> t1[q] == t2[q],
    ensures
        up_time(ups, t1, fs) == up_time(ups, t2, fs),
    decreases ups.len(),
{
    if ups.len() > 0 {
        assert(up_part(ups[0], t1, fs) == up_part(ups[0], t2, fs));
        assert(handles_below(ups.drop_first(), m)) by {
            assert(forall|k: int|
                0 <= k < ups.drop_first().len() ==> #[trigger] ups.drop_first()[k] == ups[k + 1]);
        }
        lemma_up_time_prefix(ups.drop_first(), t1, t2, fs, m);
    }
}

/// The whole list is well formed for evaluation.
pub open spec fn eval_wf(tasks: Seq<TaskV>) -> bool {
    forall|j: int| 0 <= j < tasks.len() ==> handles_below((#[trigger] tasks[j]).upstream, j)
}

/// What one evaluation run records and emits, task by task.
proof fn lemma_eval_char(
    tasks: Seq<TaskV>,
    fs: Seq<StatEntryV>,
    now: int,
    i: int,
    times: Seq<Option<int>>,
    stale: Seq<int>,
)
    requires
        eval_wf(tasks),
        0 <= i <= tasks.len(),
        times.len() == i,
        eval_from(tasks, fs, now, i, times, stale) is Ok,
        forall|q: int| 0 <= q < stale.len() ==> 0 <= #[trigger] stale[q] < i,
    ensures
        ({
            let ft = eval_from(tasks, fs, now, i, times, stale)->Ok_0.0;
            let fstale = eval_from(tasks, fs, now, i, times, stale)->Ok_0.1;
            &&& ft.len() == tasks.len()
            &&& ft.take(i) == times
            &&& forall|j: int|
                i <= j < tasks.len() ==> up_time(#[trigger] tasks[j].upstream, ft, fs) is Ok
                    && tgt_time(tasks[j].targets, fs) is Ok
            &&& forall|j: int|
                i <= j < tasks.len() ==> (fstale.contains(j) <==> stale_cond(
                    #[trigger] tasks[j],
                    ft,
                    fs,
                ))
            &&& forall|j: int| 0 <= j < i ==> (fstale.contains(j) <==> stale.contains(j))
            &&& forall|j: int|
                i <= j < tasks.len() ==> ft[j] == recorded_time(#[trigger] tasks[j], ft, fs, now)
            &&& forall|q: int| 0 <= q < fstale.len() ==> 0 <= #[trigger] fstale[q] < tasks.len()
        }),
    decreases tasks.len() - i,
{
    if i < tasks.len() {
        let t2 = times.push(recorded_time(tasks[i], times, fs, now));
        let s2 = if stale_cond(tasks[i], times, fs) {
            stale.push(i)
        } else {
            stale
        };
        assert(forall|q: int| 0 <= q < s2.len() ==> 0 <= #[trigger] s2[q] < i + 1);
        lemma_eval_char(tasks, fs, now, i + 1, t2, s2);
        let ft = eval_from(tasks, fs, now, i, times, stale)->Ok_0.0;
        let fstale = eval_from(tasks, fs, now, i, times, stale)->Ok_0.1;
        assert(ft.take(i + 1) == t2);
        assert(ft.take(i) =~= times) by {
            assert(forall|q: int| 0 <= q < i ==> #[trigger] ft.take(i + 1)[q] == t2[q]);
            assert(forall|q: int| 0 <= q < i ==> #[trigger] ft.take(i)[q] == ft[q]);
            assert(forall|q: int| 0 <= q < i ==> #[trigger] t2[q] == times[q]);
        }
        // Evaluating task `i` with the final times gives the same answers
        // as with the prefix.
        assert(handles_below(tasks[i].upstream, i));
        lemma_up_time_prefix(tasks[i].upstream, times, ft, fs, i);
        assert(up_time(tasks[i].upstream, ft, fs) == up_time(tasks[i].upstream, times, fs)) by {
            assert(forall|q: int| 0 <= q < i ==> #[trigger] ft[q] == ft.take(i)[q]);
            lemma_up_time_prefix(tasks[i].upstream, ft, times, fs, i);
        }
        assert(stale_cond(tasks[i], ft, fs) == stale_cond(tasks[i], times, fs));
        assert(recorded_time(tasks[i], ft, fs, now) == recorded_time(tasks[i], times, fs, now));
        assert(ft[i as int] == t2[i as int]);
        // Membership of `i` in the final stale list.
        if stale_cond(tasks[i], times, fs) {
            assert(s2[s2.len() - 1] == i);
            assert(s2.contains(i));
            assert(fstale.contains(i) <==> s2.contains(i));
        } else {
            assert(fstale.contains(i) <==> s2.contains(i));
            assert(!s2.contains(i)) by {
                if s2.contains(i) {
                    let w = choose|w: int| 0 <= w < s2.len() && s2[w] == i;
                    assert(0 <= s2[w] < i);
                }
            }
        }
        assert forall|j: int| 0 <= j < i implies (fstale.contains(j) <==> stale.contains(j)) by {
            assert(fstale.contains(j) <==> s2.contains(j));
            if stale_cond(tasks[i], times, fs) {
                if s2.contains(j) && !stale.contains(j) {
                    let w = choose|w: int| 0 <= w < s2.len() && s2[w] == j;
                    assert(w == s2.len() - 1 || stale[w] == j);
                }
                if stale.contains(j) {
                    let w = choose|w: int| 0 <= w < stale.len() && stale[w] == j;
                    assert(s2[w] == j);
                }
            }
        }
    } else {
        assert(eval_from(tasks, fs, now, i, times, stale)->Ok_0.0.take(i) =~= times);
    }
}

/// A target that is absent makes the fold miss.
proof fn lemma_tgt_fold_absent(
    ts: Seq<Seq<CompV>>,
    fs: Seq<StatEntryV>,
    acc: Option<Option<int>>,
    k: int,
)
    requires
        0 <= k < ts.len(),
        stat_of(fs, ts[k]) is Absent,
        tgt_fold(ts, fs, acc) is Ok,
    ensures
        tgt_fold(ts, fs, acc)->Ok_0 == Some(None::<int>),
    decreases ts.len(),
{
    let t0 = target_part(ts[0], fs);
    let acc2 = match acc {
        None => Some(t0->Ok_0),
        Some(r) => Some(max_missing(r, t0->Ok_0)),
    };
    if k == 0 {
        lemma_tgt_fold_poisoned(ts.drop_first(), fs, acc2);
    } else {
        assert(ts.drop_first()[k - 1] == ts[k]);
        lemma_tgt_fold_absent(ts.drop_first(), fs, acc2, k - 1);
    }
}

/// A missing accumulator stays missing.
proof fn lemma_tgt_fold_poisoned(ts: Seq<Seq<CompV>>, fs: Seq<StatEntryV>, acc: Option<Option<int>>)
    requires
        acc == Some(None::<int>),
        tgt_fold(ts, fs, acc) is Ok,
    ensures
        tgt_fold(ts, fs, acc)->Ok_0 == Some(None::<int>),
    decreases ts.len(),
{
    if ts.len() > 0 {
        lemma_tgt_fold_poisoned(ts.drop_first(), fs, acc);
    }
}

/// A missing target always makes the task stale: if the evaluation went
/// through and some target of the task is absent, the task stands in the
/// emitted list.
pub proof fn lemma_missing_target_stale(
    tasks: Seq<TaskV>,
    fs: Seq<StatEntryV>,
    now: int,
    i: int,
    k: int,
)
    requires
        eval_wf(tasks),
        eval_spec(tasks, fs, now) is Ok,
        0 <= i < tasks.len(),
        0 <= k < tasks[i].targets.len(),
        stat_of(fs, tasks[i].targets[k]) is Absent,
    ensures
        eval_spec(tasks, fs, now)->Ok_0.1.contains(i),
{
    lemma_eval_char(tasks, fs, now, 0, Seq::empty(), Seq::empty());
    let ft = eval_spec(tasks, fs, now)->Ok_0.0;
    assert(tgt_time(tasks[i].targets, fs) is Ok);
    lemma_tgt_fold_absent(tasks[i].targets, fs, None, k);
    assert(stale_cond(tasks[i], ft, fs));
}

/// A task whose targets all stand and are no older than everything it
/// waits on stays out of the emitted list.
pub proof fn lemma_fresh_task(tasks: Seq<TaskV>, fs: Seq<StatEntryV>, now: int, i: int)
    requires
        eval_wf(tasks),
        eval_spec(tasks, fs, now) is Ok,
        0 <= i < tasks.len(),
        tgt_time(tasks[i].targets, fs) matches Ok(Some(t)) && (up_time(
            tasks[i].upstream,
            eval_spec(tasks, fs, now)->Ok_0.0,
            fs,
        ) matches Ok(u) && (u is None || u->Some_0 <= t)),
    ensures
        !eval_spec(tasks, fs, now)->Ok_0.1.contains(i),
{
    lemma_eval_char(tasks, fs, now, 0, Seq::empty(), Seq::empty());
    let ft = eval_spec(tasks, fs, now)->Ok_0.0;
    assert(!stale_cond(tasks[i], ft, fs));
}

/// An optional prerequisite whose file is absent adds nothing: the
/// upstream time is what it would be without the entry.
pub proof fn lemma_optional_absent_ignored(
    ups: Seq<PrereqRV>,
    times: Seq<Option<int>>,
    fs: Seq<StatEntryV>,
    k: int,
)
    requires
        0 <= k < ups.len(),
        ups[k] matches PrereqRV::Named(p, optional) && optional && stat_of(fs, p) is Absent,
    ensures
        up_time(ups, times, fs) == up_time(ups.remove(k), times, fs),
    decreases ups.len(),
{
    if k == 0 {
        assert(up_part(ups[0], times, fs) == Ok::<Option<int>, CakeErrV>(None));
        assert(ups.remove(0) =~= ups.drop_first());
        if up_time(ups.drop_first(), times, fs) is Ok {
        }
    } else {
        assert(ups.remove(k)[0] == ups[0]);
        assert(ups.remove(k).drop_first() =~= ups.drop_first().remove(k - 1));
        assert(ups.drop_first()[k - 1] == ups[k]);
        lemma_optional_absent_ignored(ups.drop_first(), times, fs, k - 1);
    }
}

/// A required prerequisite whose file is absent stops the evaluation with
/// exactly that file, provided nothing before it already failed.
pub proof fn lemma_required_absent_fails(
    ups: Seq<PrereqRV>,
    times: Seq<Option<int>>,
    fs: Seq<StatEntryV>,
    k: int,
)
    requires
        0 <= k < ups.len(),
        ups[k] matches PrereqRV::Named(p, optional) && !optional && (stat_of(fs, p) is Absent
            || stat_of(fs, p) is Inaccessible),
        forall|q: int| 0 <= q < k ==> up_part(#[trigger] ups[q], times, fs) is Ok,
    ensures
        up_time(ups, times, fs) == Err::<Option<int>, CakeErrV>(
            CakeErrV::Missing(ups[k]->Named_0),
        ),
    decreases ups.len(),
{
    if k == 0 {
    } else {
        assert(ups.drop_first()[k - 1] == ups[k]);
        assert(forall|q: int|
            0 <= q < k - 1 ==> #[trigger] ups.drop_first()[q] == ups[q + 1]);
        lemma_required_absent_fails(ups.drop_first(), times, fs, k - 1);
    }
}

/// Every present file predates the moment of evaluation.
pub open spec fn now_bound(fs: Seq<StatEntryV>, now: int) -> bool {
    forall|q: int|
        0 <= q < fs.len() ==> ((#[trigger] fs[q].stat) is Present ==> fs[q].stat->Present_0 < now)
}

proof fn lemma_stat_bound(fs: Seq<StatEntryV>, p: Seq<CompV>, now: int)
    requires
        now_bound(fs, now),
        stat_of(fs, p) is Present,
    ensures
        stat_of(fs, p)->Present_0 < now,
    decreases fs.len(),
{
    if fs.len() > 0 && fs[0].path != p {
        assert(forall|q: int|
            0 <= q < fs.drop_first().len() ==> #[trigger] fs.drop_first()[q] == fs[q + 1]);
        lemma_stat_bound(fs.drop_first(), p, now);
    }
}

/// The upstream time is at least any one present part.
proof fn lemma_up_time_at_least(
    ups: Seq<PrereqRV>,
    times: Seq<Option<int>>,
    fs: Seq<StatEntryV>,
    k: int,
    v: int,
)
    requires
        0 <= k < ups.len(),
        up_part(ups[k], times, fs) == Ok::<Option<int>, CakeErrV>(Some(v)),
        up_time(ups, times, fs) is Ok,
    ensures
        up_time(ups, times, fs)->Ok_0 matches Some(u) && u >= v,
    decreases ups.len(),
{
    if k == 0 {
    } else {
        assert(ups.drop_first()[k - 1] == ups[k]);
        lemma_up_time_at_least(ups.drop_first(), times, fs, k - 1, v);
    }
}

/// All-present target folds stay below the moment.
proof fn lemma_tgt_fold_bound(
    ts: Seq<Seq<CompV>>,
    fs: Seq<StatEntryV>,
    acc: Option<Option<int>>,
    now: int,
)
    requires
        now_bound(fs, now),
        acc matches Some(Some(x)) ==> x < now,
        tgt_fold(ts, fs, acc) matches Ok(Some(Some(t))),
    ensures
        tgt_fold(ts, fs, acc)->Ok_0->Some_0->Some_0 < now,
    decreases ts.len(),
{
    if ts.len() == 0 {
    } else {
        let t0 = target_part(ts[0], fs);
        let acc2 = match acc {
            None => Some(t0->Ok_0),
            Some(r) => Some(max_missing(r, t0->Ok_0)),
        };
        assert(acc2 matches Some(Some(x)) ==> x < now) by {
            if stat_of(fs, ts[0]) is Present {
                lemma_stat_bound(fs, ts[0], now);
            }
        }
        lemma_tgt_fold_bound(ts.drop_first(), fs, acc2, now);
    }
}

/// Stale tasks infect their consumers: when a task in the emitted list
/// feeds another task through a handle, that task stands in the list too.
pub proof fn lemma_stale_closure(
    tasks: Seq<TaskV>,
    fs: Seq<StatEntryV>,
    now: int,
    u: int,
    d: int,
)
    requires
        eval_wf(tasks),
        now_bound(fs, now),
        eval_spec(tasks, fs, now) is Ok,
        eval_spec(tasks, fs, now)->Ok_0.1.contains(u),
        0 <= d < tasks.len(),
        tasks[d].upstream.contains(PrereqRV::Handle(u)),
    ensures
        eval_spec(tasks, fs, now)->Ok_0.1.contains(d),
{
    lemma_eval_char(tasks, fs, now, 0, Seq::empty(), Seq::empty());
    let ft = eval_spec(tasks, fs, now)->Ok_0.0;
    let fstale = eval_spec(tasks, fs, now)->Ok_0.1;
    assert(0 <= u < tasks.len()) by {
        let w = choose|w: int| 0 <= w < fstale.len() && fstale[w] == u;
    }
    assert(stale_cond(tasks[u], ft, fs));
    assert(ft[u] == Some(now));
    let k = choose|k: int|
        0 <= k < tasks[d].upstream.len() && #[trigger] tasks[d].upstream[k] == PrereqRV::Handle(u);
    assert(handles_below(tasks[d].upstream, d));
    assert(0 <= u < d);
    assert(up_part(tasks[d].upstream[k], ft, fs) == Ok::<Option<int>, CakeErrV>(Some(now)));
    assert(up_time(tasks[d].upstream, ft, fs) is Ok);
    lemma_up_time_at_least(tasks[d].upstream, ft, fs, k, now);
    match tgt_time(tasks[d].targets, fs) {
        Ok(Some(t)) => {
            lemma_tgt_fold_bound(tasks[d].targets, fs, None, now);
            assert(t < now);
            assert(stale_cond(tasks[d], ft, fs));
        },
        Ok(None) => {
            assert(stale_cond(tasks[d], ft, fs));
        },
        Err(_) => {},
    }
}

/// Recorded times of two runs differ only in the moment they stamp.
pub open spec fn times_related(
    t1: Seq<Option<int>>,
    t2: Seq<Option<int>>,
    now1: int,
    now2: int,
) -> bool {
    &&& t1.len() == t2.len()
    &&& forall|q: int|
        0 <= q < t1.len() ==> ((t1[q] == t2[q] && ((#[trigger] t1[q]) matches Some(v) ==> v < now1
            && v < now2)) || (t1[q] == Some(now1) && t2[q] == Some(now2)))
}

proof fn lemma_up_time_related(
    ups: Seq<PrereqRV>,
    t1: Seq<Option<int>>,
    t2: Seq<Option<int>>,
    fs: Seq<StatEntryV>,
    now1: int,
    now2: int,
)
    requires
        now_bound(fs, now1),
        now_bound(fs, now2),
        times_related(t1, t2, now1, now2),
    ensures
        match up_time(ups, t1, fs) {
            Err(e) => up_time(ups, t2, fs) == Err::<Option<int>, CakeErrV>(e),
            Ok(u1) => up_time(ups, t2, fs) matches Ok(u2) && ((u1 == u2 && (u1 matches Some(v)
                ==> v < now1 && v < now2)) || (u1 == Some(now1) && u2 == Some(now2))),
        },
    decreases ups.len(),
{
    if ups.len() > 0 {
        assert(match up_part(ups[0], t1, fs) {
            Err(e) => up_part(ups[0], t2, fs) == Err::<Option<int>, CakeErrV>(e),
            Ok(c1) => up_part(ups[0], t2, fs) matches Ok(c2) && ((c1 == c2 && (c1 matches Some(
                v,
            ) ==> v < now1 && v < now2)) || (c1 == Some(now1) && c2 == Some(now2))),
        }) by {
            match ups[0] {
                PrereqRV::Named(p, _) => {
                    if stat_of(fs, p) is Present {
                        lemma_stat_bound(fs, p, now1);
                        lemma_stat_bound(fs, p, now2);
                    }
                },
                PrereqRV::Handle(_) => {},
            }
        }
        lemma_up_time_related(ups.drop_first(), t1, t2, fs, now1, now2);
    }
}

proof fn lemma_eval_related(
    tasks: Seq<TaskV>,
    fs: Seq<StatEntryV>,
    now1: int,
    now2: int,
    i: int,
    t1: Seq<Option<int>>,
    t2: Seq<Option<int>>,
    stale: Seq<int>,
)
    requires
        eval_wf(tasks),
        now_bound(fs, now1),
        now_bound(fs, now2),
        0 <= i <= tasks.len(),
        times_related(t1, t2, now1, now2),
        eval_from(tasks, fs, now1, i, t1, stale) is Ok,
    ensures
        eval_from(tasks, fs, now2, i, t2, stale) is Ok,
        eval_from(tasks, fs, now2, i, t2, stale)->Ok_0.1 == eval_from(
            tasks,
            fs,
            now1,
            i,
            t1,
            stale,
        )->Ok_0.1,
    decreases tasks.len() - i,
{
    if i < tasks.len() {
        lemma_up_time_related(tasks[i].upstream, t1, t2, fs, now1, now2);
        // The decision agrees in both runs.
        assert(stale_cond(tasks[i], t1, fs) == stale_cond(tasks[i], t2, fs)) by {
            match tgt_time(tasks[i].targets, fs) {
                Ok(Some(t)) => {
                    lemma_tgt_fold_bound(tasks[i].targets, fs, None, now1);
                    lemma_tgt_fold_bound(tasks[i].targets, fs, None, now2);
                },
                _ => {},
            }
        }
        let r1 = recorded_time(tasks[i], t1, fs, now1);
        let r2 = recorded_time(tasks[i], t2, fs, now2);
        assert(times_related(t1.push(r1), t2.push(r2), now1, now2)) by {
            if !stale_cond(tasks[i], t1, fs) {
                match tgt_time(tasks[i].targets, fs) {
                    Ok(Some(t)) => {
                        lemma_tgt_fold_bound(tasks[i].targets, fs, None, now1);
                        lemma_tgt_fold_bound(tasks[i].targets, fs, None, now2);
                    },
                    _ => {},
                }
            }
            assert(forall|q: int|
                0 <= q < t1.len() ==> #[trigger] t1.push(r1)[q] == t1[q] && t2.push(r2)[q]
                    == t2[q]);
            assert(t1.push(r1)[t1.len() as int] == r1);
            assert(t2.push(r2)[t1.len() as int] == r2);
        }
        lemma_eval_related(
            tasks,
            fs,
            now1,
            now2,
            i + 1,
            t1.push(r1),
            t2.push(r2),
            if stale_cond(tasks[i], t1, fs) {
                stale.push(i)
            } else {
                stale
            },
        );
    }
}

/// With nothing changed on disk, two runs at different moments emit the
/// same tasks: the stale list does not depend on when it is computed.
pub proof fn lemma_freshness_stable(tasks: Seq<TaskV>, fs: Seq<StatEntryV>, now1: int, now2: int)
    requires
        eval_wf(tasks),
        now_bound(fs, now1),
        now_bound(fs, now2),
        eval_spec(tasks, fs, now1) is Ok,
    ensures
        eval_spec(tasks, fs, now2) is Ok,
        eval_spec(tasks, fs, now2)->Ok_0.1 == eval_spec(tasks, fs, now1)->Ok_0.1,
{
    assert(times_related(Seq::empty(), Seq::empty(), now1, now2));
    lemma_eval_related(tasks, fs, now1, now2, 0, Seq::empty(), Seq::empty(), Seq::empty());
}

} // verus!
