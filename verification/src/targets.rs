//! Concrete target paths: the expansion of a task's templates.

use vstd::prelude::*;

use crate::path::{CompV, FsPath};
use crate::targets_spec::{
    opt_path_view, resolve_target_spec, ResolveError, TargetsSpec,
};
use crate::views::{group_views_of, views_of};

verus! {

broadcast use group_views_of;

/// The resolved output paths of one task.
#[derive(Clone, Debug)]
pub enum Targets {
    Single(FsPath),
    Multi(Vec<FsPath>),
}

impl View for Targets {
    type V = Seq<Seq<CompV>>;

    open spec fn view(&self) -> Seq<Seq<CompV>> {
        match self {
            Targets::Single(p) => seq![p@],
            Targets::Multi(ps) => views_of(ps@),
        }
    }
}

/// Resolving a list of templates: each in order, the first error aborting.
pub open spec fn resolve_targets_specs(
    ts: Seq<Seq<char>>,
    prefix: Seq<CompV>,
    input: Option<Seq<CompV>>,
) -> Result<Seq<Seq<CompV>>, ResolveError>
    decreases ts.len(),
{
    if ts.len() == 0 {
        Ok(Seq::empty())
    } else {
        match resolve_target_spec(ts[0], prefix, input) {
            Err(e) => Err(e),
            Ok(p) => match resolve_targets_specs(ts.drop_first(), prefix, input) {
                Ok(ps) => Ok(seq![p] + ps),
                Err(e) => Err(e),
            },
        }
    }
}

impl Targets {
    /// How many target paths there are.
    pub fn len(&self) -> (r: usize)
        ensures
            r == self@.len(),
    {
        match self {
            Targets::Single(_) => 1,
            Targets::Multi(ps) => ps.len(),
        }
    }

    /// The target path at `index`.
    pub fn get(&self, index: usize) -> (r: &FsPath)
        requires
            index < self@.len(),
        ensures
            r@ == self@[index as int],
    {
        match self {
            Targets::Single(p) => p,
            Targets::Multi(ps) => &ps[index],
        }
    }

    /// A copy whose value equals this one.
    pub fn duplicate(&self) -> (r: Targets)
        ensures
            r@ == self@,
    {
        match self {
            Targets::Single(p) => Targets::Single(p.duplicate()),
            Targets::Multi(ps) => {
                let mut out: Vec<FsPath> = Vec::new();
                let n = ps.len();
                let mut i: usize = 0;
                while i < n
                    invariant
                        i <= n,
                        n == ps@.len(),
                        views_of(out@) =~= views_of(ps@).take(i as int),
                    decreases n - i,
                {
                    out.push(ps[i].duplicate());
                    proof {
                        assert(views_of(out@) =~= views_of(ps@).take(i + 1));
                    }
                    i += 1;
                }
                proof {
                    assert(views_of(ps@).take(n as int) =~= views_of(ps@));
                }
                Targets::Multi(out)
            },
        }
    }

    /// Resolve every template of `spec` against the prefix and the optional
    /// input, in order, the first error aborting.
    #[verifier::loop_isolation(false)]
    pub fn try_from(arg: (FsPath, &Option<FsPath>, TargetsSpec)) -> (r: Result<
        Targets,
        ResolveError,
    >)
        ensures
            match r {
                Ok(t) => resolve_targets_specs(
                    arg.2@,
                    arg.0@,
                    opt_ref_path_view(arg.1),
                ) == Ok::<Seq<Seq<CompV>>, ResolveError>(t@),
                Err(e) => resolve_targets_specs(
                    arg.2@,
                    arg.0@,
                    opt_ref_path_view(arg.1),
                ) == Err::<Seq<Seq<CompV>>, ResolveError>(e),
            },
    {
        let (prefix, input, spec) = arg;
        proof {
            assert(prefix@ == arg.0@);
            assert(input == arg.1);
            assert(spec@ == arg.2@);
        }
        let input_ref: Option<&FsPath> = match input {
            Some(p) => Some(p),
            None => None,
        };
        proof {
            assert(opt_path_view(input_ref) == opt_ref_path_view(input));
        }
        match &spec {
            TargetsSpec::Single(t) => {
                let ghost tsv = spec@;
                proof {
                    assert(tsv[0] == t@);
                    assert(tsv.drop_first() =~= Seq::<Seq<char>>::empty());
                }
                match t.resolve(&prefix, input_ref) {
                    Ok(p) => {
                        proof {
                            assert(resolve_targets_specs(
                                tsv.drop_first(),
                                prefix@,
                                opt_ref_path_view(input),
                            ) == Ok::<Seq<Seq<CompV>>, ResolveError>(Seq::empty()));
                            assert(resolve_targets_specs(tsv, prefix@, opt_ref_path_view(input))
                                == Ok::<Seq<Seq<CompV>>, ResolveError>(
                                seq![p@] + Seq::<Seq<CompV>>::empty(),
                            ));
                            assert(seq![p@] + Seq::<Seq<CompV>>::empty() =~= seq![p@]);
                        }
                        Ok(Targets::Single(p))
                    },
                    Err(e) => Err(e),
                }
            },
            TargetsSpec::Multi(_) => {
                let n = spec.len();
                let ghost tsv = spec@;
                let mut out: Vec<FsPath> = Vec::new();
                let mut i: usize = 0;
                proof {
                    assert(tsv.skip(0) =~= tsv);
                }
                while i < n
                    invariant
                        i <= n,
                        n == tsv.len(),
                        match resolve_targets_specs(
                            tsv.skip(i as int),
                            prefix@,
                            opt_ref_path_view(input),
                        ) {
                            Ok(ps) => resolve_targets_specs(
                                tsv,
                                prefix@,
                                opt_ref_path_view(input),
                            ) == Ok::<Seq<Seq<CompV>>, ResolveError>(views_of(out@) + ps),
                            Err(e) => resolve_targets_specs(
                                tsv,
                                prefix@,
                                opt_ref_path_view(input),
                            ) == Err::<Seq<Seq<CompV>>, ResolveError>(e),
                        },
                    decreases n - i,
                {
                    let ghost rest = tsv.skip(i as int);
                    proof {
                        assert(rest[0] == tsv[i as int]);
                        assert(rest.drop_first() =~= tsv.skip(i + 1));
                    }
                    match spec.get(i).resolve(&prefix, input_ref) {
                        Ok(p) => {
                            let ghost out0 = views_of(out@);
                            out.push(p);
                            proof {
                                if let Ok(ps) = resolve_targets_specs(
                                    tsv.skip(i + 1),
                                    prefix@,
                                    opt_ref_path_view(input),
                                ) {
                                    assert(views_of(out@) + ps =~= out0 + (seq![
                                        tsv_resolved(tsv, prefix@, opt_ref_path_view(input), i as int)
                                    ] + ps));
                                }
                            }
                        },
                        Err(e) => {
                            return Err(e);
                        },
                    }
                    i += 1;
                }
                proof {
                    assert(tsv.skip(n as int) =~= Seq::<Seq<char>>::empty());
                    assert(views_of(out@) + Seq::<Seq<CompV>>::empty() =~= views_of(out@));
                }
                Ok(Targets::Multi(out))
            },
        }
    }
}

/// The resolved path of the template at `i`, assuming it resolves.
pub open spec fn tsv_resolved(
    ts: Seq<Seq<char>>,
    prefix: Seq<CompV>,
    input: Option<Seq<CompV>>,
    i: int,
) -> Seq<CompV> {
    resolve_target_spec(ts[i], prefix, input)->Ok_0
}

/// The view of an optional owned path argument.
pub open spec fn opt_ref_path_view(input: &Option<FsPath>) -> Option<Seq<CompV>> {
    match input {
        Some(p) => Some(p@),
        None => None,
    }
}

} // verus!
