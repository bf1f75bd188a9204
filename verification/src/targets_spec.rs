//! Unexpanded output-path templates: literal text with `%%` and `%f`
//! markers, expanded against a target-directory prefix and an optional
//! input path.

use vstd::prelude::*;

use crate::path::{
    file_stem_of, join_spec, parse_path_spec, CompV, FsPath,
};
use crate::views::{group_views_of, views_of};

verus! {

broadcast use group_views_of;

/// Why a template could not be expanded.
#[derive(Clone, Copy, Debug, PartialEq, Eq, Structural)]
pub enum ResolveError {
    /// A `%` was followed by a character that is no marker.
    InvalidMarkerCharacter,
    /// The template ended directly after a `%`.
    MissingMarkerCharacter,
    /// `%f` occurred but the task consumes nothing.
    NoInput,
    /// `%f` occurred but the input path has no file stem.
    NoFileStem,
    /// The input path was no unicode text.
    NonUnicodeInputPath,
}

/// An unexpanded output path.
#[derive(Clone, Debug)]
pub struct TargetSpec {
    path: String,
}

impl View for TargetSpec {
    type V = Seq<char>;

    closed spec fn view(&self) -> Seq<char> {
        self.path@
    }
}

/// The stem that `%f` expands to, or the error it raises.
pub open spec fn stem_result(input: Option<Seq<CompV>>) -> Result<Seq<char>, ResolveError> {
    match input {
        None => Err(ResolveError::NoInput),
        Some(p) => match file_stem_of(p) {
            Some(st) => Ok(st),
            None => Err(ResolveError::NoFileStem),
        },
    }
}

/// Scan the template: `%%` emits `%`, `%f` emits the stem, anything else
/// after `%` is an error, and ordinary characters pass through.
pub open spec fn expand_from(s: Seq<char>, stem: Result<Seq<char>, ResolveError>) -> Result<
    Seq<char>,
    ResolveError,
>
    decreases s.len(),
{
    if s.len() == 0 {
        Ok(Seq::empty())
    } else if s[0] == '%' {
        if s.len() == 1 {
            Err(ResolveError::MissingMarkerCharacter)
        } else if s[1] == '%' {
            match expand_from(s.skip(2), stem) {
                Ok(t) => Ok(seq!['%'] + t),
                Err(e) => Err(e),
            }
        } else if s[1] == 'f' {
            match stem {
                Ok(st) => match expand_from(s.skip(2), stem) {
                    Ok(t) => Ok(st + t),
                    Err(e) => Err(e),
                },
                Err(e) => Err(e),
            }
        } else {
            Err(ResolveError::InvalidMarkerCharacter)
        }
    } else {
        match expand_from(s.drop_first(), stem) {
            Ok(t) => Ok(seq![s[0]] + t),
            Err(e) => Err(e),
        }
    }
}

/// What resolving one template against a prefix and an optional input path
/// yields: the expansion, read as a path, joined below the prefix.
pub open spec fn resolve_target_spec(
    ts: Seq<char>,
    prefix: Seq<CompV>,
    input: Option<Seq<CompV>>,
) -> Result<Seq<CompV>, ResolveError> {
    match expand_from(ts, stem_result(input)) {
        Ok(t) => Ok(join_spec(prefix, parse_path_spec(t))),
        Err(e) => Err(e),
    }
}

impl TargetSpec {
    /// Wrap a textual template.
    pub fn from_text(path: String) -> (r: TargetSpec)
        ensures
            r@ == path@,
    {
        TargetSpec { path }
    }

    /// The template's text.
    pub fn text(&self) -> (r: &String)
        ensures
            r@ == self@,
    {
        &self.path
    }

    /// A copy whose value equals this one.
    pub fn duplicate(&self) -> (r: TargetSpec)
        ensures
            r@ == self@,
    {
        TargetSpec { path: self.path.clone() }
    }

    /// Expand the template against `input` and put the result below
    /// `prefix`.
    #[verifier::loop_isolation(false)]
    pub fn resolve(&self, prefix: &FsPath, input: Option<&FsPath>) -> (r: Result<
        FsPath,
        ResolveError,
    >)
        ensures
            match r {
                Ok(p) => resolve_target_spec(self@, prefix@, opt_path_view(input)) == Ok::<
                    Seq<CompV>,
                    ResolveError,
                >(p@),
                Err(e) => resolve_target_spec(self@, prefix@, opt_path_view(input)) == Err::<
                    Seq<CompV>,
                    ResolveError,
                >(e),
            },
    {
        let ghost stem_spec = stem_result(opt_path_view(input));
        // The text `%f` expands to, or the error it will raise if it occurs.
        let stem: Result<String, ResolveError> = match input {
            None => Err(ResolveError::NoInput),
            Some(p) => match p.file_stem() {
                Some(st) => Ok(st),
                None => Err(ResolveError::NoFileStem),
            },
        };
        proof {
            match stem {
                Ok(ref st) => assert(stem_spec == Ok::<Seq<char>, ResolveError>(st@)),
                Err(e) => assert(stem_spec == Err::<Seq<char>, ResolveError>(e)),
            }
        }

        let s = self.path.as_str();
        let n = s.unicode_len();
        let mut out = String::new();
        let mut i: usize = 0;
        proof {
            assert(s@.skip(0) =~= s@);
        }
        while i < n
            invariant
                i <= n,
                match expand_from(s@.skip(i as int), stem_spec) {
                    Ok(t) => expand_from(s@, stem_spec) == Ok::<Seq<char>, ResolveError>(out@ + t),
                    Err(e) => expand_from(s@, stem_spec) == Err::<Seq<char>, ResolveError>(e),
                },
            decreases n - i,
        {
            let ghost rest = s@.skip(i as int);
            proof {
                assert(rest[0] == s@[i as int]);
                assert(rest.drop_first() =~= s@.skip(i + 1));
                if i + 2 <= n {
                    assert(rest.skip(2) =~= s@.skip(i + 2));
                    assert(rest[1] == s@[i + 1]);
                }
            }
            let c = s.get_char(i);
            if c == '%' {
                if i + 1 == n {
                    proof {
                        assert(rest.len() == 1);
                    }
                    return Err(ResolveError::MissingMarkerCharacter);
                }
                let m = s.get_char(i + 1);
                proof {
                    assert(rest[1] == s@[i + 1]);
                }
                if m == '%' {
                    let ghost out0 = out@;
                    out.append("%");
                    proof {
                        reveal_strlit("%");
                        assert("%"@ =~= seq!['%']);
                        if let Ok(t) = expand_from(s@.skip(i + 2), stem_spec) {
                            assert(out@ + t =~= out0 + (seq!['%'] + t));
                        }
                    }
                    i += 2;
                } else if m == 'f' {
                    match &stem {
                        Ok(st) => {
                            let ghost out0 = out@;
                            out.append(st.as_str());
                            proof {
                                if let Ok(t) = expand_from(s@.skip(i + 2), stem_spec) {
                                    assert(out@ + t =~= out0 + (st@ + t));
                                }
                            }
                            i += 2;
                        },
                        Err(e) => {
                            return Err(*e);
                        },
                    }
                } else {
                    return Err(ResolveError::InvalidMarkerCharacter);
                }
            } else {
                let piece = s.substring_char(i, i + 1);
                let ghost out0 = out@;
                out.append(piece);
                proof {
                    assert(piece@ =~= seq![s@[i as int]]);
                    if let Ok(t) = expand_from(s@.skip(i + 1), stem_spec) {
                        assert(out@ + t =~= out0 + (seq![s@[i as int]] + t));
                    }
                }
                i += 1;
            }
        }
        proof {
            assert(s@.skip(n as int) =~= Seq::<char>::empty());
            assert(out@ + Seq::<char>::empty() =~= out@);
        }
        let parsed = FsPath::parse(out.as_str());
        Ok(prefix.join(&parsed))
    }
}

/// The view of an optional path argument.
pub open spec fn opt_path_view(input: Option<&FsPath>) -> Option<Seq<CompV>> {
    match input {
        Some(p) => Some(p@),
        None => None,
    }
}

/// One output path, or an ordered list of them.
#[derive(Clone, Debug)]
pub enum TargetsSpec {
    Single(TargetSpec),
    Multi(Vec<TargetSpec>),
}

impl View for TargetsSpec {
    type V = Seq<Seq<char>>;

    open spec fn view(&self) -> Seq<Seq<char>> {
        match self {
            TargetsSpec::Single(t) => seq![t@],
            TargetsSpec::Multi(ts) => views_of(ts@),
        }
    }
}

impl TargetsSpec {
    /// How many templates the value holds.
    pub fn len(&self) -> (r: usize)
        ensures
            r == self@.len(),
    {
        match self {
            TargetsSpec::Single(_) => 1,
            TargetsSpec::Multi(ts) => ts.len(),
        }
    }

    /// The template at `index`.
    pub fn get(&self, index: usize) -> (r: &TargetSpec)
        requires
            index < self@.len(),
        ensures
            r@ == self@[index as int],
    {
        match self {
            TargetsSpec::Single(t) => t,
            TargetsSpec::Multi(ts) => &ts[index],
        }
    }

    /// A copy whose value equals this one.
    pub fn duplicate(&self) -> (r: TargetsSpec)
        ensures
            r@ == self@,
    {
        match self {
            TargetsSpec::Single(t) => TargetsSpec::Single(t.duplicate()),
            TargetsSpec::Multi(ts) => {
                let mut out: Vec<TargetSpec> = Vec::new();
                let n = ts.len();
                let mut i: usize = 0;
                while i < n
                    invariant
                        i <= n,
                        n == ts@.len(),
                        views_of(out@) =~= views_of(ts@).take(i as int),
                    decreases n - i,
                {
                    out.push(ts[i].duplicate());
                    proof {
                        assert(views_of(out@) =~= views_of(ts@).take(i + 1));
                    }
                    i += 1;
                }
                proof {
                    assert(views_of(ts@).take(n as int) =~= views_of(ts@));
                }
                TargetsSpec::Multi(out)
            },
        }
    }

    /// Wrap a list of textual templates; a single entry becomes the single
    /// variant.
    pub fn from_texts(mut paths: Vec<String>) -> (r: TargetsSpec)
        ensures
            r@.len() == paths@.len(),
            forall|i: int| 0 <= i < paths@.len() ==> r@[i] == paths@[i]@,
    {
        if paths.len() == 1 {
            let p = paths.pop().unwrap();
            let r = TargetsSpec::Single(TargetSpec { path: p });
            r
        } else {
            let mut out: Vec<TargetSpec> = Vec::new();
            let n = paths.len();
            let ghost pv = paths@;
            let mut i: usize = 0;
            while i < n
                invariant
                    i <= n,
                    n == pv.len(),
                    paths@ =~= pv.skip(i as int),
                    views_of(out@).len() == i,
                    forall|k: int| 0 <= k < i ==> views_of(out@)[k] == pv[k]@,
                decreases n - i,
            {
                let p = paths.remove(0);
                proof {
                    assert(p == pv[i as int]);
                    assert(paths@ =~= pv.skip(i + 1));
                }
                out.push(TargetSpec { path: p });
                i += 1;
            }
            TargetsSpec::Multi(out)
        }
    }
}

} // verus!
