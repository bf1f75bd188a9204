//! Logical paths: sequences of components, normalised and rebased against a
//! context root.

use vstd::prelude::*;

use crate::views::{group_views_of, views_of};

verus! {

broadcast use group_views_of;

/// One component of a path, mirroring the usual operating-system notions:
/// the root separator, the current directory, the parent directory, a
/// drive or share prefix, and a normal name.
#[derive(Clone, Debug)]
pub enum Component {
    RootDir,
    CurDir,
    ParentDir,
    Prefix(String),
    Normal(String),
}

/// The mathematical value of a `Component`.
pub enum CompV {
    Root,
    Cur,
    Parent,
    Pre(Seq<char>),
    Name(Seq<char>),
}

impl View for Component {
    type V = CompV;

    closed spec fn view(&self) -> CompV {
        match self {
            Component::RootDir => CompV::Root,
            Component::CurDir => CompV::Cur,
            Component::ParentDir => CompV::Parent,
            Component::Prefix(s) => CompV::Pre(s@),
            Component::Normal(s) => CompV::Name(s@),
        }
    }
}

impl Component {
    /// A copy whose value equals this one.
    pub fn duplicate(&self) -> (r: Component)
        ensures
            r@ == self@,
    {
        match self {
            Component::RootDir => Component::RootDir,
            Component::CurDir => Component::CurDir,
            Component::ParentDir => Component::ParentDir,
            Component::Prefix(s) => Component::Prefix(s.clone()),
            Component::Normal(s) => Component::Normal(s.clone()),
        }
    }

    /// Decides whether two components denote the same thing.
    pub fn matches(&self, other: &Component) -> (r: bool)
        ensures
            r <==> self@ == other@,
    {
        match self {
            Component::RootDir => match other {
                Component::RootDir => true,
                _ => false,
            },
            Component::CurDir => match other {
                Component::CurDir => true,
                _ => false,
            },
            Component::ParentDir => match other {
                Component::ParentDir => true,
                _ => false,
            },
            Component::Prefix(a) => match other {
                Component::Prefix(b) => *a == *b,
                _ => false,
            },
            Component::Normal(a) => match other {
                Component::Normal(b) => *a == *b,
                _ => false,
            },
        }
    }
}

/// A path: a sequence of components.  Absolute paths begin with `Root` or a
/// prefix; all other paths are relative.
#[derive(Clone, Debug)]
pub struct FsPath {
    components: Vec<Component>,
}

impl View for FsPath {
    type V = Seq<CompV>;

    closed spec fn view(&self) -> Seq<CompV> {
        views_of(self.components@)
    }
}

/// Whether a path value stands on its own rather than below some base
/// directory.
pub open spec fn is_absolute_spec(p: Seq<CompV>) -> bool {
    p.len() > 0 && (p[0] is Root || p[0] is Pre)
}

impl FsPath {
    /// The empty path.
    pub fn empty() -> (r: FsPath)
        ensures
            r@ == Seq::<CompV>::empty(),
    {
        let r = FsPath { components: Vec::new() };
        proof {
            assert(r@ =~= Seq::<CompV>::empty());
        }
        r
    }

    /// A copy whose value equals this one.
    pub fn duplicate(&self) -> (r: FsPath)
        ensures
            r@ == self@,
    {
        let mut components: Vec<Component> = Vec::new();
        let n = self.components.len();
        let mut i: usize = 0;
        while i < n
            invariant
                i <= n,
                n == self.components@.len(),
                views_of(components@) =~= self@.take(i as int),
            decreases n - i,
        {
            components.push(self.components[i].duplicate());
            proof {
                assert(views_of(components@) =~= self@.take(i + 1));
            }
            i += 1;
        }
        proof {
            assert(self@.take(n as int) =~= self@);
        }
        FsPath { components }
    }

    pub fn from_components(components: Vec<Component>) -> (r: FsPath)
        ensures
            r@ == views_of(components@),
    {
        FsPath { components }
    }

    /// The number of components.
    pub fn len(&self) -> (r: usize)
        ensures
            r == self@.len(),
    {
        self.components.len()
    }

    /// The component at `i`.
    pub fn component(&self, i: usize) -> (r: &Component)
        requires
            i < self@.len(),
        ensures
            r@ == self@[i as int],
    {
        &self.components[i]
    }

    pub fn is_absolute(&self) -> (r: bool)
        ensures
            r <==> is_absolute_spec(self@),
    {
        if self.components.len() == 0 {
            false
        } else {
            let r = match &self.components[0] {
                Component::RootDir => true,
                Component::Prefix(_) => true,
                _ => false,
            };
            proof {
                assert(self@[0] == self.components@[0]@);
            }
            r
        }
    }

    /// Decides componentwise equality.
    pub fn matches(&self, other: &FsPath) -> (r: bool)
        ensures
            r <==> self@ == other@,
    {
        if self.components.len() != other.components.len() {
            proof {
                assert(self@.len() != other@.len());
            }
            return false;
        }
        let n = self.components.len();
        let mut i: usize = 0;
        while i < n
            invariant
                n == self.components@.len(),
                n == other.components@.len(),
                i <= n,
                forall|k: int| 0 <= k < i ==> self@[k] == other@[k],
            decreases n - i,
        {
            if !self.components[i].matches(&other.components[i]) {
                proof {
                    assert(self@[i as int] != other@[i as int]);
                }
                return false;
            }
            i += 1;
        }
        proof {
            assert(self@ =~= other@);
        }
        true
    }

    /// The concatenation of `self` and `other` when `other` is relative;
    /// `other` alone when it is absolute.  This is how a path is pushed onto
    /// a directory.
    pub fn join(&self, other: &FsPath) -> (r: FsPath)
        ensures
            r@ == join_spec(self@, other@),
    {
        if other.is_absolute() {
            other.duplicate()
        } else {
            let mut components: Vec<Component> = Vec::new();
            let n = self.components.len();
            let mut i: usize = 0;
            while i < n
                invariant
                    i <= n,
                    n == self.components@.len(),
                    views_of(components@) =~= self@.take(i as int),
                decreases n - i,
            {
                components.push(self.components[i].duplicate());
                proof {
                    assert(views_of(components@) =~= self@.take(i + 1));
                }
                i += 1;
            }
            let m = other.components.len();
            let mut j: usize = 0;
            while j < m
                invariant
                    j <= m,
                    m == other.components@.len(),
                    views_of(components@) =~= self@.take(n as int) + other@.take(j as int),
                decreases m - j,
            {
                components.push(other.components[j].duplicate());
                proof {
                    assert(views_of(components@) =~= self@.take(n as int) + other@.take(j + 1));
                }
                j += 1;
            }
            proof {
                assert(self@.take(n as int) =~= self@);
                assert(other@.take(m as int) =~= other@);
            }
            FsPath { components }
        }
    }
}

/// Joining: an absolute path replaces the base it is joined onto.
pub open spec fn join_spec(base: Seq<CompV>, p: Seq<CompV>) -> Seq<CompV> {
    if is_absolute_spec(p) {
        p
    } else {
        base + p
    }
}

/// Why a path could not be normalised.
#[derive(Clone, Copy, Debug, PartialEq, Eq, Structural)]
pub enum Error {
    /// A `..` component tried to climb above the first component.
    Underflow,
    /// A drive or share prefix occurred; those are not supported.
    PrefixUnsupported,
}

/// Normalisation: walk the components of `s`, dropping `.`, popping the
/// accumulator on `..` (failing if there is nothing to pop), refusing
/// prefixes, and keeping everything else.
pub open spec fn norm_from(acc: Seq<CompV>, s: Seq<CompV>) -> Result<Seq<CompV>, Error>
    decreases s.len(),
{
    if s.len() == 0 {
        Ok(acc)
    } else {
        match s[0] {
            CompV::Cur => norm_from(acc, s.drop_first()),
            CompV::Parent => if acc.len() == 0 {
                Err(Error::Underflow)
            } else {
                norm_from(acc.drop_last(), s.drop_first())
            },
            CompV::Pre(_) => Err(Error::PrefixUnsupported),
            _ => norm_from(acc.push(s[0]), s.drop_first()),
        }
    }
}

/// The number of leading components `a` and `b` agree on.
pub open spec fn shared_len(a: Seq<CompV>, b: Seq<CompV>) -> nat
    decreases a.len(),
{
    if a.len() == 0 || b.len() == 0 || a[0] != b[0] {
        0
    } else {
        1 + shared_len(a.drop_first(), b.drop_first())
    }
}

/// `n` components, each `..`.
pub open spec fn parents(n: nat) -> Seq<CompV> {
    Seq::new(n, |i: int| CompV::Parent)
}

/// Rebase a normalised path against the context: one `..` for every context
/// component past the shared prefix, then the trailing components.
pub open spec fn rebase_spec(context: Seq<CompV>, norm: Seq<CompV>) -> Seq<CompV> {
    let k = shared_len(context, norm);
    parents((context.len() - k) as nat) + norm.skip(k as int)
}

/// What relativisation returns: the path (absolute as given, otherwise put
/// below `base`) is normalised and then rebased against `context`.
pub open spec fn relativise_spec(context: Seq<CompV>, base: Seq<CompV>, p: Seq<CompV>) -> Result<
    Seq<CompV>,
    Error,
> {
    match norm_from(Seq::empty(), join_spec(base, p)) {
        Ok(n) => Ok(rebase_spec(context, n)),
        Err(e) => Err(e),
    }
}

proof fn lemma_shared_len_char(a: Seq<CompV>, b: Seq<CompV>, k: nat)
    requires
        k <= a.len(),
        k <= b.len(),
        forall|i: int| 0 <= i < k ==> a[i] == b[i],
        k < a.len() && k < b.len() ==> a[k as int] != b[k as int],
    ensures
        shared_len(a, b) == k,
    decreases k,
{
    if k == 0 {
    } else {
        assert(a[0] == b[0]);
        let a1 = a.drop_first();
        let b1 = b.drop_first();
        assert(forall|i: int| 0 <= i < k - 1 ==> a1[i] == b1[i]);
        lemma_shared_len_char(a1, b1, (k - 1) as nat);
    }
}

/// Rebases paths against a fixed base directory and a context root.
pub struct Relativiser {
    base: FsPath,
}

impl Relativiser {
    pub closed spec fn base_view(&self) -> Seq<CompV> {
        self.base@
    }

    pub fn new(base: FsPath) -> (r: Self)
        ensures
            r.base_view() == base@,
    {
        Self { base }
    }

    /// Convert `path` into a normalised path relative to `context`.
    #[verifier::loop_isolation(false)]
    pub fn relativise(&self, context: &FsPath, path: &FsPath) -> (r: Result<FsPath, Error>)
        ensures
            match r {
                Ok(p) => relativise_spec(context@, self.base_view(), path@) == Ok::<
                    Seq<CompV>,
                    Error,
                >(p@),
                Err(e) => relativise_spec(context@, self.base_view(), path@) == Err::<
                    Seq<CompV>,
                    Error,
                >(e),
            },
    {
        // Assemble the absolute form of the input.
        let abs: FsPath = self.base.join(path);
        let ghost absv: Seq<CompV> = abs@;

        // Normalise.
        let mut out: Vec<Component> = Vec::new();
        proof {
            assert(absv.skip(0) =~= absv);
            assert(views_of(out@) =~= Seq::<CompV>::empty());
        }
        let an = abs.components.len();
        let mut i: usize = 0;
        while i < an
            invariant
                i <= an,
                an == abs.components@.len(),
                absv == abs@,
                norm_from(Seq::empty(), absv) == norm_from(views_of(out@), absv.skip(i as int)),
            decreases an - i,
        {
            let ghost outv = views_of(out@);
            let ghost rest = absv.skip(i as int);
            proof {
                assert(rest[0] == absv[i as int]);
                assert(rest.drop_first() =~= absv.skip(i + 1));
                assert(absv[i as int] == abs.components@[i as int]@);
            }
            match &abs.components[i] {
                Component::CurDir => {
                    proof {
                        assert(norm_from(outv, rest) == norm_from(outv, absv.skip(i + 1)));
                    }
                },
                Component::ParentDir => {
                    if out.len() == 0 {
                        proof {
                            assert(outv.len() == 0);
                            assert(norm_from(Seq::empty(), absv) == Err::<Seq<CompV>, Error>(
                                Error::Underflow,
                            ));
                        }
                        return Err(Error::Underflow);
                    }
                    out.pop();
                    proof {
                        assert(views_of(out@) =~= outv.drop_last());
                    }
                },
                Component::Prefix(_) => {
                    proof {
                        assert(norm_from(Seq::empty(), absv) == Err::<Seq<CompV>, Error>(
                            Error::PrefixUnsupported,
                        ));
                    }
                    return Err(Error::PrefixUnsupported);
                },
                _ => {
                    let c = abs.components[i].duplicate();
                    proof {
                        assert(!(c@ is Cur) && !(c@ is Parent) && !(c@ is Pre));
                    }
                    out.push(c);
                    proof {
                        assert(views_of(out@) =~= outv.push(absv[i as int]));
                    }
                },
            }
            i += 1;
        }
        proof {
            assert(absv.skip(an as int) =~= Seq::<CompV>::empty());
            assert(norm_from(Seq::empty(), absv) == Ok::<Seq<CompV>, Error>(views_of(out@)));
        }
        let ghost normv: Seq<CompV> = views_of(out@);

        // Longest shared prefix with the context.
        let cn = context.components.len();
        let nn = out.len();
        let mut k: usize = 0;
        while k < cn && k < nn && context.components[k].matches(&out[k])
            invariant
                k <= cn,
                k <= nn,
                cn == context.components@.len(),
                nn == out@.len(),
                normv == views_of(out@),
                forall|i2: int| 0 <= i2 < k ==> context@[i2] == normv[i2],
            decreases cn - k,
        {
            proof {
                assert(context@[k as int] == context.components@[k as int]@);
                assert(normv[k as int] == out@[k as int]@);
            }
            k += 1;
        }
        proof {
            if k < cn && k < nn {
                assert(context@[k as int] == context.components@[k as int]@);
                assert(normv[k as int] == out@[k as int]@);
            }
            assert(context@.len() == cn);
            lemma_shared_len_char(context@, normv, k as nat);
        }

        // One `..` per remaining context component, then the tail.
        let mut res: Vec<Component> = Vec::new();
        let mut j2: usize = k;
        while j2 < cn
            invariant
                k <= j2 <= cn,
                views_of(res@) =~= parents((j2 - k) as nat),
            decreases cn - j2,
        {
            res.push(Component::ParentDir);
            proof {
                assert(views_of(res@) =~= parents((j2 + 1 - k) as nat));
            }
            j2 += 1;
        }
        let mut j3: usize = k;
        while j3 < nn
            invariant
                k <= j3 <= nn,
                nn == out@.len(),
                normv == views_of(out@),
                k <= cn,
                views_of(res@) =~= parents((cn - k) as nat) + normv.subrange(k as int, j3 as int),
            decreases nn - j3,
        {
            res.push(out[j3].duplicate());
            proof {
                assert(views_of(res@) =~= parents((cn - k) as nat) + normv.subrange(
                    k as int,
                    j3 + 1,
                ));
            }
            j3 += 1;
        }
        proof {
            assert(normv.subrange(k as int, nn as int) =~= normv.skip(k as int));
            assert(views_of(res@) =~= rebase_spec(context@, normv));
        }
        Ok(FsPath { components: res })
    }
}

/// Split `s` on `/` into non-empty segments, with `cur` the segment being
/// read and `acc` the segments already read.
pub open spec fn segments_from(s: Seq<char>, cur: Seq<char>, acc: Seq<Seq<char>>) -> Seq<Seq<char>>
    decreases s.len(),
{
    if s.len() == 0 {
        if cur.len() == 0 {
            acc
        } else {
            acc.push(cur)
        }
    } else if s[0] == '/' {
        if cur.len() == 0 {
            segments_from(s.drop_first(), Seq::empty(), acc)
        } else {
            segments_from(s.drop_first(), Seq::empty(), acc.push(cur))
        }
    } else {
        segments_from(s.drop_first(), cur.push(s[0]), acc)
    }
}

/// What one textual segment denotes.
pub open spec fn seg_to_comp(seg: Seq<char>) -> CompV {
    if seg == seq!['.'] {
        CompV::Cur
    } else if seg == seq!['.', '.'] {
        CompV::Parent
    } else {
        CompV::Name(seg)
    }
}

pub open spec fn comps_of_segs(segs: Seq<Seq<char>>) -> Seq<CompV>
    decreases segs.len(),
{
    if segs.len() == 0 {
        Seq::empty()
    } else {
        comps_of_segs(segs.drop_last()).push(seg_to_comp(segs.last()))
    }
}

/// Reading a path out of text: a leading `/` makes it absolute; the rest is
/// split on `/`, empty segments dropped, `.` and `..` recognised.
pub open spec fn parse_path_spec(s: Seq<char>) -> Seq<CompV> {
    let tail = comps_of_segs(segments_from(s, Seq::empty(), Seq::empty()));
    if s.len() > 0 && s[0] == '/' {
        seq![CompV::Root] + tail
    } else {
        tail
    }
}

proof fn lemma_comps_of_segs_push(segs: Seq<Seq<char>>, seg: Seq<char>)
    ensures
        comps_of_segs(segs.push(seg)) == comps_of_segs(segs).push(seg_to_comp(seg)),
{
    assert(segs.push(seg).drop_last() =~= segs);
    assert(segs.push(seg).last() == seg);
}

/// The text of one component.
pub open spec fn comp_text(c: CompV) -> Seq<char> {
    match c {
        CompV::Root => seq!['/'],
        CompV::Cur => seq!['.'],
        CompV::Parent => seq!['.', '.'],
        CompV::Pre(s) => s,
        CompV::Name(s) => s,
    }
}

/// Components joined by `/`, except that nothing follows the root directly.
pub open spec fn render_rest(p: Seq<CompV>, need_sep: bool) -> Seq<char>
    decreases p.len(),
{
    if p.len() == 0 {
        Seq::empty()
    } else {
        (if need_sep {
            seq!['/']
        } else {
            Seq::<char>::empty()
        }) + comp_text(p[0]) + render_rest(p.drop_first(), !(p[0] is Root))
    }
}

/// The textual form of a path.
pub open spec fn render_path(p: Seq<CompV>) -> Seq<char> {
    render_rest(p, false)
}

/// The index of the last `.` in `nm`, or `-1` when there is none.
pub open spec fn last_dot(nm: Seq<char>) -> int
    decreases nm.len(),
{
    if nm.len() == 0 {
        -1
    } else if nm.last() == '.' {
        nm.len() - 1
    } else {
        last_dot(nm.drop_last())
    }
}

/// The stem of a file name: everything before the last `.`, unless the only
/// `.` leads the name or there is none, in which case the whole name.
pub open spec fn stem_of_name(nm: Seq<char>) -> Seq<char> {
    let j = last_dot(nm);
    if j <= 0 {
        nm
    } else {
        nm.take(j)
    }
}

/// The extension of a file name: everything after the last `.`, on the same
/// terms as `stem_of_name`.
pub open spec fn ext_of_name(nm: Seq<char>) -> Option<Seq<char>> {
    let j = last_dot(nm);
    if j <= 0 {
        None
    } else {
        Some(nm.skip(j + 1))
    }
}

/// The stem of the last component, when that component is a normal name.
pub open spec fn file_stem_of(p: Seq<CompV>) -> Option<Seq<char>> {
    if p.len() > 0 && p.last() is Name {
        Some(stem_of_name(p.last()->Name_0))
    } else {
        None
    }
}

/// The extension of the last component, when that component is a normal name.
pub open spec fn extension_of(p: Seq<CompV>) -> Option<Seq<char>> {
    if p.len() > 0 && p.last() is Name {
        ext_of_name(p.last()->Name_0)
    } else {
        None
    }
}

impl FsPath {
    /// Read a path out of text: split on `/`, empty segments dropped, `.`
    /// and `..` recognised, a leading `/` making it absolute.
    #[verifier::loop_isolation(false)]
    pub fn parse(s: &str) -> (r: FsPath)
        ensures
            r@ == parse_path_spec(s@),
    {
        let n = s.unicode_len();
        let mut components: Vec<Component> = Vec::new();
        if n > 0 && s.get_char(0) == '/' {
            components.push(Component::RootDir);
        }
        let ghost rootv: Seq<CompV> = views_of(components@);
        let mut seg_start: usize = if n > 0 && s.get_char(0) == '/' {
            1
        } else {
            0
        };
        let ghost segs: Seq<Seq<char>> = Seq::empty();
        let mut i: usize = seg_start;
        proof {
            assert(s@.subrange(seg_start as int, seg_start as int) =~= Seq::<char>::empty());
            assert(rootv + comps_of_segs(segs) =~= rootv);
            if n > 0 && s@[0] == '/' {
                assert(s@.skip(1) =~= s@.drop_first());
                assert(segments_from(s@, Seq::empty(), Seq::empty()) == segments_from(
                    s@.drop_first(),
                    Seq::empty(),
                    Seq::empty(),
                ));
            } else {
                assert(s@.skip(0) =~= s@);
            }
        }
        while i < n
            invariant
                seg_start <= i <= n,
                views_of(components@) =~= rootv + comps_of_segs(segs),
                s@.subrange(seg_start as int, i as int).len() == i - seg_start,
                segments_from(s@, Seq::empty(), Seq::empty()) == segments_from(
                    s@.skip(i as int),
                    s@.subrange(seg_start as int, i as int),
                    segs,
                ),
            decreases n - i,
        {
            let ghost cur = s@.subrange(seg_start as int, i as int);
            let ghost rest = s@.skip(i as int);
            proof {
                assert(rest[0] == s@[i as int]);
                assert(rest.drop_first() =~= s@.skip(i + 1));
            }
            let c = s.get_char(i);
            if c == '/' {
                if i > seg_start {
                    let seg = s.substring_char(seg_start, i);
                    let comp = classify_segment(seg);
                    components.push(comp);
                    proof {
                        lemma_comps_of_segs_push(segs, cur);
                        assert(views_of(components@) =~= rootv + comps_of_segs(segs.push(cur)));
                    }
                    proof {
                        segs = segs.push(cur);
                    }
                }
                seg_start = i + 1;
                proof {
                    assert(s@.subrange(i + 1, i + 1) =~= Seq::<char>::empty());
                }
            } else {
                proof {
                    assert(s@.subrange(seg_start as int, i + 1) =~= cur.push(s@[i as int]));
                }
            }
            i += 1;
        }
        if i > seg_start {
            let seg = s.substring_char(seg_start, i);
            let comp = classify_segment(seg);
            components.push(comp);
            proof {
                let ghost cur = s@.subrange(seg_start as int, i as int);
                lemma_comps_of_segs_push(segs, cur);
                assert(views_of(components@) =~= rootv + comps_of_segs(segs.push(cur)));
                segs = segs.push(cur);
            }
        }
        proof {
            assert(s@.skip(n as int) =~= Seq::<char>::empty());
            assert(parse_path_spec(s@) =~= rootv + comps_of_segs(segs));
        }
        FsPath { components }
    }

    /// The textual form of this path, components joined by `/`.
    #[verifier::loop_isolation(false)]
    pub fn to_text(&self) -> (r: String)
        ensures
            r@ == render_path(self@),
    {
        let mut out = String::new();
        let mut need_sep = false;
        let n = self.components.len();
        let mut i: usize = 0;
        proof {
            assert(self@.skip(0) =~= self@);
        }
        while i < n
            invariant
                i <= n,
                render_path(self@) == out@ + render_rest(self@.skip(i as int), need_sep),
            decreases n - i,
        {
            let ghost rest = self@.skip(i as int);
            proof {
                assert(rest[0] == self@[i as int]);
                assert(rest.drop_first() =~= self@.skip(i + 1));
                assert(self@[i as int] == self.components@[i as int]@);
                reveal_strlit("/");
                reveal_strlit(".");
                reveal_strlit("..");
            }
            if need_sep {
                out.append("/");
                proof {
                    assert("/"@ =~= seq!['/']);
                }
            }
            let is_root: bool;
            match &self.components[i] {
                Component::RootDir => {
                    out.append("/");
                    is_root = true;
                    proof {
                        assert("/"@ =~= seq!['/']);
                    }
                },
                Component::CurDir => {
                    out.append(".");
                    is_root = false;
                    proof {
                        assert("."@ =~= seq!['.']);
                    }
                },
                Component::ParentDir => {
                    out.append("..");
                    is_root = false;
                    proof {
                        assert(".."@ =~= seq!['.', '.']);
                    }
                },
                Component::Prefix(p) => {
                    out.append(p.as_str());
                    is_root = false;
                },
                Component::Normal(nm) => {
                    out.append(nm.as_str());
                    is_root = false;
                },
            }
            need_sep = !is_root;
            i += 1;
        }
        proof {
            assert(self@.skip(n as int) =~= Seq::<CompV>::empty());
            assert(render_path(self@) =~= out@);
        }
        out
    }

    /// The stem of the file this path names, when its last component is a
    /// normal name.
    pub fn file_stem(&self) -> (r: Option<String>)
        ensures
            match r {
                Some(st) => file_stem_of(self@) == Some(st@),
                None => file_stem_of(self@) is None,
            },
    {
        let n = self.components.len();
        if n == 0 {
            proof {
                assert(self@.len() == 0);
            }
            return None;
        }
        proof {
            assert(self@.last() == self.components@.last()@);
        }
        match &self.components[n - 1] {
            Component::Normal(nm) => {
                let ghost nmv = nm@;
                match last_dot_at(nm.as_str()) {
                    Some(j) => {
                        if j > 0 {
                            let st = nm.as_str().substring_char(0, j);
                            proof {
                                assert(nmv.subrange(0, j as int) =~= nmv.take(j as int));
                            }
                            Some(String::from_str(st))
                        } else {
                            Some(nm.clone())
                        }
                    },
                    None => Some(nm.clone()),
                }
            },
            _ => None,
        }
    }

    /// The extension of the file this path names, when its last component is
    /// a normal name.
    pub fn extension(&self) -> (r: Option<String>)
        ensures
            match r {
                Some(e) => extension_of(self@) == Some(e@),
                None => extension_of(self@) is None,
            },
    {
        let n = self.components.len();
        if n == 0 {
            proof {
                assert(self@.len() == 0);
            }
            return None;
        }
        proof {
            assert(self@.last() == self.components@.last()@);
        }
        match &self.components[n - 1] {
            Component::Normal(nm) => {
                match last_dot_at(nm.as_str()) {
                    Some(j) => {
                        if j > 0 {
                            let ln = nm.as_str().unicode_len();
                            let e = nm.as_str().substring_char(j + 1, ln);
                            proof {
                                assert(nm@.subrange(j + 1, ln as int) =~= nm@.skip(j + 1));
                            }
                            Some(String::from_str(e))
                        } else {
                            None
                        }
                    },
                    None => None,
                }
            },
            _ => None,
        }
    }
}

/// Which component a non-empty textual segment denotes.
fn classify_segment(seg: &str) -> (r: Component)
    ensures
        r@ == seg_to_comp(seg@),
{
    let n = seg.unicode_len();
    if n == 1 && seg.get_char(0) == '.' {
        proof {
            assert(seg@ =~= seq!['.']);
        }
        Component::CurDir
    } else if n == 2 && seg.get_char(0) == '.' && seg.get_char(1) == '.' {
        proof {
            assert(seg@ =~= seq!['.', '.']);
        }
        Component::ParentDir
    } else {
        proof {
            assert(seg@ != seq!['.'] && seg@ != seq!['.', '.']);
        }
        Component::Normal(String::from_str(seg))
    }
}

/// The index of the last `.` in `nm`, when there is one.
fn last_dot_at(nm: &str) -> (r: Option<usize>)
    ensures
        match r {
            Some(j) => j < nm@.len() && last_dot(nm@) == j,
            None => last_dot(nm@) == -1,
        },
{
    let n = nm.unicode_len();
    let mut i: usize = n;
    proof {
        assert(nm@.take(n as int) =~= nm@);
    }
    while i > 0
        invariant
            i <= n,
            n == nm@.len(),
            last_dot(nm@) == last_dot(nm@.take(i as int)),
        decreases i,
    {
        let ghost pre = nm@.take(i as int);
        proof {
            assert(pre.last() == nm@[i - 1]);
            assert(pre.drop_last() =~= nm@.take(i - 1));
        }
        if nm.get_char(i - 1) == '.' {
            return Some(i - 1);
        }
        i -= 1;
    }
    proof {
        assert(nm@.take(0) =~= Seq::<char>::empty());
    }
    None
}

/// No `.`, `..`, or prefix components: the shape normalisation produces.
pub open spec fn is_clean(s: Seq<CompV>) -> bool {
    forall|i: int| 0 <= i < s.len() ==> !((#[trigger] s[i]) is Cur || s[i] is Parent || s[i] is Pre)
}

/// The root, if present at all, stands first.
pub open spec fn root_only_first(s: Seq<CompV>) -> bool {
    forall|i: int| 1 <= i < s.len() ==> !((#[trigger] s[i]) is Root)
}

proof fn lemma_norm_clean(acc: Seq<CompV>, s: Seq<CompV>)
    requires
        is_clean(s),
    ensures
        norm_from(acc, s) == Ok::<Seq<CompV>, Error>(acc + s),
    decreases s.len(),
{
    if s.len() == 0 {
        assert(acc + s =~= acc);
    } else {
        assert(s[0] == s.index(0));
        assert(is_clean(s.drop_first())) by {
            assert(forall|i: int|
                0 <= i < s.drop_first().len() ==> #[trigger] s.drop_first()[i] == s[i + 1]);
        }
        lemma_norm_clean(acc.push(s[0]), s.drop_first());
        assert(acc.push(s[0]) + s.drop_first() =~= acc + s);
    }
}

proof fn lemma_norm_clean_preserved(acc: Seq<CompV>, s: Seq<CompV>)
    requires
        is_clean(acc),
        norm_from(acc, s) is Ok,
    ensures
        is_clean(norm_from(acc, s)->Ok_0),
    decreases s.len(),
{
    if s.len() == 0 {
    } else {
        match s[0] {
            CompV::Cur => {
                lemma_norm_clean_preserved(acc, s.drop_first());
            },
            CompV::Parent => {
                assert(is_clean(acc.drop_last())) by {
                    assert(forall|i: int|
                        0 <= i < acc.drop_last().len() ==> #[trigger] acc.drop_last()[i]
                            == acc[i]);
                }
                lemma_norm_clean_preserved(acc.drop_last(), s.drop_first());
            },
            CompV::Pre(_) => {},
            _ => {
                assert(is_clean(acc.push(s[0]))) by {
                    assert(forall|i: int|
                        0 <= i < acc.len() ==> #[trigger] acc.push(s[0])[i] == acc[i]);
                    assert(acc.push(s[0])[acc.len() as int] == s[0]);
                }
                lemma_norm_clean_preserved(acc.push(s[0]), s.drop_first());
            },
        }
    }
}

proof fn lemma_norm_append(acc: Seq<CompV>, s1: Seq<CompV>, s2: Seq<CompV>)
    ensures
        norm_from(acc, s1 + s2) == match norm_from(acc, s1) {
            Ok(m) => norm_from(m, s2),
            Err(e) => Err(e),
        },
    decreases s1.len(),
{
    if s1.len() == 0 {
        assert(s1 + s2 =~= s2);
    } else {
        let t = s1 + s2;
        assert(t[0] == s1[0]);
        assert(t.drop_first() =~= s1.drop_first() + s2);
        match s1[0] {
            CompV::Cur => {
                lemma_norm_append(acc, s1.drop_first(), s2);
            },
            CompV::Parent => {
                if acc.len() > 0 {
                    lemma_norm_append(acc.drop_last(), s1.drop_first(), s2);
                }
            },
            CompV::Pre(_) => {},
            _ => {
                lemma_norm_append(acc.push(s1[0]), s1.drop_first(), s2);
            },
        }
    }
}

proof fn lemma_norm_parents(acc: Seq<CompV>, j: nat)
    ensures
        norm_from(acc, parents(j)) == if j <= acc.len() {
            Ok::<Seq<CompV>, Error>(acc.take((acc.len() - j) as int))
        } else {
            Err::<Seq<CompV>, Error>(Error::Underflow)
        },
    decreases j,
{
    if j == 0 {
        assert(parents(0).len() == 0);
        assert(acc.take(acc.len() as int) =~= acc);
    } else {
        assert(parents(j)[0] is Parent);
        assert(parents(j).drop_first() =~= parents((j - 1) as nat));
        if acc.len() > 0 {
            lemma_norm_parents(acc.drop_last(), (j - 1) as nat);
            if j <= acc.len() {
                assert(acc.drop_last().take((acc.len() - j) as int) =~= acc.take(
                    (acc.len() - j) as int,
                ));
            }
        }
    }
}

proof fn lemma_norm_root_only(acc: Seq<CompV>, s: Seq<CompV>)
    requires
        root_only_first(acc),
        forall|i: int| 1 <= i < s.len() ==> !((#[trigger] s[i]) is Root),
        s.len() > 0 && s[0] is Root ==> acc.len() == 0,
        norm_from(acc, s) is Ok,
    ensures
        root_only_first(norm_from(acc, s)->Ok_0),
    decreases s.len(),
{
    if s.len() == 0 {
    } else {
        let s1 = s.drop_first();
        assert(forall|i: int| 1 <= i < s1.len() ==> !((#[trigger] s1[i]) is Root));
        assert(s1.len() > 0 ==> !(s1[0] is Root));
        match s[0] {
            CompV::Cur => {
                lemma_norm_root_only(acc, s1);
            },
            CompV::Parent => {
                assert(root_only_first(acc.drop_last())) by {
                    assert(forall|i: int|
                        1 <= i < acc.drop_last().len() ==> #[trigger] acc.drop_last()[i]
                            == acc[i]);
                }
                lemma_norm_root_only(acc.drop_last(), s1);
            },
            CompV::Pre(_) => {},
            _ => {
                assert(root_only_first(acc.push(s[0]))) by {
                    assert(forall|i: int|
                        1 <= i < acc.len() ==> #[trigger] acc.push(s[0])[i] == acc[i]);
                    assert(acc.push(s[0])[acc.len() as int] == s[0]);
                    if s[0] is Root {
                        assert(acc.len() == 0);
                    }
                }
                lemma_norm_root_only(acc.push(s[0]), s1);
            },
        }
    }
}

proof fn lemma_shared_prefix_facts(a: Seq<CompV>, b: Seq<CompV>)
    ensures
        shared_len(a, b) <= a.len(),
        shared_len(a, b) <= b.len(),
        forall|i: int| 0 <= i < shared_len(a, b) ==> a[i] == b[i],
    decreases a.len(),
{
    if a.len() == 0 || b.len() == 0 || a[0] != b[0] {
    } else {
        lemma_shared_prefix_facts(a.drop_first(), b.drop_first());
        let k = shared_len(a, b);
        assert(forall|i: int|
            1 <= i < k ==> a[i] == a.drop_first()[i - 1] && b[i] == b.drop_first()[i - 1]);
    }
}

/// Relativisation is idempotent: relativising an already relativised path
/// against the same clean context root (used as its own base directory)
/// gives it back unchanged.
pub proof fn lemma_relativise_idempotent(context: Seq<CompV>, p: Seq<CompV>)
    requires
        is_clean(context),
        root_only_first(context),
        root_only_first(p),
        relativise_spec(context, context, p) is Ok,
    ensures
        relativise_spec(context, context, relativise_spec(context, context, p)->Ok_0)
            == relativise_spec(context, context, p),
{
    let abs = join_spec(context, p);
    let n = norm_from(Seq::empty(), abs)->Ok_0;
    assert(root_only_first(abs)) by {
        if !is_absolute_spec(p) {
            assert(forall|i: int|
                1 <= i < context.len() ==> (context + p)[i] == context[i]);
            assert(forall|i: int|
                context.len() <= i < abs.len() ==> (context + p)[i] == p[i - context.len()]);
            if p.len() > 0 && p[0] is Root {
                assert(is_absolute_spec(p));
            }
        }
    }
    assert(abs.len() > 0 && abs[0] is Root ==> Seq::<CompV>::empty().len() == 0);
    lemma_norm_root_only(Seq::empty(), abs);
    lemma_norm_clean_preserved(Seq::empty(), abs);
    assert(root_only_first(n));
    assert(is_clean(n));

    let k = shared_len(context, n);
    lemma_shared_prefix_facts(context, n);
    let cn = context.len();
    let r1 = rebase_spec(context, n);
    assert(r1 == parents((cn - k) as nat) + n.skip(k as int));

    // The tail of a clean path is clean.
    assert(is_clean(n.skip(k as int))) by {
        assert(forall|i: int|
            0 <= i < n.skip(k as int).len() ==> #[trigger] n.skip(k as int)[i] == n[i + k]);
    }

    if is_absolute_spec(r1) {
        // The first component of the result is a root: no parent components
        // were emitted and, the root standing first in `n`, the whole
        // context was already shared away, which forces an empty context.
        assert(r1[0] == if cn - k > 0 {
            parents((cn - k) as nat)[0]
        } else {
            n.skip(k as int)[0]
        });
        assert(cn == k);
        assert(n.skip(k as int)[0] == n[k as int]);
        assert(n[k as int] is Root);
        assert(k == 0);
        assert(r1 =~= n);
        lemma_norm_clean(Seq::empty(), n);
        assert(Seq::<CompV>::empty() + n =~= n);
        assert(norm_from(Seq::empty(), join_spec(context, r1)) == Ok::<Seq<CompV>, Error>(n));
        assert(rebase_spec(context, n) == r1);
    } else {
        // The second pass walks the context, pops back to the shared prefix,
        // and then appends the clean tail, ending at `n` again.
        let tail = n.skip(k as int);
        assert(join_spec(context, r1) == context + r1);
        assert(context + r1 =~= (context + parents((cn - k) as nat)) + tail);
        lemma_norm_append(Seq::empty(), context + parents((cn - k) as nat), tail);
        lemma_norm_append(Seq::empty(), context, parents((cn - k) as nat));
        lemma_norm_clean(Seq::empty(), context);
        assert(Seq::<CompV>::empty() + context =~= context);
        lemma_norm_parents(context, (cn - k) as nat);
        assert(norm_from(Seq::empty(), context + parents((cn - k) as nat)) == Ok::<
            Seq<CompV>,
            Error,
        >(context.take(k as int)));
        lemma_norm_clean(context.take(k as int), tail);
        assert(context.take(k as int) + tail =~= n) by {
            assert(forall|i: int| 0 <= i < k ==> context.take(k as int)[i] == n[i]);
            assert(forall|i: int| k <= i < n.len() ==> tail[i - k] == n[i]);
        }
        assert(norm_from(Seq::empty(), join_spec(context, r1)) == Ok::<Seq<CompV>, Error>(n));
    }
}

/// Round trip: for a path that lies under the context, joining the context
/// back onto the relativised form and normalising gives the same normal
/// form as the original path.
pub proof fn lemma_relativise_round_trip(context: Seq<CompV>, p: Seq<CompV>)
    requires
        is_clean(context),
        root_only_first(context),
        root_only_first(p),
        relativise_spec(context, context, p) is Ok,
        context.len() <= norm_from(Seq::empty(), join_spec(context, p))->Ok_0.len(),
        norm_from(Seq::empty(), join_spec(context, p))->Ok_0.take(context.len() as int)
            == context,
    ensures
        norm_from(
            Seq::empty(),
            join_spec(context, relativise_spec(context, context, p)->Ok_0),
        ) == norm_from(Seq::empty(), join_spec(context, p)),
{
    let abs = join_spec(context, p);
    let n = norm_from(Seq::empty(), abs)->Ok_0;
    let cn = context.len();
    assert(root_only_first(abs)) by {
        if !is_absolute_spec(p) {
            assert(forall|i: int|
                1 <= i < context.len() ==> (context + p)[i] == context[i]);
            assert(forall|i: int|
                context.len() <= i < abs.len() ==> (context + p)[i] == p[i - context.len()]);
            if p.len() > 0 && p[0] is Root {
                assert(is_absolute_spec(p));
            }
        }
    }
    lemma_norm_root_only(Seq::empty(), abs);
    lemma_norm_clean_preserved(Seq::empty(), abs);

    // The whole context is shared.
    assert(forall|i: int| 0 <= i < cn ==> context[i] == n[i]) by {
        assert(forall|i: int| 0 <= i < cn ==> n.take(cn as int)[i] == n[i]);
    }
    lemma_shared_len_char(context, n, cn as nat);
    let r1 = rebase_spec(context, n);
    assert(parents(0).len() == 0);
    assert(r1 =~= n.skip(cn as int));
    let tail = n.skip(cn as int);
    assert(is_clean(tail)) by {
        assert(forall|i: int| 0 <= i < tail.len() ==> #[trigger] tail[i] == n[i + cn]);
    }
    if is_absolute_spec(r1) {
        assert(tail[0] == n[cn as int]);
        assert(cn == 0);
        assert(r1 =~= n);
        lemma_norm_clean(Seq::empty(), n);
        assert(Seq::<CompV>::empty() + n =~= n);
    } else {
        assert(join_spec(context, r1) == context + r1);
        lemma_norm_append(Seq::empty(), context, tail);
        lemma_norm_clean(Seq::empty(), context);
        assert(Seq::<CompV>::empty() + context =~= context);
        lemma_norm_clean(context, tail);
        assert(context + tail =~= n) by {
            assert(forall|i: int| 0 <= i < cn ==> context[i] == n[i]);
            assert(forall|i: int| cn <= i < n.len() ==> tail[i - cn] == n[i]);
        }
        assert(context + r1 =~= context + tail);
    }
}

} // verus!
