//! Recipes: the parsed template of a task's command, and its rendering
//! against concrete targets, inputs and environment entries.

use vstd::prelude::*;

use crate::env::{duplicate_env, EnvSpec, EnvSpecV};
use crate::path::{render_path, CompV, FsPath};
use crate::recipe_text::{
    parse_args, parse_elements, parse_elements_spec, tokens_spec, ArgElement, ElemV, VarV,
    Variable,
};
use crate::targets::Targets;
use crate::views::{group_views_of, views_of};

verus! {

broadcast use group_views_of;

/// Why recipe text could not be parsed.
#[derive(Clone, Copy, Debug, PartialEq, Eq, Structural)]
pub enum RecipeParseError {
    /// The text could not be split into arguments.
    ParseArgError,
    /// An argument could not be read as elements.
    ParseElementError,
    /// There was no argument at all: nothing to run.
    NotEnoughArgs,
}

/// Why a recipe could not be rendered into a command.
#[derive(Clone, Debug, PartialEq, Eq)]
pub enum RecipePrepareError {
    /// A path was no unicode text.
    NonUnicodePath,
    /// Rendering produced no argument at all: nothing to run.
    NotEnoughArgs,
    /// The command is neither a file nor found on the search path.
    NoSuchCmd(String),
    /// `$<[i]` with too few inputs.
    InputIndexOutOfRange(usize),
    /// `$@[i]` with too few targets.
    TargetIndexOutOfRange(usize),
    /// `$name` with a name that is bound to nothing.
    UnrecognisedBinding(String),
}

/// The mathematical value of a `RecipePrepareError`.
pub enum PrepErrV {
    NonUnicodePath,
    NotEnoughArgs,
    NoSuchCmd(Seq<char>),
    InputIndexOutOfRange(nat),
    TargetIndexOutOfRange(nat),
    UnrecognisedBinding(Seq<char>),
}

impl View for RecipePrepareError {
    type V = PrepErrV;

    closed spec fn view(&self) -> PrepErrV {
        match self {
            RecipePrepareError::NonUnicodePath => PrepErrV::NonUnicodePath,
            RecipePrepareError::NotEnoughArgs => PrepErrV::NotEnoughArgs,
            RecipePrepareError::NoSuchCmd(s) => PrepErrV::NoSuchCmd(s@),
            RecipePrepareError::InputIndexOutOfRange(i) => PrepErrV::InputIndexOutOfRange(
                *i as nat,
            ),
            RecipePrepareError::TargetIndexOutOfRange(i) => PrepErrV::TargetIndexOutOfRange(
                *i as nat,
            ),
            RecipePrepareError::UnrecognisedBinding(s) => PrepErrV::UnrecognisedBinding(s@),
        }
    }
}

/// A parsed recipe: the elements of its arguments, with a `Break` closing
/// each argument.
#[derive(Clone, Debug)]
pub struct Recipe {
    elements: Vec<ArgElement>,
}

impl View for Recipe {
    type V = Seq<ElemV>;

    closed spec fn view(&self) -> Seq<ElemV> {
        views_of(self.elements@)
    }
}

/// The elements of a whole argument list: each argument's elements, each
/// followed by one `Break`.
pub open spec fn recipe_elems_of(args: Seq<Seq<char>>) -> Option<Seq<ElemV>>
    decreases args.len(),
{
    if args.len() == 0 {
        Some(Seq::empty())
    } else {
        match parse_elements_spec(args[0]) {
            None => None,
            Some(es) => match recipe_elems_of(args.drop_first()) {
                None => None,
                Some(rest) => Some(es + seq![ElemV::Break] + rest),
            },
        }
    }
}

/// What building a recipe from an argument list returns.
pub open spec fn recipe_of_args(args: Seq<Seq<char>>) -> Result<Seq<ElemV>, RecipeParseError> {
    if args.len() == 0 {
        Err(RecipeParseError::NotEnoughArgs)
    } else {
        match recipe_elems_of(args) {
            None => Err(RecipeParseError::ParseElementError),
            Some(es) => Ok(es),
        }
    }
}

/// What parsing recipe text returns: the text split into arguments, each
/// argument read as elements.
pub open spec fn recipe_of_text(s: Seq<char>) -> Result<Seq<ElemV>, RecipeParseError> {
    recipe_of_args(tokens_spec(s))
}

impl Recipe {
    /// Build a recipe from a pre-tokenised argument list.
    #[verifier::loop_isolation(false)]
    pub fn new(args: Vec<String>) -> (r: Result<Recipe, RecipeParseError>)
        ensures
            match r {
                Ok(rec) => recipe_of_args(views_of(args@)) == Ok::<Seq<ElemV>, RecipeParseError>(
                    rec@,
                ),
                Err(e) => recipe_of_args(views_of(args@)) == Err::<Seq<ElemV>, RecipeParseError>(
                    e,
                ),
            },
    {
        let ghost argsv = views_of(args@);
        if args.len() == 0 {
            return Err(RecipeParseError::NotEnoughArgs);
        }
        let mut elements: Vec<ArgElement> = Vec::new();
        let n = args.len();
        let mut i: usize = 0;
        proof {
            assert(argsv.skip(0) =~= argsv);
            assert(views_of(elements@) =~= Seq::<ElemV>::empty());
        }
        while i < n
            invariant
                i <= n,
                n == args@.len(),
                n >= 1,
                match recipe_elems_of(argsv.skip(i as int)) {
                    Some(rest) => recipe_elems_of(argsv) == Some(views_of(elements@) + rest),
                    None => recipe_elems_of(argsv) is None,
                },
            decreases n - i,
        {
            let ghost rest = argsv.skip(i as int);
            proof {
                assert(rest[0] == argsv[i as int]);
                assert(rest.drop_first() =~= argsv.skip(i + 1));
                assert(argsv[i as int] == args@[i as int]@);
            }
            match parse_elements(args[i].as_str()) {
                Ok(es) => {
                    let ghost elems0 = views_of(elements@);
                    let ghost esv = views_of(es@);
                    push_all(&mut elements, es);
                    elements.push(ArgElement::Break);
                    proof {
                        assert(views_of(elements@) =~= elems0 + (esv + seq![ElemV::Break]));
                        if let Some(r2) = recipe_elems_of(argsv.skip(i + 1)) {
                            assert(views_of(elements@) + r2 =~= elems0 + ((esv + seq![
                                ElemV::Break,
                            ]) + r2));
                        }
                    }
                },
                Err(_) => {
                    return Err(RecipeParseError::ParseElementError);
                },
            }
            i += 1;
        }
        proof {
            assert(argsv.skip(n as int) =~= Seq::<Seq<char>>::empty());
            assert(views_of(elements@) + Seq::<ElemV>::empty() =~= views_of(elements@));
        }
        Ok(Recipe { elements })
    }

    /// Parse recipe text: split it into arguments, then read each argument.
    pub fn parse(s: &str) -> (r: Result<Recipe, RecipeParseError>)
        ensures
            match r {
                Ok(rec) => recipe_of_text(s@) == Ok::<Seq<ElemV>, RecipeParseError>(rec@),
                Err(e) => recipe_of_text(s@) == Err::<Seq<ElemV>, RecipeParseError>(e),
            },
    {
        match parse_args(s) {
            Ok(args) => Recipe::new(args),
            Err(_) => Err(RecipeParseError::ParseArgError),
        }
    }

    /// A copy whose value equals this one.
    pub fn duplicate(&self) -> (r: Recipe)
        ensures
            r@ == self@,
    {
        let mut elements: Vec<ArgElement> = Vec::new();
        let n = self.elements.len();
        let mut i: usize = 0;
        while i < n
            invariant
                i <= n,
                n == self.elements@.len(),
                views_of(elements@) =~= views_of(self.elements@).take(i as int),
            decreases n - i,
        {
            elements.push(duplicate_element(&self.elements[i]));
            proof {
                assert(views_of(elements@) =~= views_of(self.elements@).take(i + 1));
            }
            i += 1;
        }
        proof {
            assert(views_of(self.elements@).take(n as int) =~= views_of(self.elements@));
        }
        Recipe { elements }
    }
}

/// Append every element of `more` to `out`.
fn push_all(out: &mut Vec<ArgElement>, more: Vec<ArgElement>)
    ensures
        views_of(final(out)@) == views_of(old(out)@) + views_of(more@),
{
    broadcast use group_views_of;

    let mut more = more;
    let n = more.len();
    let ghost morev = views_of(more@);
    let mut i: usize = 0;
    while i < n
        invariant
            i <= n,
            n == more@.len(),
            morev == views_of(more@),
            views_of(out@) =~= views_of(old(out)@) + morev.take(i as int),
        decreases n - i,
    {
        let e = duplicate_element(&more[i]);
        out.push(e);
        proof {
            assert(views_of(out@) =~= views_of(old(out)@) + morev.take(i + 1));
        }
        i += 1;
    }
    proof {
        assert(views_of(old(out)@) + morev.take(n as int) =~= views_of(old(out)@) + morev);
    }
}

/// A copy of one element, equal in value.
fn duplicate_element(e: &ArgElement) -> (r: ArgElement)
    ensures
        r@ == e@,
{
    match e {
        ArgElement::Str(s) => ArgElement::Str(s.clone()),
        ArgElement::Var(v) => ArgElement::Var(
            match v {
                Variable::Targets => Variable::Targets,
                Variable::Target(i) => Variable::Target(*i),
                Variable::Inputs => Variable::Inputs,
                Variable::Input(i) => Variable::Input(*i),
                Variable::Other(s) => Variable::Other(s.clone()),
            },
        ),
        ArgElement::Break => ArgElement::Break,
    }
}

/// Texts joined by single spaces.
pub open spec fn join_with_spaces(xs: Seq<Seq<char>>) -> Seq<char>
    decreases xs.len(),
{
    if xs.len() == 0 {
        Seq::empty()
    } else if xs.len() == 1 {
        xs[0]
    } else {
        xs[0] + seq![' '] + join_with_spaces(xs.drop_first())
    }
}

/// The text of each path.
pub open spec fn paths_texts(ps: Seq<Seq<CompV>>) -> Seq<Seq<char>>
    decreases ps.len(),
{
    if ps.len() == 0 {
        Seq::empty()
    } else {
        paths_texts(ps.drop_last()).push(render_path(ps.last()))
    }
}

proof fn lemma_paths_texts_len(ps: Seq<Seq<CompV>>)
    ensures
        paths_texts(ps).len() == ps.len(),
    decreases ps.len(),
{
    if ps.len() > 0 {
        lemma_paths_texts_len(ps.drop_last());
    }
}

/// What one variable reference renders to.
pub open spec fn expand_var(v: VarV, targets: Seq<Seq<char>>, inputs: Seq<Seq<char>>) -> Result<
    Seq<char>,
    PrepErrV,
> {
    match v {
        VarV::Targets => Ok(join_with_spaces(targets)),
        VarV::Inputs => Ok(join_with_spaces(inputs)),
        VarV::Target(i) => if i < targets.len() {
            Ok(targets[i as int])
        } else {
            Err(PrepErrV::TargetIndexOutOfRange(i))
        },
        VarV::Input(i) => if i < inputs.len() {
            Ok(inputs[i as int])
        } else {
            Err(PrepErrV::InputIndexOutOfRange(i))
        },
        VarV::Other(n) => Err(PrepErrV::UnrecognisedBinding(n)),
    }
}

/// One rendered argument: elements concatenated up to the first `Break` (or
/// the end), and what follows.
pub open spec fn render_arg(
    elems: Seq<ElemV>,
    targets: Seq<Seq<char>>,
    inputs: Seq<Seq<char>>,
) -> Result<(Seq<char>, Seq<ElemV>), PrepErrV>
    decreases elems.len(),
{
    if elems.len() == 0 {
        Ok((Seq::empty(), Seq::empty()))
    } else {
        match elems[0] {
            ElemV::Break => Ok((Seq::empty(), elems.drop_first())),
            ElemV::Text(t) => match render_arg(elems.drop_first(), targets, inputs) {
                Ok((a, r)) => Ok((t + a, r)),
                Err(e) => Err(e),
            },
            ElemV::Var(v) => match expand_var(v, targets, inputs) {
                Ok(t) => match render_arg(elems.drop_first(), targets, inputs) {
                    Ok((a, r)) => Ok((t + a, r)),
                    Err(e) => Err(e),
                },
                Err(e) => Err(e),
            },
        }
    }
}

proof fn lemma_render_arg_shrinks(
    elems: Seq<ElemV>,
    targets: Seq<Seq<char>>,
    inputs: Seq<Seq<char>>,
)
    requires
        render_arg(elems, targets, inputs) is Ok,
        elems.len() > 0,
    ensures
        render_arg(elems, targets, inputs)->Ok_0.1.len() < elems.len(),
    decreases elems.len(),
{
    match elems[0] {
        ElemV::Break => {},
        _ => {
            if elems.drop_first().len() > 0 {
                lemma_render_arg_shrinks(elems.drop_first(), targets, inputs);
            }
        },
    }
}

/// All rendered arguments, in order, the first error aborting.
pub open spec fn render_args(
    elems: Seq<ElemV>,
    targets: Seq<Seq<char>>,
    inputs: Seq<Seq<char>>,
) -> Result<Seq<Seq<char>>, PrepErrV>
    decreases elems.len(),
    via render_args_dec
{
    if elems.len() == 0 {
        Ok(Seq::empty())
    } else {
        match render_arg(elems, targets, inputs) {
            Err(e) => Err(e),
            Ok((a, rest)) => match render_args(rest, targets, inputs) {
                Ok(more) => Ok(seq![a] + more),
                Err(e) => Err(e),
            },
        }
    }
}

#[via_fn]
proof fn render_args_dec(elems: Seq<ElemV>, targets: Seq<Seq<char>>, inputs: Seq<Seq<char>>) {
    if elems.len() > 0 && render_arg(elems, targets, inputs) is Ok {
        lemma_render_arg_shrinks(elems, targets, inputs);
    }
}

/// What preparing a recipe yields: the first rendered argument is the
/// command, the rest its arguments.
pub open spec fn prepare_spec(
    elems: Seq<ElemV>,
    targets: Seq<Seq<char>>,
    inputs: Seq<Seq<char>>,
) -> Result<(Seq<char>, Seq<Seq<char>>), PrepErrV> {
    match render_args(elems, targets, inputs) {
        Err(e) => Err(e),
        Ok(args) => if args.len() == 0 {
            Err(PrepErrV::NotEnoughArgs)
        } else {
            Ok((args[0], args.drop_first()))
        },
    }
}

/// A command ready to be issued: the command text, its arguments, and the
/// environment entries to resolve when spawning.  Finding the executable on
/// the search path and resolving inherited variables is the caller's work.
#[derive(Clone, Debug)]
pub struct PreparedCommand {
    pub cmd: String,
    pub args: Vec<String>,
    pub env: Vec<EnvSpec>,
}

impl PreparedCommand {
    pub open spec fn env_view(&self) -> Seq<EnvSpecV> {
        views_of(self.env@)
    }

    pub open spec fn args_view(&self) -> Seq<Seq<char>> {
        views_of(self.args@)
    }
}

impl Recipe {
    /// Render the recipe against concrete targets, inputs and environment.
    #[verifier::loop_isolation(false)]
    pub fn prepare(&self, targets: &Targets, inputs: &Vec<FsPath>, env: &Vec<EnvSpec>) -> (r:
        Result<PreparedCommand, RecipePrepareError>)
        ensures
            match r {
                Ok(pc) => prepare_spec(self@, paths_texts(targets@), paths_texts(views_of(inputs@)))
                    == Ok::<(Seq<char>, Seq<Seq<char>>), PrepErrV>((pc.cmd@, pc.args_view()))
                    && pc.env_view() == views_of(env@),
                Err(e) => prepare_spec(self@, paths_texts(targets@), paths_texts(views_of(inputs@)))
                    == Err::<(Seq<char>, Seq<Seq<char>>), PrepErrV>(e@),
            },
    {
        let ghost tv = paths_texts(targets@);
        let ghost iv = paths_texts(views_of(inputs@));
        // Concrete texts of the target and input paths.
        let mut target_texts: Vec<String> = Vec::new();
        let tn = targets.len();
        let mut i: usize = 0;
        proof {
            lemma_paths_texts_len(targets@);
            assert(views_of(target_texts@) =~= tv.take(0));
        }
        while i < tn
            invariant
                i <= tn,
                views_of(target_texts@) =~= tv.take(i as int),
            decreases tn - i,
        {
            target_texts.push(targets.get(i).to_text());
            proof {
                lemma_paths_texts_index(targets@, i as int);
                assert(views_of(target_texts@) =~= tv.take(i + 1));
            }
            i += 1;
        }
        proof {
            assert(tv.take(tn as int) =~= tv);
        }
        let mut input_texts: Vec<String> = Vec::new();
        let pn = inputs.len();
        let mut j: usize = 0;
        proof {
            lemma_paths_texts_len(views_of(inputs@));
            assert(views_of(input_texts@) =~= iv.take(0));
        }
        while j < pn
            invariant
                j <= pn,
                pn == inputs@.len(),
                views_of(input_texts@) =~= iv.take(j as int),
            decreases pn - j,
        {
            input_texts.push(inputs[j].to_text());
            proof {
                lemma_paths_texts_index(views_of(inputs@), j as int);
                assert(views_of(inputs@)[j as int] == inputs@[j as int]@);
                assert(views_of(input_texts@) =~= iv.take(j + 1));
            }
            j += 1;
        }
        proof {
            assert(iv.take(pn as int) =~= iv);
        }

        // Render argument by argument.
        let mut args: Vec<String> = Vec::new();
        let n = self.elements.len();
        let mut e: usize = 0;
        proof {
            assert(self@.skip(0) =~= self@);
        }
        while e < n
            invariant
                e <= n,
                n == self.elements@.len(),
                match render_args(self@.skip(e as int), tv, iv) {
                    Ok(more) => render_args(self@, tv, iv) == Ok::<Seq<Seq<char>>, PrepErrV>(
                        views_of(args@) + more,
                    ),
                    Err(err) => render_args(self@, tv, iv) == Err::<Seq<Seq<char>>, PrepErrV>(err),
                },
            decreases n - e,
        {
            match self.render_arg_at(e, &target_texts, &input_texts) {
                Ok((arg, q)) => {
                    let ghost args0 = views_of(args@);
                    let ghost av = arg@;
                    args.push(arg);
                    proof {
                        if let Ok(more) = render_args(self@.skip(q as int), tv, iv) {
                            assert(views_of(args@) + more =~= args0 + (seq![av] + more));
                        }
                    }
                    e = q;
                },
                Err(err) => {
                    return Err(err);
                },
            }
        }
        proof {
            assert(self@.skip(n as int) =~= Seq::<ElemV>::empty());
            assert(views_of(args@) + Seq::<Seq<char>>::empty() =~= views_of(args@));
        }
        if args.len() == 0 {
            return Err(RecipePrepareError::NotEnoughArgs);
        }
        let cmd = args.remove(0);
        proof {
            assert(views_of(args@) =~= render_args(self@, tv, iv)->Ok_0.drop_first());
        }
        Ok(PreparedCommand { cmd, args, env: duplicate_env(env) })
    }

    /// Render the argument whose elements start at `pos`, and say where the
    /// next argument starts.
    #[verifier::loop_isolation(false)]
    fn render_arg_at(&self, pos: usize, target_texts: &Vec<String>, input_texts: &Vec<String>) -> (
        r: Result<(String, usize), RecipePrepareError>)
        requires
            pos < self@.len(),
        ensures
            match r {
                Ok(aq) => pos < aq.1 <= self@.len() && render_arg(
                    self@.skip(pos as int),
                    views_of(target_texts@),
                    views_of(input_texts@),
                ) == Ok::<(Seq<char>, Seq<ElemV>), PrepErrV>(
                    (aq.0@, self@.skip(aq.1 as int)),
                ),
                Err(e) => render_arg(
                    self@.skip(pos as int),
                    views_of(target_texts@),
                    views_of(input_texts@),
                ) == Err::<(Seq<char>, Seq<ElemV>), PrepErrV>(e@),
            },
    {
        let ghost tv = views_of(target_texts@);
        let ghost iv = views_of(input_texts@);
        let n = self.elements.len();
        let mut out = String::new();
        let mut k: usize = pos;
        // Invariant: rendering from `pos` equals `out` plus rendering from
        // `k`, and no break was passed yet.
        while k < n
            invariant
                pos <= k <= n,
                n == self.elements@.len(),
                match render_arg(self@.skip(k as int), tv, iv) {
                    Ok(ar) => render_arg(self@.skip(pos as int), tv, iv) == Ok::<
                        (Seq<char>, Seq<ElemV>),
                        PrepErrV,
                    >((out@ + ar.0, ar.1)),
                    Err(e) => render_arg(self@.skip(pos as int), tv, iv) == Err::<
                        (Seq<char>, Seq<ElemV>),
                        PrepErrV,
                    >(e),
                },
            decreases n - k,
        {
            let ghost rest = self@.skip(k as int);
            proof {
                assert(rest[0] == self@[k as int]);
                assert(rest.drop_first() =~= self@.skip(k + 1));
                assert(self@[k as int] == self.elements@[k as int]@);
            }
            match &self.elements[k] {
                ArgElement::Break => {
                    proof {
                        assert(out@ + Seq::<char>::empty() =~= out@);
                    }
                    return Ok((out, k + 1));
                },
                ArgElement::Str(t) => {
                    let ghost out0 = out@;
                    out.append(t.as_str());
                    proof {
                        if let Ok(ar) = render_arg(self@.skip(k + 1), tv, iv) {
                            assert(out@ + ar.0 =~= out0 + (t@ + ar.0));
                        }
                    }
                },
                ArgElement::Var(v) => {
                    match expand_variable(v, target_texts, input_texts) {
                        Ok(t) => {
                            let ghost out0 = out@;
                            let ghost txt = t@;
                            out.append(t.as_str());
                            proof {
                                if let Ok(ar) = render_arg(self@.skip(k + 1), tv, iv) {
                                    assert(out@ + ar.0 =~= out0 + (txt + ar.0));
                                }
                            }
                        },
                        Err(e) => {
                            return Err(e);
                        },
                    }
                },
            }
            k += 1;
        }
        proof {
            assert(self@.skip(n as int) =~= Seq::<ElemV>::empty());
            assert(out@ + Seq::<char>::empty() =~= out@);
        }
        Ok((out, n))
    }
}

proof fn lemma_paths_texts_index(ps: Seq<Seq<CompV>>, i: int)
    requires
        0 <= i < ps.len(),
    ensures
        paths_texts(ps).len() == ps.len(),
        paths_texts(ps)[i] == render_path(ps[i]),
    decreases ps.len(),
{
    lemma_paths_texts_len(ps);
    if i + 1 < ps.len() {
        lemma_paths_texts_index(ps.drop_last(), i);
        lemma_paths_texts_len(ps.drop_last());
    }
}

/// What one variable renders to, against concrete texts.
fn expand_variable(v: &Variable, target_texts: &Vec<String>, input_texts: &Vec<String>) -> (r:
    Result<String, RecipePrepareError>)
    ensures
        match r {
            Ok(t) => expand_var(v@, views_of(target_texts@), views_of(input_texts@)) == Ok::<
                Seq<char>,
                PrepErrV,
            >(t@),
            Err(e) => expand_var(v@, views_of(target_texts@), views_of(input_texts@)) == Err::<
                Seq<char>,
                PrepErrV,
            >(e@),
        },
{
    match v {
        Variable::Targets => {
            let t = join_spaces_from(target_texts, 0);
            proof {
                assert(views_of(target_texts@).skip(0) =~= views_of(target_texts@));
            }
            Ok(t)
        },
        Variable::Inputs => {
            let t = join_spaces_from(input_texts, 0);
            proof {
                assert(views_of(input_texts@).skip(0) =~= views_of(input_texts@));
            }
            Ok(t)
        },
        Variable::Target(i) => {
            if *i < target_texts.len() {
                Ok(target_texts[*i].clone())
            } else {
                Err(RecipePrepareError::TargetIndexOutOfRange(*i))
            }
        },
        Variable::Input(i) => {
            if *i < input_texts.len() {
                Ok(input_texts[*i].clone())
            } else {
                Err(RecipePrepareError::InputIndexOutOfRange(*i))
            }
        },
        Variable::Other(s) => Err(RecipePrepareError::UnrecognisedBinding(s.clone())),
    }
}

/// The texts from `i` on, joined by single spaces.
fn join_spaces_from(texts: &Vec<String>, i: usize) -> (r: String)
    requires
        i <= texts@.len(),
    ensures
        r@ == join_with_spaces(views_of(texts@).skip(i as int)),
    decreases texts@.len() - i,
{
    broadcast use group_views_of;

    let n = texts.len();
    let ghost rest = views_of(texts@).skip(i as int);
    if i == n {
        proof {
            assert(rest.len() == 0);
        }
        String::new()
    } else if i + 1 == n {
        proof {
            assert(rest.len() == 1);
            assert(rest[0] == views_of(texts@)[i as int]);
        }
        texts[i].clone()
    } else {
        proof {
            assert(rest[0] == views_of(texts@)[i as int]);
            assert(rest.drop_first() =~= views_of(texts@).skip(i + 1));
        }
        let tail = join_spaces_from(texts, i + 1);
        let r = texts[i].clone().concat(" ").concat(tail.as_str());
        proof {
            reveal_strlit(" ");
            assert(" "@ =~= seq![' ']);
        }
        r
    }
}

/// A character that parsing treats literally: no quoting, no escaping, no
/// variable marker.
pub open spec fn is_plain(c: char) -> bool {
    c != '"' && c != '\\' && c != '$'
}

pub open spec fn all_plain(s: Seq<char>) -> bool {
    forall|i: int| 0 <= i < s.len() ==> is_plain(#[trigger] s[i])
}

proof fn lemma_skip_blanks_plain(s: Seq<char>)
    requires
        all_plain(s),
    ensures
        all_plain(crate::recipe_text::skip_blanks(s)),
        crate::recipe_text::skip_blanks(s).len() > 0 ==> !crate::recipe_text::is_blank(
            crate::recipe_text::skip_blanks(s)[0],
        ),
    decreases s.len(),
{
    if s.len() > 0 && crate::recipe_text::is_blank(s[0]) {
        assert(all_plain(s.drop_first())) by {
            assert(forall|i: int|
                0 <= i < s.drop_first().len() ==> #[trigger] s.drop_first()[i] == s[i + 1]);
        }
        lemma_skip_blanks_plain(s.drop_first());
    }
}

proof fn lemma_bare_len_plain(s: Seq<char>)
    requires
        all_plain(s),
        s.len() > 0,
        !crate::recipe_text::is_space(s[0]),
    ensures
        crate::recipe_text::bare_len(s) >= 1,
{
}

/// Every token of plain text is itself plain and non-empty.
proof fn lemma_tokens_plain(s: Seq<char>)
    requires
        all_plain(s),
    ensures
        forall|k: int|
            0 <= k < tokens_spec(s).len() ==> all_plain(#[trigger] tokens_spec(s)[k])
                && tokens_spec(s)[k].len() >= 1,
    decreases s.len(),
{
    let t = crate::recipe_text::skip_blanks(s);
    lemma_skip_blanks_plain(s);
    crate::recipe_text::lemma_skip_blanks_len(s);
    // The suffix dropped to is plain because it is a suffix; establish that
    // first for the recursion.
    if t.len() == 0 {
    } else if !crate::recipe_text::is_space(t[0]) {
        assert(t[0] != '"');
        let n = crate::recipe_text::bare_len(t);
        lemma_bare_len_plain(t);
        crate::recipe_text::lemma_bare_len_bound(t);
        let tok = t.take(n as int);
        assert(all_plain(tok)) by {
            assert(forall|i: int| 0 <= i < tok.len() ==> #[trigger] tok[i] == t[i]);
        }
        assert(all_plain(t.skip(n as int))) by {
            assert(forall|i: int|
                0 <= i < t.skip(n as int).len() ==> #[trigger] t.skip(n as int)[i] == t[i + n]);
        }
        lemma_tokens_plain(t.skip(n as int));
        assert forall|k: int|
            0 <= k < tokens_spec(s).len() implies all_plain(#[trigger] tokens_spec(s)[k])
            && tokens_spec(s)[k].len() >= 1 by {
            if k == 0 {
                assert(tokens_spec(s)[0] == tok);
            } else {
                assert(tokens_spec(s)[k] == tokens_spec(t.skip(n as int))[k - 1]);
            }
        }
    }
}

proof fn lemma_literal_len_full(s: Seq<char>)
    requires
        all_plain(s),
    ensures
        crate::recipe_text::literal_len(s) == s.len(),
    decreases s.len(),
{
    if s.len() > 0 {
        assert(s[0] != '$');
        assert(all_plain(s.drop_first())) by {
            assert(forall|i: int|
                0 <= i < s.drop_first().len() ==> #[trigger] s.drop_first()[i] == s[i + 1]);
        }
        lemma_literal_len_full(s.drop_first());
    }
}

/// A plain token reads as one literal fragment.
proof fn lemma_plain_token_elements(tok: Seq<char>)
    requires
        all_plain(tok),
        tok.len() >= 1,
    ensures
        parse_elements_spec(tok) == Some(seq![ElemV::Text(tok)]),
{
    lemma_literal_len_full(tok);
    let n = crate::recipe_text::literal_len(tok);
    assert(tok.take(n as int) =~= tok);
    assert(tok.skip(n as int) =~= Seq::<char>::empty());
    assert(crate::recipe_text::parse_element_at(tok) == Some(
        (ElemV::Text(tok), Seq::<char>::empty()),
    ));
    assert(crate::recipe_text::parse_element_at(Seq::<char>::empty()) is None);
    assert(crate::recipe_text::elements_from(Seq::<char>::empty()) =~= Seq::<ElemV>::empty());
    assert(crate::recipe_text::elements_from(tok) =~= seq![ElemV::Text(tok)]);
}

/// Plain tokens render back to themselves, whatever the context.
proof fn lemma_plain_render(tokens: Seq<Seq<char>>, targets: Seq<Seq<char>>, inputs: Seq<Seq<char>>)
    requires
        forall|k: int|
            0 <= k < tokens.len() ==> all_plain(#[trigger] tokens[k]) && tokens[k].len() >= 1,
    ensures
        recipe_elems_of(tokens) is Some,
        render_args(recipe_elems_of(tokens)->Some_0, targets, inputs) == Ok::<
            Seq<Seq<char>>,
            PrepErrV,
        >(tokens),
    decreases tokens.len(),
{
    if tokens.len() == 0 {
        assert(recipe_elems_of(tokens) == Some(Seq::<ElemV>::empty()));
        assert(render_args(Seq::<ElemV>::empty(), targets, inputs) == Ok::<
            Seq<Seq<char>>,
            PrepErrV,
        >(Seq::empty()));
        assert(tokens =~= Seq::<Seq<char>>::empty());
    } else {
        let tok = tokens[0];
        lemma_plain_token_elements(tok);
        assert(forall|k: int|
            0 <= k < tokens.drop_first().len() ==> #[trigger] tokens.drop_first()[k] == tokens[k
                + 1]);
        lemma_plain_render(tokens.drop_first(), targets, inputs);
        let rest = recipe_elems_of(tokens.drop_first())->Some_0;
        let es = seq![ElemV::Text(tok)];
        let elems = es + seq![ElemV::Break] + rest;
        assert(recipe_elems_of(tokens) == Some(elems));
        // One rendered argument: the literal, then the separator.
        assert(elems[0] == ElemV::Text(tok));
        assert(elems.drop_first() =~= seq![ElemV::Break] + rest);
        assert((seq![ElemV::Break] + rest)[0] == ElemV::Break);
        assert((seq![ElemV::Break] + rest).drop_first() =~= rest);
        assert(render_arg(seq![ElemV::Break] + rest, targets, inputs) == Ok::<
            (Seq<char>, Seq<ElemV>),
            PrepErrV,
        >((Seq::empty(), rest)));
        assert(tok + Seq::<char>::empty() =~= tok);
        assert(render_arg(elems, targets, inputs) == Ok::<(Seq<char>, Seq<ElemV>), PrepErrV>(
            (tok, rest),
        ));
        assert(elems.len() > 0);
        assert(render_args(elems, targets, inputs) == Ok::<Seq<Seq<char>>, PrepErrV>(
            seq![tok] + tokens.drop_first(),
        ));
        assert(seq![tok] + tokens.drop_first() =~= tokens);
    }
}

/// Round trip: recipe text made of plain characters (no quote, backslash,
/// or variable marker) parses, and rendering it in any context gives back
/// exactly its whitespace-split tokens.
pub proof fn lemma_recipe_round_trip(
    s: Seq<char>,
    targets: Seq<Seq<char>>,
    inputs: Seq<Seq<char>>,
)
    requires
        all_plain(s),
        tokens_spec(s).len() > 0,
    ensures
        recipe_of_text(s) is Ok,
        render_args(recipe_of_text(s)->Ok_0, targets, inputs) == Ok::<Seq<Seq<char>>, PrepErrV>(
            tokens_spec(s),
        ),
{
    lemma_tokens_plain(s);
    lemma_plain_render(tokens_spec(s), targets, inputs);
}

} // verus!
