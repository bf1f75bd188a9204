//! Reading recipe text: whitespace-separated arguments with double-quote
//! grouping and backslash escapes, and, within one argument, `$` variable
//! references among literal fragments.

use vstd::prelude::*;

use crate::views::{group_views_of, views_of};

verus! {

broadcast use group_views_of;

/// A reference to the task's inputs or targets, or a named binding.
#[derive(Clone, Debug, PartialEq, Eq)]
pub enum Variable {
    Targets,
    Target(usize),
    Inputs,
    Input(usize),
    Other(String),
}

/// The mathematical value of a `Variable`.
pub enum VarV {
    Targets,
    Target(nat),
    Inputs,
    Input(nat),
    Other(Seq<char>),
}

impl View for Variable {
    type V = VarV;

    open spec fn view(&self) -> VarV {
        match self {
            Variable::Targets => VarV::Targets,
            Variable::Target(i) => VarV::Target(*i as nat),
            Variable::Inputs => VarV::Inputs,
            Variable::Input(i) => VarV::Input(*i as nat),
            Variable::Other(s) => VarV::Other(s@),
        }
    }
}

/// One element of an argument: a literal fragment, a variable reference, or
/// the separator between arguments.
#[derive(Clone, Debug, PartialEq, Eq)]
pub enum ArgElement {
    Str(String),
    Var(Variable),
    Break,
}

/// The mathematical value of an `ArgElement`.
pub enum ElemV {
    Text(Seq<char>),
    Var(VarV),
    Break,
}

impl View for ArgElement {
    type V = ElemV;

    open spec fn view(&self) -> ElemV {
        match self {
            ArgElement::Str(s) => ElemV::Text(s@),
            ArgElement::Var(v) => ElemV::Var(v@),
            ArgElement::Break => ElemV::Break,
        }
    }
}

/// Argument-splitting failed.
#[derive(Clone, Copy, Debug, PartialEq, Eq, Structural)]
pub struct ParseArgsError;

/// Element parsing failed.
#[derive(Clone, Copy, Debug, PartialEq, Eq, Structural)]
pub struct ParseElementsError;

/// The characters that end a bare token.
pub open spec fn is_space(c: char) -> bool {
    c == ' ' || c == '\t' || c == '\n'
}

/// The characters skipped between tokens.
pub open spec fn is_blank(c: char) -> bool {
    c == ' ' || c == '\t'
}

pub open spec fn is_digit(c: char) -> bool {
    '0' as u32 <= c as u32 && c as u32 <= '9' as u32
}

/// The characters a variable name is made of.
pub open spec fn is_word_char(c: char) -> bool {
    is_digit(c) || ('a' as u32 <= c as u32 && c as u32 <= 'z' as u32) || ('A' as u32 <= c as u32
        && c as u32 <= 'Z' as u32) || c == '_' || c == '-'
}

/// Inside quotes: the content up to the closing quote and what follows it.
/// A backslash must be followed by a backslash, a quote, or a newline, and
/// stands for that character.  No closing quote, or a bad escape, fails.
pub open spec fn scan_quoted(s: Seq<char>) -> Option<(Seq<char>, Seq<char>)>
    decreases s.len(),
{
    if s.len() == 0 {
        None
    } else if s[0] == '"' {
        Some((Seq::empty(), s.drop_first()))
    } else if s[0] == '\\' {
        if s.len() >= 2 && (s[1] == '\\' || s[1] == '"' || s[1] == '\n') {
            match scan_quoted(s.skip(2)) {
                Some((c, r)) => Some((seq![s[1]] + c, r)),
                None => None,
            }
        } else {
            None
        }
    } else {
        match scan_quoted(s.drop_first()) {
            Some((c, r)) => Some((seq![s[0]] + c, r)),
            None => None,
        }
    }
}

proof fn lemma_scan_quoted_shrinks(s: Seq<char>)
    requires
        scan_quoted(s) is Some,
    ensures
        scan_quoted(s)->Some_0.1.len() < s.len(),
    decreases s.len(),
{
    if s[0] == '"' {
    } else if s[0] == '\\' {
        lemma_scan_quoted_shrinks(s.skip(2));
    } else {
        lemma_scan_quoted_shrinks(s.drop_first());
    }
}

/// Drop leading blanks.
pub open spec fn skip_blanks(s: Seq<char>) -> Seq<char>
    decreases s.len(),
{
    if s.len() > 0 && is_blank(s[0]) {
        skip_blanks(s.drop_first())
    } else {
        s
    }
}

pub proof fn lemma_skip_blanks_len(s: Seq<char>)
    ensures
        skip_blanks(s).len() <= s.len(),
    decreases s.len(),
{
    if s.len() > 0 && is_blank(s[0]) {
        lemma_skip_blanks_len(s.drop_first());
    }
}

/// The length of the leading run of non-space characters.
pub open spec fn bare_len(s: Seq<char>) -> nat
    decreases s.len(),
{
    if s.len() > 0 && !is_space(s[0]) {
        1 + bare_len(s.drop_first())
    } else {
        0
    }
}

pub proof fn lemma_bare_len_bound(s: Seq<char>)
    ensures
        bare_len(s) <= s.len(),
    decreases s.len(),
{
    if s.len() > 0 && !is_space(s[0]) {
        lemma_bare_len_bound(s.drop_first());
    }
}

/// Split recipe text into arguments.  Tokens are quoted groups or bare runs;
/// blanks separate them; reading stops quietly at anything else (a newline
/// outside quotes).
pub open spec fn tokens_spec(s: Seq<char>) -> Seq<Seq<char>>
    decreases s.len(),
    via tokens_spec_dec
{
    let t = skip_blanks(s);
    if t.len() == 0 {
        Seq::empty()
    } else if t[0] == '"' && scan_quoted(t.drop_first()) is Some {
        let cr = scan_quoted(t.drop_first())->Some_0;
        seq![cr.0] + tokens_spec(cr.1)
    } else if !is_space(t[0]) {
        let n = bare_len(t);
        seq![t.take(n as int)] + tokens_spec(t.skip(n as int))
    } else {
        Seq::empty()
    }
}

#[via_fn]
proof fn tokens_spec_dec(s: Seq<char>) {
    lemma_skip_blanks_len(s);
    let t = skip_blanks(s);
    if t.len() > 0 {
        if t[0] == '"' && scan_quoted(t.drop_first()) is Some {
            lemma_scan_quoted_shrinks(t.drop_first());
        } else if !is_space(t[0]) {
            lemma_bare_len_bound(t);
            assert(bare_len(t) >= 1);
        }
    }
}

/// The length of the leading run of digits.
pub open spec fn digits_len(s: Seq<char>) -> nat
    decreases s.len(),
{
    if s.len() > 0 && is_digit(s[0]) {
        1 + digits_len(s.drop_first())
    } else {
        0
    }
}

proof fn lemma_digits_len_bound(s: Seq<char>)
    ensures
        digits_len(s) <= s.len(),
        forall|i: int| 0 <= i < digits_len(s) ==> is_digit(#[trigger] s[i]),
    decreases s.len(),
{
    if s.len() > 0 && is_digit(s[0]) {
        lemma_digits_len_bound(s.drop_first());
        assert(forall|i: int| 1 <= i < digits_len(s) ==> s[i] == s.drop_first()[i - 1]);
    }
}

/// The numeric value of a run of digits.
pub open spec fn digits_val(s: Seq<char>) -> nat
    decreases s.len(),
{
    if s.len() == 0 {
        0
    } else {
        digits_val(s.drop_last()) * 10 + (s.last() as u32 - '0' as u32) as nat
    }
}

/// The length of the leading run of word characters.
pub open spec fn word_len(s: Seq<char>) -> nat
    decreases s.len(),
{
    if s.len() > 0 && is_word_char(s[0]) {
        1 + word_len(s.drop_first())
    } else {
        0
    }
}

proof fn lemma_word_len_bound(s: Seq<char>)
    ensures
        word_len(s) <= s.len(),
    decreases s.len(),
{
    if s.len() > 0 && is_word_char(s[0]) {
        lemma_word_len_bound(s.drop_first());
    }
}

/// A bracketed index after a variable name: `[`, digits, `]`, with a value
/// that a machine word can hold.  Anything else leaves the text untouched.
pub open spec fn parse_index(u: Seq<char>) -> Option<(nat, Seq<char>)> {
    if u.len() >= 1 && u[0] == '[' {
        let d = digits_len(u.drop_first());
        if d >= 1 && u.len() >= d + 2 && u[d as int + 1] == ']' {
            let v = digits_val(u.subrange(1, d as int + 1));
            if v <= usize::MAX as nat {
                Some((v, u.skip(d as int + 2)))
            } else {
                None
            }
        } else {
            None
        }
    } else {
        None
    }
}

/// The variable denoted by `name`, with or without an index.
pub open spec fn variable_of(name: Seq<char>, index: Option<nat>) -> VarV {
    if name == seq!['@'] || name == "targets"@ {
        match index {
            Some(i) => VarV::Target(i),
            None => VarV::Targets,
        }
    } else if name == seq!['<'] || name == "inputs"@ {
        match index {
            Some(i) => VarV::Input(i),
            None => VarV::Inputs,
        }
    } else {
        VarV::Other(name)
    }
}

/// A variable reference after the `$`: `<`, `@`, or a word, then an
/// optional index (dropped for named bindings).
pub open spec fn parse_variable(u: Seq<char>) -> Option<(VarV, Seq<char>)> {
    if u.len() >= 1 && (u[0] == '<' || u[0] == '@') {
        let name = u.take(1);
        match parse_index(u.drop_first()) {
            Some((i, r)) => Some((variable_of(name, Some(i)), r)),
            None => Some((variable_of(name, None), u.drop_first())),
        }
    } else {
        let w = word_len(u);
        if w >= 1 {
            let name = u.take(w as int);
            match parse_index(u.skip(w as int)) {
                Some((i, r)) => Some((variable_of(name, Some(i)), r)),
                None => Some((variable_of(name, None), u.skip(w as int))),
            }
        } else {
            None
        }
    }
}

/// The length of the leading run of characters other than `$`.
pub open spec fn literal_len(s: Seq<char>) -> nat
    decreases s.len(),
{
    if s.len() > 0 && s[0] != '$' {
        1 + literal_len(s.drop_first())
    } else {
        0
    }
}

proof fn lemma_literal_len_bound(s: Seq<char>)
    ensures
        literal_len(s) <= s.len(),
    decreases s.len(),
{
    if s.len() > 0 && s[0] != '$' {
        lemma_literal_len_bound(s.drop_first());
    }
}

/// One element at the head of `s`: a variable after `$`, or a literal run.
pub open spec fn parse_element_at(s: Seq<char>) -> Option<(ElemV, Seq<char>)> {
    if s.len() == 0 {
        None
    } else if s[0] == '$' {
        match parse_variable(s.drop_first()) {
            Some((v, r)) => Some((ElemV::Var(v), r)),
            None => None,
        }
    } else {
        let n = literal_len(s);
        Some((ElemV::Text(s.take(n as int)), s.skip(n as int)))
    }
}

proof fn lemma_parse_index_shrinks(u: Seq<char>)
    requires
        parse_index(u) is Some,
    ensures
        parse_index(u)->Some_0.1.len() < u.len(),
{
    lemma_digits_len_bound(u.drop_first());
}

proof fn lemma_parse_element_shrinks(s: Seq<char>)
    requires
        parse_element_at(s) is Some,
    ensures
        parse_element_at(s)->Some_0.1.len() < s.len(),
{
    if s.len() > 0 && s[0] == '$' {
        let u = s.drop_first();
        if u.len() >= 1 && (u[0] == '<' || u[0] == '@') {
            if parse_index(u.drop_first()) is Some {
                lemma_parse_index_shrinks(u.drop_first());
            }
        } else {
            let w = word_len(u);
            lemma_word_len_bound(u);
            if parse_index(u.skip(w as int)) is Some {
                lemma_parse_index_shrinks(u.skip(w as int));
            }
        }
    } else if s.len() > 0 {
        lemma_literal_len_bound(s);
    }
}

/// All elements of one argument: read greedily until nothing more parses.
pub open spec fn elements_from(s: Seq<char>) -> Seq<ElemV>
    decreases s.len(),
    via elements_from_dec
{
    match parse_element_at(s) {
        None => Seq::empty(),
        Some((e, r)) => seq![e] + elements_from(r),
    }
}

#[via_fn]
proof fn elements_from_dec(s: Seq<char>) {
    if parse_element_at(s) is Some {
        lemma_parse_element_shrinks(s);
    }
}

/// What element parsing returns: at least the first element must parse.
pub open spec fn parse_elements_spec(s: Seq<char>) -> Option<Seq<ElemV>> {
    if parse_element_at(s) is None {
        None
    } else {
        Some(elements_from(s))
    }
}

/// Decides equality of two pieces of text.
pub fn text_eq(a: &str, b: &str) -> (r: bool)
    ensures
        r <==> a@ == b@,
{
    let n = a.unicode_len();
    if n != b.unicode_len() {
        return false;
    }
    let mut i: usize = 0;
    while i < n
        invariant
            i <= n,
            n == a@.len(),
            n == b@.len(),
            forall|k: int| 0 <= k < i ==> a@[k] == b@[k],
        decreases n - i,
    {
        if a.get_char(i) != b.get_char(i) {
            return false;
        }
        i += 1;
    }
    proof {
        assert(a@ =~= b@);
    }
    true
}

/// The position where the leading blanks of `s` past `pos` end.
fn skip_blanks_at(s: &str, pos: usize) -> (r: usize)
    requires
        pos <= s@.len(),
    ensures
        pos <= r <= s@.len(),
        skip_blanks(s@.skip(pos as int)) == s@.skip(r as int),
    decreases s@.len() - pos,
{
    let n = s.unicode_len();
    if pos < n {
        let ghost su = s@.skip(pos as int);
        proof {
            assert(su[0] == s@[pos as int]);
            assert(su.drop_first() =~= s@.skip(pos + 1));
        }
        let c = s.get_char(pos);
        if c == ' ' || c == '\t' {
            return skip_blanks_at(s, pos + 1);
        }
    }
    proof {
        assert(s@.skip(pos as int).len() == s@.len() - pos);
    }
    pos
}

/// The content of a quoted group starting at `pos` (just after the opening
/// quote) and the position just after its closing quote.
fn scan_quoted_at(s: &str, pos: usize) -> (r: Option<(String, usize)>)
    requires
        pos <= s@.len(),
    ensures
        match r {
            Some(cq) => pos < cq.1 <= s@.len() && scan_quoted(s@.skip(pos as int)) == Some(
                (cq.0@, s@.skip(cq.1 as int)),
            ),
            None => scan_quoted(s@.skip(pos as int)) is None,
        },
    decreases s@.len() - pos,
{
    let n = s.unicode_len();
    if pos == n {
        proof {
            assert(s@.skip(pos as int).len() == 0);
        }
        return None;
    }
    let ghost su = s@.skip(pos as int);
    proof {
        assert(su[0] == s@[pos as int]);
        assert(su.drop_first() =~= s@.skip(pos + 1));
        if pos + 2 <= n {
            assert(su.skip(2) =~= s@.skip(pos + 2));
            assert(su[1] == s@[pos + 1]);
        }
    }
    let c0 = s.get_char(pos);
    if c0 == '"' {
        return Some((String::new(), pos + 1));
    }
    if c0 == '\\' {
        if pos + 1 < n {
            let c1 = s.get_char(pos + 1);
            if c1 == '\\' || c1 == '"' || c1 == '\n' {
                match scan_quoted_at(s, pos + 2) {
                    Some((c, q)) => {
                        let piece = s.substring_char(pos + 1, pos + 2);
                        proof {
                            assert(piece@ =~= seq![s@[pos + 1]]);
                        }
                        let res = String::from_str(piece).concat(c.as_str());
                        return Some((res, q));
                    },
                    None => {
                        return None;
                    },
                }
            }
        }
        return None;
    }
    match scan_quoted_at(s, pos + 1) {
        Some((c, q)) => {
            let piece = s.substring_char(pos, pos + 1);
            proof {
                assert(piece@ =~= seq![s@[pos as int]]);
            }
            let res = String::from_str(piece).concat(c.as_str());
            Some((res, q))
        },
        None => None,
    }
}

/// The position where the bare token starting at `pos` ends.
fn bare_end_at(s: &str, pos: usize) -> (r: usize)
    requires
        pos <= s@.len(),
    ensures
        pos <= r <= s@.len(),
        bare_len(s@.skip(pos as int)) == r - pos,
    decreases s@.len() - pos,
{
    let n = s.unicode_len();
    if pos < n {
        let ghost su = s@.skip(pos as int);
        proof {
            assert(su[0] == s@[pos as int]);
            assert(su.drop_first() =~= s@.skip(pos + 1));
        }
        let c = s.get_char(pos);
        if !(c == ' ' || c == '\t' || c == '\n') {
            return bare_end_at(s, pos + 1);
        }
    }
    proof {
        assert(s@.skip(pos as int).len() == s@.len() - pos);
    }
    pos
}

/// Read tokens from `pos` to the end, appending them to `out`.
fn tokens_at(s: &str, pos: usize, out: &mut Vec<String>)
    requires
        pos <= s@.len(),
    ensures
        views_of(final(out)@) == views_of(old(out)@) + tokens_spec(s@.skip(pos as int)),
    decreases s@.len() - pos,
{
    let n = s.unicode_len();
    let t = skip_blanks_at(s, pos);
    let ghost tv = s@.skip(t as int);
    if t == n {
        proof {
            assert(tv.len() == 0);
            assert(views_of(out@) + Seq::<Seq<char>>::empty() =~= views_of(out@));
        }
        return ;
    }
    proof {
        assert(tv[0] == s@[t as int]);
        assert(tv.drop_first() =~= s@.skip(t + 1));
    }
    let c = s.get_char(t);
    if c == '"' {
        match scan_quoted_at(s, t + 1) {
            Some((content, q)) => {
                let ghost out0 = views_of(out@);
                let ghost cv = content@;
                out.push(content);
                tokens_at(s, q, out);
                proof {
                    assert(views_of(out@) =~= out0 + (seq![cv] + tokens_spec(s@.skip(q as int))));
                }
                return ;
            },
            None => {},
        }
    }
    if c == ' ' || c == '\t' || c == '\n' {
        // Only a newline can stand here: blanks were skipped.  Reading stops.
        proof {
            assert(views_of(out@) + Seq::<Seq<char>>::empty() =~= views_of(out@));
        }
        return ;
    }
    let e = bare_end_at(s, t);
    let token = s.substring_char(t, e);
    proof {
        assert(token@ =~= tv.take((e - t) as int));
        assert(tv.skip((e - t) as int) =~= s@.skip(e as int));
    }
    let ghost out0 = views_of(out@);
    let ghost tokv = token@;
    out.push(String::from_str(token));
    tokens_at(s, e, out);
    proof {
        assert(views_of(out@) =~= out0 + (seq![tokv] + tokens_spec(s@.skip(e as int))));
    }
}

/// Split recipe text into whitespace-separated, possibly quoted arguments.
pub fn parse_args(s: &str) -> (r: Result<Vec<String>, ParseArgsError>)
    ensures
        r matches Ok(v) && views_of(v@) == tokens_spec(s@),
{
    let mut out: Vec<String> = Vec::new();
    proof {
        assert(s@.skip(0) =~= s@);
    }
    tokens_at(s, 0, &mut out);
    proof {
        assert(Seq::<Seq<char>>::empty() + tokens_spec(s@) =~= tokens_spec(s@));
        assert(views_of(Seq::<String>::empty()) =~= Seq::<Seq<char>>::empty());
    }
    Ok(out)
}

/// The position where the digit run starting at `pos` ends.
fn digits_end_at(s: &str, pos: usize) -> (r: usize)
    requires
        pos <= s@.len(),
    ensures
        pos <= r <= s@.len(),
        digits_len(s@.skip(pos as int)) == r - pos,
    decreases s@.len() - pos,
{
    let n = s.unicode_len();
    if pos < n {
        let ghost su = s@.skip(pos as int);
        proof {
            assert(su[0] == s@[pos as int]);
            assert(su.drop_first() =~= s@.skip(pos + 1));
        }
        let c = s.get_char(pos);
        let u = c as u32;
        if 48 <= u && u <= 57 {
            proof {
                assert('0' as u32 == 48 && '9' as u32 == 57);
            }
            return digits_end_at(s, pos + 1);
        }
        proof {
            assert('0' as u32 == 48 && '9' as u32 == 57);
        }
    }
    proof {
        assert(s@.skip(pos as int).len() == s@.len() - pos);
    }
    pos
}

/// The position where the word-character run starting at `pos` ends.
fn word_end_at(s: &str, pos: usize) -> (r: usize)
    requires
        pos <= s@.len(),
    ensures
        pos <= r <= s@.len(),
        word_len(s@.skip(pos as int)) == r - pos,
    decreases s@.len() - pos,
{
    let n = s.unicode_len();
    if pos < n {
        let ghost su = s@.skip(pos as int);
        proof {
            assert(su[0] == s@[pos as int]);
            assert(su.drop_first() =~= s@.skip(pos + 1));
        }
        let c = s.get_char(pos);
        let u = c as u32;
        proof {
            assert('0' as u32 == 48 && '9' as u32 == 57 && 'a' as u32 == 97 && 'z' as u32 == 122
                && 'A' as u32 == 65 && 'Z' as u32 == 90);
        }
        if (48 <= u && u <= 57) || (97 <= u && u <= 122) || (65 <= u && u <= 90) || c == '_' || c
            == '-' {
            return word_end_at(s, pos + 1);
        }
    }
    proof {
        assert(s@.skip(pos as int).len() == s@.len() - pos);
    }
    pos
}

proof fn lemma_digits_val_monotone(u: Seq<char>, i: int)
    requires
        0 <= i <= u.len(),
    ensures
        digits_val(u.take(i)) <= digits_val(u),
    decreases u.len() - i,
{
    if i < u.len() {
        lemma_digits_val_monotone(u, i + 1);
        let a = u.take(i);
        let b = u.take(i + 1);
        assert(b.drop_last() =~= a);
        assert(digits_val(b) == digits_val(a) * 10 + (b.last() as u32 - '0' as u32) as nat);
        assert(digits_val(a) * 10 >= digits_val(a)) by (nonlinear_arith);
        assert(u.take(u.len() as int) =~= u);
    } else {
        assert(u.take(i) =~= u);
    }
}

/// The numeric value of the digits of `s` between `from` and `to`, unless it
/// cannot be held in a machine word.
#[verifier::loop_isolation(false)]
fn digits_value_at(s: &str, from: usize, to: usize) -> (r: Option<usize>)
    requires
        from <= to <= s@.len(),
        forall|i: int| from <= i < to ==> is_digit(#[trigger] s@[i]),
    ensures
        match r {
            Some(v) => digits_val(s@.subrange(from as int, to as int)) == v as nat,
            None => digits_val(s@.subrange(from as int, to as int)) > usize::MAX as nat,
        },
{
    let ghost run = s@.subrange(from as int, to as int);
    let mut acc: usize = 0;
    let mut k: usize = from;
    proof {
        assert(run.take(0) =~= Seq::<char>::empty());
    }
    while k < to
        invariant
            from <= k <= to <= s@.len(),
            run == s@.subrange(from as int, to as int),
            acc as nat == digits_val(run.take((k - from) as int)),
        decreases to - k,
    {
        let ghost pre = run.take((k - from) as int);
        let ghost pre1 = run.take((k + 1 - from) as int);
        proof {
            assert(pre1.drop_last() =~= pre);
            assert(pre1.last() == s@[k as int]);
        }
        let c = s.get_char(k);
        let u = c as u32;
        let d: usize = if u >= 48 {
            ((u - 48) as usize)
        } else {
            0
        };
        proof {
            assert('0' as u32 == 48);
        }
        if acc > (usize::MAX - d) / 10 {
            proof {
                assert(acc * 10 + d > usize::MAX) by (nonlinear_arith)
                    requires
                        acc > (usize::MAX - d) / 10,
                        d <= usize::MAX,
                ;
                assert(digits_val(pre1) > usize::MAX as nat);
                lemma_digits_val_monotone(run, k + 1 - from);
            }
            return None;
        }
        proof {
            assert(acc * 10 + d <= usize::MAX) by (nonlinear_arith)
                requires
                    acc <= (usize::MAX - d) / 10,
                    d <= usize::MAX,
            ;
        }
        acc = acc * 10 + d;
        k += 1;
    }
    proof {
        assert(run.take((to - from) as int) =~= run);
    }
    Some(acc)
}

/// A bracketed index at `pos`, when one stands there whole.
fn index_at(s: &str, pos: usize) -> (r: Option<(usize, usize)>)
    requires
        pos <= s@.len(),
    ensures
        match r {
            Some(vq) => pos < vq.1 <= s@.len() && parse_index(s@.skip(pos as int)) == Some(
                (vq.0 as nat, s@.skip(vq.1 as int)),
            ),
            None => parse_index(s@.skip(pos as int)) is None,
        },
{
    let n = s.unicode_len();
    let ghost su = s@.skip(pos as int);
    if pos == n {
        proof {
            assert(su.len() == 0);
        }
        return None;
    }
    proof {
        assert(su[0] == s@[pos as int]);
        assert(su.drop_first() =~= s@.skip(pos + 1));
    }
    if s.get_char(pos) != '[' {
        return None;
    }
    let dend = digits_end_at(s, pos + 1);
    let ghost d = digits_len(su.drop_first());
    proof {
        assert(d == dend - (pos + 1));
        lemma_digits_len_bound(s@.skip(pos + 1));
        assert forall|i: int| pos + 1 <= i < dend implies is_digit(#[trigger] s@[i]) by {
            assert(s@.skip(pos + 1)[i - (pos + 1)] == s@[i]);
        }
    }
    if dend == pos + 1 {
        return None;
    }
    if dend == n {
        proof {
            assert(su.len() < d + 2);
        }
        return None;
    }
    proof {
        assert(su[d as int + 1] == s@[dend as int]);
    }
    if s.get_char(dend) != ']' {
        return None;
    }
    match digits_value_at(s, pos + 1, dend) {
        Some(v) => {
            proof {
                assert(su.subrange(1, d as int + 1) =~= s@.subrange(pos + 1, dend as int));
                assert(su.skip(d as int + 2) =~= s@.skip(dend + 1));
            }
            Some((v, dend + 1))
        },
        None => {
            proof {
                assert(su.subrange(1, d as int + 1) =~= s@.subrange(pos + 1, dend as int));
            }
            None
        },
    }
}

/// A variable reference at `pos` (just after the `$`), when one parses.
fn variable_at(s: &str, pos: usize) -> (r: Option<(Variable, usize)>)
    requires
        pos <= s@.len(),
    ensures
        match r {
            Some(vq) => pos <= vq.1 <= s@.len() && parse_variable(s@.skip(pos as int)) =~= Some(
                (vq.0@, s@.skip(vq.1 as int)),
            ),
            None => parse_variable(s@.skip(pos as int)) is None,
        },
{
    let n = s.unicode_len();
    let ghost su = s@.skip(pos as int);
    proof {
        if pos < n {
            assert(su[0] == s@[pos as int]);
            assert(su.drop_first() =~= s@.skip(pos + 1));
        }
    }
    if pos < n && (s.get_char(pos) == '<' || s.get_char(pos) == '@') {
        let is_input = s.get_char(pos) == '<';
        proof {
            assert(su.take(1) =~= seq![s@[pos as int]]);
            reveal_strlit("targets");
            reveal_strlit("inputs");
            assert(su.take(1) != "targets"@ && su.take(1) != "inputs"@);
        }
        match index_at(s, pos + 1) {
            Some((i, q)) => {
                let v = if is_input {
                    Variable::Input(i)
                } else {
                    Variable::Target(i)
                };
                Some((v, q))
            },
            None => {
                let v = if is_input {
                    Variable::Inputs
                } else {
                    Variable::Targets
                };
                Some((v, pos + 1))
            },
        }
    } else {
        let wend = word_end_at(s, pos);
        let ghost w = word_len(su);
        proof {
            assert(w == wend - pos);
        }
        if wend == pos {
            return None;
        }
        let name = s.substring_char(pos, wend);
        proof {
            assert(name@ =~= su.take(w as int));
            assert(su.skip(w as int) =~= s@.skip(wend as int));
        }
        let is_targets = text_eq(name, "targets");
        let is_inputs = text_eq(name, "inputs");
        proof {
            assert(!is_word_char('@') && !is_word_char('<'));
            if name@ == seq!['@'] || name@ == seq!['<'] {
                assert(is_word_char(su[0]));
                assert(su.take(w as int)[0] == su[0]);
                assert(name@[0] == su[0]);
                assert(false);
            }
        }
        match index_at(s, wend) {
            Some((i, q)) => {
                let v = if is_targets {
                    Variable::Target(i)
                } else if is_inputs {
                    Variable::Input(i)
                } else {
                    Variable::Other(String::from_str(name))
                };
                Some((v, q))
            },
            None => {
                let v = if is_targets {
                    Variable::Targets
                } else if is_inputs {
                    Variable::Inputs
                } else {
                    Variable::Other(String::from_str(name))
                };
                Some((v, wend))
            },
        }
    }
}

/// The position where the literal run starting at `pos` ends.
fn literal_end_at(s: &str, pos: usize) -> (r: usize)
    requires
        pos <= s@.len(),
    ensures
        pos <= r <= s@.len(),
        literal_len(s@.skip(pos as int)) == r - pos,
    decreases s@.len() - pos,
{
    let n = s.unicode_len();
    if pos < n {
        let ghost su = s@.skip(pos as int);
        proof {
            assert(su[0] == s@[pos as int]);
            assert(su.drop_first() =~= s@.skip(pos + 1));
        }
        if s.get_char(pos) != '$' {
            return literal_end_at(s, pos + 1);
        }
    }
    proof {
        assert(s@.skip(pos as int).len() == s@.len() - pos);
    }
    pos
}

/// One element at `pos`, when one parses.
fn element_at(s: &str, pos: usize) -> (r: Option<(ArgElement, usize)>)
    requires
        pos <= s@.len(),
    ensures
        match r {
            Some(eq) => pos < eq.1 <= s@.len() && parse_element_at(s@.skip(pos as int)) == Some(
                (eq.0@, s@.skip(eq.1 as int)),
            ),
            None => parse_element_at(s@.skip(pos as int)) is None,
        },
{
    let n = s.unicode_len();
    let ghost su = s@.skip(pos as int);
    if pos == n {
        proof {
            assert(su.len() == 0);
        }
        return None;
    }
    proof {
        assert(su[0] == s@[pos as int]);
        assert(su.drop_first() =~= s@.skip(pos + 1));
    }
    if s.get_char(pos) == '$' {
        match variable_at(s, pos + 1) {
            Some((v, q)) => {
                proof {
                    lemma_parse_element_shrinks(su);
                }
                Some((ArgElement::Var(v), q))
            },
            None => None,
        }
    } else {
        let e = literal_end_at(s, pos);
        let lit = s.substring_char(pos, e);
        proof {
            assert(lit@ =~= su.take((e - pos) as int));
            assert(su.skip((e - pos) as int) =~= s@.skip(e as int));
        }
        Some((ArgElement::Str(String::from_str(lit)), e))
    }
}

/// Read elements from `pos` on, greedily, appending them to `out`.
fn elements_at(s: &str, pos: usize, out: &mut Vec<ArgElement>)
    requires
        pos <= s@.len(),
    ensures
        views_of(final(out)@) == views_of(old(out)@) + elements_from(s@.skip(pos as int)),
    decreases s@.len() - pos,
{
    match element_at(s, pos) {
        Some((e, q)) => {
            let ghost out0 = views_of(out@);
            let ghost ev = e@;
            out.push(e);
            elements_at(s, q, out);
            proof {
                assert(views_of(out@) =~= out0 + (seq![ev] + elements_from(s@.skip(q as int))));
            }
        },
        None => {
            proof {
                assert(views_of(out@) + Seq::<ElemV>::empty() =~= views_of(out@));
            }
        },
    }
}

/// Parse the elements of one argument.  The argument must begin with
/// something that parses; after that, reading is greedy and anything left
/// over is dropped quietly.
pub fn parse_elements(s: &str) -> (r: Result<Vec<ArgElement>, ParseElementsError>)
    ensures
        match r {
            Ok(v) => parse_elements_spec(s@) == Some(views_of(v@)),
            Err(_) => parse_elements_spec(s@) is None,
        },
{
    proof {
        assert(s@.skip(0) =~= s@);
    }
    match element_at(s, 0) {
        None => Err(ParseElementsError),
        Some(_) => {
            let mut out: Vec<ArgElement> = Vec::new();
            elements_at(s, 0, &mut out);
            proof {
                assert(views_of(Seq::<ArgElement>::empty()) + elements_from(s@) =~= elements_from(
                    s@,
                ));
            }
            Ok(out)
        },
    }
}

} // verus!
