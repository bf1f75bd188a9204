//! Reading dependency fragments in the classical `targets: prerequisites`
//! line format, with backslash-newline continuation.

use vstd::prelude::*;

use crate::views::{group_views_of, views_of};

verus! {

broadcast use group_views_of;

/// One rule: its targets and its prerequisites.
#[derive(Clone, Debug, PartialEq, Eq)]
pub struct Rule {
    pub targets: Vec<String>,
    pub prerequisites: Vec<String>,
}

/// The mathematical value of a `Rule`.
pub struct RuleV {
    pub targets: Seq<Seq<char>>,
    pub prerequisites: Seq<Seq<char>>,
}

impl View for Rule {
    type V = RuleV;

    open spec fn view(&self) -> RuleV {
        RuleV { targets: views_of(self.targets@), prerequisites: views_of(self.prerequisites@) }
    }
}

/// Why a fragment could not be read.  Reading is greedy and stops quietly at
/// text that is no rule, so neither case arises; the type records the error
/// surface all the same.
#[derive(Clone, Debug, PartialEq, Eq)]
pub enum Error {
    Incomplete,
    Failure(String),
}

/// The mathematical value of an `Error`.
pub enum MakeErrV {
    Incomplete,
    Failure(Seq<char>),
}

impl View for Error {
    type V = MakeErrV;

    open spec fn view(&self) -> MakeErrV {
        match self {
            Error::Incomplete => MakeErrV::Incomplete,
            Error::Failure(s) => MakeErrV::Failure(s@),
        }
    }
}

/// A character an identifier is made of: anything but blank, backslash,
/// newline and colon.
pub open spec fn is_ident_char(c: char) -> bool {
    !(c == ' ' || c == '\t' || c == '\\' || c == '\n' || c == ':')
}

/// Whether `s` starts with one unit of rule spacing: a blank or a
/// backslash-newline continuation.
pub open spec fn has_rule_space(s: Seq<char>) -> bool {
    s.len() > 0 && (s[0] == ' ' || s[0] == '\t' || (s.len() >= 2 && s[0] == '\\' && s[1] == '\n'))
}

/// Drop leading rule spacing.
pub open spec fn skip_rule_space(s: Seq<char>) -> Seq<char>
    decreases s.len(),
{
    if s.len() > 0 && (s[0] == ' ' || s[0] == '\t') {
        skip_rule_space(s.drop_first())
    } else if s.len() >= 2 && s[0] == '\\' && s[1] == '\n' {
        skip_rule_space(s.skip(2))
    } else {
        s
    }
}

proof fn lemma_skip_rule_space_len(s: Seq<char>)
    ensures
        skip_rule_space(s).len() <= s.len(),
        has_rule_space(s) ==> skip_rule_space(s).len() < s.len(),
    decreases s.len(),
{
    if s.len() > 0 && (s[0] == ' ' || s[0] == '\t') {
        lemma_skip_rule_space_len(s.drop_first());
    } else if s.len() >= 2 && s[0] == '\\' && s[1] == '\n' {
        lemma_skip_rule_space_len(s.skip(2));
    }
}

/// Drop leading blanks, newlines and carriage returns.
pub open spec fn skip_line_space(s: Seq<char>) -> Seq<char>
    decreases s.len(),
{
    if s.len() > 0 && (s[0] == ' ' || s[0] == '\t' || s[0] == '\n' || s[0] == '\r') {
        skip_line_space(s.drop_first())
    } else {
        s
    }
}

proof fn lemma_skip_line_space_len(s: Seq<char>)
    ensures
        skip_line_space(s).len() <= s.len(),
    decreases s.len(),
{
    if s.len() > 0 && (s[0] == ' ' || s[0] == '\t' || s[0] == '\n' || s[0] == '\r') {
        lemma_skip_line_space_len(s.drop_first());
    }
}

/// The length of the leading identifier run.
pub open spec fn ident_len(s: Seq<char>) -> nat
    decreases s.len(),
{
    if s.len() > 0 && is_ident_char(s[0]) {
        1 + ident_len(s.drop_first())
    } else {
        0
    }
}

proof fn lemma_ident_len_bound(s: Seq<char>)
    ensures
        ident_len(s) <= s.len(),
    decreases s.len(),
{
    if s.len() > 0 && is_ident_char(s[0]) {
        lemma_ident_len_bound(s.drop_first());
    }
}

/// The length of the leading run of colons.
pub open spec fn colons_len(s: Seq<char>) -> nat
    decreases s.len(),
{
    if s.len() > 0 && s[0] == ':' {
        1 + colons_len(s.drop_first())
    } else {
        0
    }
}

proof fn lemma_colons_len_bound(s: Seq<char>)
    ensures
        colons_len(s) <= s.len(),
    decreases s.len(),
{
    if s.len() > 0 && s[0] == ':' {
        lemma_colons_len_bound(s.drop_first());
    }
}

/// Further identifiers, each preceded by at least one unit of spacing.
/// Spacing not followed by an identifier is left unread.
pub open spec fn more_idents(s: Seq<char>) -> (Seq<Seq<char>>, Seq<char>)
    decreases s.len(),
    via more_idents_dec
{
    if has_rule_space(s) {
        let t = skip_rule_space(s);
        let n = ident_len(t);
        if n == 0 {
            (Seq::empty(), s)
        } else {
            let rec = more_idents(t.skip(n as int));
            (seq![t.take(n as int)] + rec.0, rec.1)
        }
    } else {
        (Seq::empty(), s)
    }
}

#[via_fn]
proof fn more_idents_dec(s: Seq<char>) {
    if has_rule_space(s) {
        lemma_skip_rule_space_len(s);
        lemma_ident_len_bound(skip_rule_space(s));
    }
}

proof fn lemma_more_idents_len(s: Seq<char>)
    ensures
        more_idents(s).1.len() <= s.len(),
    decreases s.len(),
{
    if has_rule_space(s) {
        lemma_skip_rule_space_len(s);
        let t = skip_rule_space(s);
        let n = ident_len(t);
        lemma_ident_len_bound(t);
        if n != 0 {
            lemma_more_idents_len(t.skip(n as int));
        }
    }
}

/// A non-empty identifier list with its surrounding spacing consumed.
pub open spec fn parse_idents(s: Seq<char>) -> Option<(Seq<Seq<char>>, Seq<char>)> {
    let t = skip_rule_space(s);
    let n = ident_len(t);
    if n == 0 {
        None
    } else {
        let rec = more_idents(t.skip(n as int));
        Some((seq![t.take(n as int)] + rec.0, skip_rule_space(rec.1)))
    }
}

proof fn lemma_parse_idents_len(s: Seq<char>)
    requires
        parse_idents(s) is Some,
    ensures
        parse_idents(s)->Some_0.1.len() < s.len(),
{
    lemma_skip_rule_space_len(s);
    let t = skip_rule_space(s);
    let n = ident_len(t);
    lemma_ident_len_bound(t);
    lemma_more_idents_len(t.skip(n as int));
    lemma_skip_rule_space_len(more_idents(t.skip(n as int)).1);
}

/// One rule: targets, at least one colon, optional prerequisites, an
/// optional newline, and surrounding line spacing.
pub open spec fn parse_rule(s: Seq<char>) -> Option<(RuleV, Seq<char>)> {
    let t = skip_line_space(s);
    match parse_idents(t) {
        None => None,
        Some((targets, r1)) => {
            let c = colons_len(r1);
            if c == 0 {
                None
            } else {
                let r2 = r1.skip(c as int);
                let pr = match parse_idents(r2) {
                    Some((ps, r3)) => (ps, r3),
                    None => (Seq::empty(), r2),
                };
                let r4 = if pr.1.len() > 0 && pr.1[0] == '\n' {
                    pr.1.drop_first()
                } else {
                    pr.1
                };
                Some((RuleV { targets, prerequisites: pr.0 }, skip_line_space(r4)))
            }
        },
    }
}

proof fn lemma_parse_rule_len(s: Seq<char>)
    requires
        parse_rule(s) is Some,
    ensures
        parse_rule(s)->Some_0.1.len() < s.len(),
{
    lemma_skip_line_space_len(s);
    let t = skip_line_space(s);
    lemma_parse_idents_len(t);
    let (targets, r1) = parse_idents(t)->Some_0;
    let c = colons_len(r1);
    lemma_colons_len_bound(r1);
    let r2 = r1.skip(c as int);
    let pr = match parse_idents(r2) {
        Some((ps, r3)) => (ps, r3),
        None => (Seq::empty(), r2),
    };
    if parse_idents(r2) is Some {
        lemma_parse_idents_len(r2);
    }
    let r4 = if pr.1.len() > 0 && pr.1[0] == '\n' {
        pr.1.drop_first()
    } else {
        pr.1
    };
    lemma_skip_line_space_len(r4);
}

/// All rules, read greedily; whatever follows the last rule is left unread.
pub open spec fn parse_rules(s: Seq<char>) -> Seq<RuleV>
    decreases s.len(),
    via parse_rules_dec
{
    match parse_rule(s) {
        None => Seq::empty(),
        Some((r, rest)) => seq![r] + parse_rules(rest),
    }
}

#[via_fn]
proof fn parse_rules_dec(s: Seq<char>) {
    if parse_rule(s) is Some {
        lemma_parse_rule_len(s);
    }
}

/// The position where the leading rule spacing past `pos` ends.
fn skip_rule_space_at(s: &str, pos: usize) -> (r: usize)
    requires
        pos <= s@.len(),
    ensures
        pos <= r <= s@.len(),
        skip_rule_space(s@.skip(pos as int)) == s@.skip(r as int),
    decreases s@.len() - pos,
{
    let n = s.unicode_len();
    if pos < n {
        let ghost su = s@.skip(pos as int);
        proof {
            assert(su[0] == s@[pos as int]);
            assert(su.drop_first() =~= s@.skip(pos + 1));
            if pos + 2 <= n {
                assert(su[1] == s@[pos + 1]);
                assert(su.skip(2) =~= s@.skip(pos + 2));
            }
        }
        let c = s.get_char(pos);
        if c == ' ' || c == '\t' {
            return skip_rule_space_at(s, pos + 1);
        }
        if c == '\\' && pos + 1 < n {
            if s.get_char(pos + 1) == '\n' {
                return skip_rule_space_at(s, pos + 2);
            }
        }
    }
    proof {
        assert(s@.skip(pos as int).len() == s@.len() - pos);
    }
    pos
}

/// The position where the leading line spacing past `pos` ends.
fn skip_line_space_at(s: &str, pos: usize) -> (r: usize)
    requires
        pos <= s@.len(),
    ensures
        pos <= r <= s@.len(),
        skip_line_space(s@.skip(pos as int)) == s@.skip(r as int),
    decreases s@.len() - pos,
{
    let n = s.unicode_len();
    if pos < n {
        let ghost su = s@.skip(pos as int);
        proof {
            assert(su[0] == s@[pos as int]);
            assert(su.drop_first() =~= s@.skip(pos + 1));
        }
        let c = s.get_char(pos);
        if c == ' ' || c == '\t' || c == '\n' || c == '\r' {
            return skip_line_space_at(s, pos + 1);
        }
    }
    proof {
        assert(s@.skip(pos as int).len() == s@.len() - pos);
    }
    pos
}

/// The position where the identifier starting at `pos` ends.
fn ident_end_at(s: &str, pos: usize) -> (r: usize)
    requires
        pos <= s@.len(),
    ensures
        pos <= r <= s@.len(),
        ident_len(s@.skip(pos as int)) == r - pos,
    decreases s@.len() - pos,
{
    let n = s.unicode_len();
    if pos < n {
        let ghost su = s@.skip(pos as int);
        proof {
            assert(su[0] == s@[pos as int]);
            assert(su.drop_first() =~= s@.skip(pos + 1));
        }
        let c = s.get_char(pos);
        if !(c == ' ' || c == '\t' || c == '\\' || c == '\n' || c == ':') {
            return ident_end_at(s, pos + 1);
        }
    }
    proof {
        assert(s@.skip(pos as int).len() == s@.len() - pos);
    }
    pos
}

/// The position where the colon run starting at `pos` ends.
fn colons_end_at(s: &str, pos: usize) -> (r: usize)
    requires
        pos <= s@.len(),
    ensures
        pos <= r <= s@.len(),
        colons_len(s@.skip(pos as int)) == r - pos,
    decreases s@.len() - pos,
{
    let n = s.unicode_len();
    if pos < n {
        let ghost su = s@.skip(pos as int);
        proof {
            assert(su[0] == s@[pos as int]);
            assert(su.drop_first() =~= s@.skip(pos + 1));
        }
        if s.get_char(pos) == ':' {
            return colons_end_at(s, pos + 1);
        }
    }
    proof {
        assert(s@.skip(pos as int).len() == s@.len() - pos);
    }
    pos
}

/// Read the further identifiers of a list, appending them to `out`, and say
/// where reading stopped.
fn more_idents_at(s: &str, pos: usize, out: &mut Vec<String>) -> (r: usize)
    requires
        pos <= s@.len(),
    ensures
        pos <= r <= s@.len(),
        views_of(final(out)@) == views_of(old(out)@) + more_idents(s@.skip(pos as int)).0,
        more_idents(s@.skip(pos as int)).1 == s@.skip(r as int),
    decreases s@.len() - pos,
{
    let ghost su = s@.skip(pos as int);
    let t = skip_rule_space_at(s, pos);
    let n = s.unicode_len();
    let has_space: bool = if pos < n {
        let c = s.get_char(pos);
        if c == ' ' || c == '\t' {
            true
        } else if c == '\\' && pos + 1 < n {
            s.get_char(pos + 1) == '\n'
        } else {
            false
        }
    } else {
        false
    };
    proof {
        if pos < n {
            assert(su[0] == s@[pos as int]);
            if pos + 2 <= n {
                assert(su[1] == s@[pos + 1]);
            }
        }
        assert(has_space == has_rule_space(su));
    }
    if !has_space {
        proof {
            assert(views_of(out@) + Seq::<Seq<char>>::empty() =~= views_of(out@));
        }
        return pos;
    }
    let e = ident_end_at(s, t);
    if e == t {
        proof {
            assert(views_of(out@) + Seq::<Seq<char>>::empty() =~= views_of(out@));
        }
        return pos;
    }
    let id = s.substring_char(t, e);
    let ghost tv = s@.skip(t as int);
    proof {
        assert(id@ =~= tv.take((e - t) as int));
        assert(tv.skip((e - t) as int) =~= s@.skip(e as int));
    }
    let ghost out0 = views_of(out@);
    let ghost idv = id@;
    out.push(String::from_str(id));
    let r = more_idents_at(s, e, out);
    proof {
        assert(views_of(out@) =~= out0 + (seq![idv] + more_idents(s@.skip(e as int)).0));
    }
    r
}

/// A non-empty identifier list at `pos`, when one stands there.
fn idents_at(s: &str, pos: usize) -> (r: Option<(Vec<String>, usize)>)
    requires
        pos <= s@.len(),
    ensures
        match r {
            Some(vq) => vq.1 <= s@.len() && parse_idents(s@.skip(pos as int)) =~= Some(
                (views_of(vq.0@), s@.skip(vq.1 as int)),
            ),
            None => parse_idents(s@.skip(pos as int)) is None,
        },
{
    let t = skip_rule_space_at(s, pos);
    let e = ident_end_at(s, t);
    if e == t {
        return None;
    }
    let id = s.substring_char(t, e);
    let ghost tv = s@.skip(t as int);
    proof {
        assert(id@ =~= tv.take((e - t) as int));
        assert(tv.skip((e - t) as int) =~= s@.skip(e as int));
    }
    let mut out: Vec<String> = Vec::new();
    out.push(String::from_str(id));
    let ghost out1 = views_of(out@);
    let r = more_idents_at(s, e, &mut out);
    let q = skip_rule_space_at(s, r);
    proof {
        assert(out1 =~= Seq::<Seq<char>>::empty().push(id@));
        assert(views_of(out@) =~= seq![id@] + more_idents(s@.skip(e as int)).0);
    }
    Some((out, q))
}

/// One rule at `pos`, when one stands there.
fn rule_at(s: &str, pos: usize) -> (r: Option<(Rule, usize)>)
    requires
        pos <= s@.len(),
    ensures
        match r {
            Some(vq) => pos < vq.1 <= s@.len() && parse_rule(s@.skip(pos as int)) =~= Some(
                (vq.0@, s@.skip(vq.1 as int)),
            ),
            None => parse_rule(s@.skip(pos as int)) is None,
        },
{
    let t = skip_line_space_at(s, pos);
    match idents_at(s, t) {
        None => None,
        Some((targets, r1)) => {
            let c = colons_end_at(s, r1);
            if c == r1 {
                return None;
            }
            proof {
                assert(s@.skip(r1 as int).skip((c - r1) as int) =~= s@.skip(c as int));
            }
            let (prerequisites, r3) = match idents_at(s, c) {
                Some((ps, r3)) => (ps, r3),
                None => (Vec::new(), c),
            };
            proof {
                if parse_idents(s@.skip(c as int)) is None {
                    assert(views_of(Seq::<String>::empty()) =~= Seq::<Seq<char>>::empty());
                }
            }
            let n = s.unicode_len();
            let r4: usize = if r3 < n {
                let ghost r3v = s@.skip(r3 as int);
                proof {
                    assert(r3v[0] == s@[r3 as int]);
                    assert(r3v.drop_first() =~= s@.skip(r3 + 1));
                }
                if s.get_char(r3) == '\n' {
                    r3 + 1
                } else {
                    r3
                }
            } else {
                proof {
                    assert(s@.skip(r3 as int).len() == 0);
                }
                r3
            };
            let r5 = skip_line_space_at(s, r4);
            let rule = Rule { targets, prerequisites };
            proof {
                lemma_parse_rule_len(s@.skip(pos as int));
                assert(s@.skip(r5 as int).len() == s@.len() - r5);
                assert(parse_rule(s@.skip(pos as int))->Some_0.1 == s@.skip(r5 as int));
            }
            Some((rule, r5))
        },
    }
}

/// Read rules from `pos` on, appending them to `out`.
fn rules_at(s: &str, pos: usize, out: &mut Vec<Rule>)
    requires
        pos <= s@.len(),
    ensures
        views_of(final(out)@) == views_of(old(out)@) + parse_rules(s@.skip(pos as int)),
    decreases s@.len() - pos,
{
    match rule_at(s, pos) {
        Some((rule, q)) => {
            let ghost out0 = views_of(out@);
            let ghost rv = rule@;
            out.push(rule);
            rules_at(s, q, out);
            proof {
                assert(views_of(out@) =~= out0 + (seq![rv] + parse_rules(s@.skip(q as int))));
            }
        },
        None => {
            proof {
                assert(views_of(out@) + Seq::<RuleV>::empty() =~= views_of(out@));
            }
        },
    }
}

/// Read a whole dependency fragment.  Reading is greedy: text after the
/// last rule is dropped quietly, and the result is always returned.
pub fn parse(i: &str) -> (r: Result<Vec<Rule>, Error>)
    ensures
        r matches Ok(v) && views_of(v@) == parse_rules(i@),
{
    let mut out: Vec<Rule> = Vec::new();
    proof {
        assert(i@.skip(0) =~= i@);
    }
    rules_at(i, 0, &mut out);
    proof {
        assert(views_of(Seq::<Rule>::empty()) + parse_rules(i@) =~= parse_rules(i@));
    }
    Ok(out)
}

/// The pairs of one target with each prerequisite, in order.
pub open spec fn target_pairs(t: Seq<char>, ps: Seq<Seq<char>>) -> Seq<(Seq<char>, Seq<char>)>
    decreases ps.len(),
{
    if ps.len() == 0 {
        Seq::empty()
    } else {
        seq![(t, ps[0])] + target_pairs(t, ps.drop_first())
    }
}

/// The pairs of one rule: each target crossed with each prerequisite.
pub open spec fn rule_pairs(ts: Seq<Seq<char>>, ps: Seq<Seq<char>>) -> Seq<(Seq<char>, Seq<char>)>
    decreases ts.len(),
{
    if ts.len() == 0 {
        Seq::empty()
    } else {
        target_pairs(ts[0], ps) + rule_pairs(ts.drop_first(), ps)
    }
}

/// The pairs of a whole fragment, rule by rule.
pub open spec fn rules_pairs(rs: Seq<RuleV>) -> Seq<(Seq<char>, Seq<char>)>
    decreases rs.len(),
{
    if rs.len() == 0 {
        Seq::empty()
    } else {
        rule_pairs(rs[0].targets, rs[0].prerequisites) + rules_pairs(rs.drop_first())
    }
}

/// The view of a pair list.
pub open spec fn pairs_view(v: Seq<(String, String)>) -> Seq<(Seq<char>, Seq<char>)>
    decreases v.len(),
{
    if v.len() == 0 {
        Seq::empty()
    } else {
        pairs_view(v.drop_last()).push((v.last().0@, v.last().1@))
    }
}

pub proof fn lemma_pairs_view_len(v: Seq<(String, String)>)
    ensures
        pairs_view(v).len() == v.len(),
    decreases v.len(),
{
    if v.len() > 0 {
        lemma_pairs_view_len(v.drop_last());
    }
}

pub proof fn lemma_pairs_view_index(v: Seq<(String, String)>, i: int)
    requires
        0 <= i < v.len(),
    ensures
        pairs_view(v).len() == v.len(),
        pairs_view(v)[i] == (v[i].0@, v[i].1@),
    decreases v.len(),
{
    lemma_pairs_view_len(v);
    if i + 1 < v.len() {
        lemma_pairs_view_index(v.drop_last(), i);
        lemma_pairs_view_len(v.drop_last());
    }
}

proof fn lemma_pairs_view_push(v: Seq<(String, String)>, p: (String, String))
    ensures
        pairs_view(v.push(p)) == pairs_view(v).push((p.0@, p.1@)),
{
    assert(v.push(p).drop_last() =~= v);
    assert(v.push(p).last() == p);
}

/// Append the pairs of one target with the prerequisites from `k` on.
fn push_target_pairs(t: &String, ps: &Vec<String>, k: usize, out: &mut Vec<(String, String)>)
    requires
        k <= ps@.len(),
    ensures
        pairs_view(final(out)@) == pairs_view(old(out)@) + target_pairs(
            t@,
            views_of(ps@).skip(k as int),
        ),
    decreases ps@.len() - k,
{
    broadcast use group_views_of;

    let ghost rest = views_of(ps@).skip(k as int);
    if k == ps.len() {
        proof {
            assert(rest.len() == 0);
            assert(pairs_view(out@) + Seq::<(Seq<char>, Seq<char>)>::empty() =~= pairs_view(out@));
        }
        return ;
    }
    proof {
        assert(rest[0] == views_of(ps@)[k as int]);
        assert(rest.drop_first() =~= views_of(ps@).skip(k + 1));
    }
    let ghost out0 = pairs_view(out@);
    let ghost outseq0 = out@;
    let pair = (t.clone(), ps[k].clone());
    let ghost gp = pair;
    out.push(pair);
    let ghost pv = (gp.0@, gp.1@);
    proof {
        lemma_pairs_view_push(outseq0, gp);
        assert(pairs_view(out@) =~= out0.push(pv));
    }
    push_target_pairs(t, ps, k + 1, out);
    proof {
        assert(pairs_view(out@) =~= out0 + (seq![pv] + target_pairs(t@, views_of(ps@).skip(
            k + 1,
        ))));
    }
}

/// Append the pairs of the targets from `j` on, crossed with `ps`.
fn push_rule_pairs(ts: &Vec<String>, j: usize, ps: &Vec<String>, out: &mut Vec<(String, String)>)
    requires
        j <= ts@.len(),
    ensures
        pairs_view(final(out)@) == pairs_view(old(out)@) + rule_pairs(
            views_of(ts@).skip(j as int),
            views_of(ps@),
        ),
    decreases ts@.len() - j,
{
    broadcast use group_views_of;

    let ghost rest = views_of(ts@).skip(j as int);
    if j == ts.len() {
        proof {
            assert(rest.len() == 0);
            assert(pairs_view(out@) + Seq::<(Seq<char>, Seq<char>)>::empty() =~= pairs_view(out@));
        }
        return ;
    }
    proof {
        assert(rest[0] == views_of(ts@)[j as int]);
        assert(rest.drop_first() =~= views_of(ts@).skip(j + 1));
    }
    let ghost out0 = pairs_view(out@);
    push_target_pairs(&ts[j], ps, 0, out);
    proof {
        assert(views_of(ps@).skip(0) =~= views_of(ps@));
    }
    push_rule_pairs(ts, j + 1, ps, out);
    proof {
        assert(pairs_view(out@) =~= out0 + (target_pairs(views_of(ts@)[j as int], views_of(ps@))
            + rule_pairs(views_of(ts@).skip(j + 1), views_of(ps@))));
    }
}

/// Read a fragment and emit one `(target, prerequisite)` pair for every
/// combination each rule declares, in reading order.
pub fn cake(i: &str) -> (r: Result<Vec<(String, String)>, Error>)
    ensures
        r matches Ok(v) && pairs_view(v@) == rules_pairs(parse_rules(i@)),
{
    let rules = match parse(i) {
        Ok(rules) => rules,
        Err(e) => {
            return Err(e);
        },
    };
    let ghost rsv = views_of(rules@);
    let mut out: Vec<(String, String)> = Vec::new();
    let n = rules.len();
    let mut i2: usize = 0;
    proof {
        assert(rsv.skip(0) =~= rsv);
        assert(pairs_view(out@) =~= Seq::<(Seq<char>, Seq<char>)>::empty());
    }
    while i2 < n
        invariant
            i2 <= n,
            n == rules@.len(),
            rsv == views_of(rules@),
            pairs_view(out@) + rules_pairs(rsv.skip(i2 as int)) == rules_pairs(rsv),
        decreases n - i2,
    {
        let ghost rest = rsv.skip(i2 as int);
        proof {
            assert(rest[0] == rsv[i2 as int]);
            assert(rest.drop_first() =~= rsv.skip(i2 + 1));
            assert(rsv[i2 as int] == rules@[i2 as int]@);
        }
        let ghost out0 = pairs_view(out@);
        push_rule_pairs(&rules[i2].targets, 0, &rules[i2].prerequisites, &mut out);
        proof {
            assert(views_of(rules[i2 as int].targets@).skip(0) =~= views_of(
                rules[i2 as int].targets@,
            ));
            assert(pairs_view(out@) + rules_pairs(rsv.skip(i2 + 1)) =~= out0 + (rule_pairs(
                rest[0].targets,
                rest[0].prerequisites,
            ) + rules_pairs(rsv.skip(i2 + 1))));
        }
        i2 += 1;
    }
    proof {
        assert(rsv.skip(n as int) =~= Seq::<RuleV>::empty());
        assert(pairs_view(out@) + Seq::<(Seq<char>, Seq<char>)>::empty() =~= pairs_view(out@));
    }
    Ok(out)
}

} // verus!
