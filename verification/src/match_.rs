//! The matcher: anchors a pattern inside a document.
//!
//! Every start offset is tried in increasing order; from a given offset the
//! rules are matched one after the other.  A literal must stand verbatim at
//! the current position, a line break must be a `'\n'` (optionally paired
//! with a `'\r'` right after it), and a placeholder absorbs the shortest
//! span that lets the remaining rules succeed.

use vstd::prelude::*;

use crate::pattern::{Pattern, Rule, RuleV};

verus! {

/// A half-open index range `[start, end)` inside a document.
#[derive(Debug, PartialEq, Clone, Copy)]
pub struct Pos(pub usize, pub usize);

impl View for Pos {
    type V = (int, int);

    open spec fn view(&self) -> (int, int) {
        (self.0 as int, self.1 as int)
    }
}

/// One range per pattern rule, in pattern order.
#[derive(Debug, PartialEq)]
pub struct Match(pub Vec<(Rule, Pos)>);

impl View for Match {
    type V = Seq<(RuleV, (int, int))>;

    open spec fn view(&self) -> Seq<(RuleV, (int, int))> {
        self.0@.map_values(|e: (Rule, Pos)| (e.0@, e.1@))
    }
}

/// Where a line break that starts at `p` ends: after the `'\n'`, and after
/// a `'\r'` that immediately follows it when there is one.
pub open spec fn lb_end(doc: Seq<char>, p: int) -> int
    recommends
        0 <= p < doc.len(),
        doc[p] == '\n',
{
    if p + 1 < doc.len() && doc[p + 1] == '\r' {
        p + 2
    } else {
        p + 1
    }
}

/// Where the non-placeholder rule `r` ends when it is required to match at
/// position `p` of `doc`, or `None` when it does not match there.
pub open spec fn rule_end(doc: Seq<char>, r: RuleV, p: int) -> Option<int>
    recommends
        0 <= p <= doc.len(),
        !r.is_placeholder(),
{
    match r {
        RuleV::Literal(t) => if p + t.len() <= doc.len() && doc.subrange(p, p + t.len()) == t {
            Some(p + t.len())
        } else {
            None
        },
        RuleV::LineBreak => if p < doc.len() && doc[p] == '\n' {
            Some(lb_end(doc, p))
        } else {
            None
        },
        _ => None,
    }
}

/// The ranges that `rules[k..]` consume when matching begins at position
/// `p` of `doc`, or `None` when no assignment of placeholder spans lets
/// them all succeed.  Each placeholder takes the shortest span, found by
/// trying candidate end positions in increasing order.
pub open spec fn match_from(doc: Seq<char>, rules: Seq<RuleV>, k: int, p: int) -> Option<
    Seq<(int, int)>,
>
    recommends
        0 <= k <= rules.len(),
        0 <= p <= doc.len(),
    decreases rules.len() - k, doc.len() + 1 - p,
    when 0 <= k <= rules.len() && 0 <= p <= doc.len()
{
    if k >= rules.len() {
        Some(seq![])
    } else if !rules[k].is_placeholder() {
        match rule_end(doc, rules[k], p) {
            None => None,
            Some(q) => if p <= q <= doc.len() {
                match match_from(doc, rules, k + 1, q) {
                    None => None,
                    Some(rest) => Some(seq![(p, q)] + rest),
                }
            } else {
                None
            },
        }
    } else {
        match hole_end(doc, rules, k, p) {
            None => None,
            Some(q) => match match_from(doc, rules, k + 1, q) {
                None => None,
                Some(rest) => Some(seq![(p, q)] + rest),
            },
        }
    }
}

/// The shortest end position `q` in `[p, doc.len())` at which the rules
/// after the placeholder `rules[k]` all match, or `None` when no such
/// position exists.  A placeholder is never allowed to reach the very end
/// of the remaining input.
pub open spec fn hole_end(doc: Seq<char>, rules: Seq<RuleV>, k: int, q: int) -> Option<int>
    recommends
        0 <= k < rules.len(),
        0 <= q <= doc.len(),
    decreases rules.len() - k, doc.len() - q,
    when 0 <= k < rules.len() && 0 <= q <= doc.len()
{
    if q >= doc.len() {
        None
    } else if match_from(doc, rules, k + 1, q) is Some {
        Some(q)
    } else {
        hole_end(doc, rules, k, q + 1)
    }
}

/// The first start offset at or after `i` from which the whole rule list
/// matches, or `None` when none exists below `doc.len()`.
pub open spec fn anchor_from(doc: Seq<char>, rules: Seq<RuleV>, i: int) -> Option<int>
    recommends
        0 <= i <= doc.len(),
    decreases doc.len() - i,
    when 0 <= i <= doc.len()
{
    if i >= doc.len() {
        None
    } else if match_from(doc, rules, 0, i) is Some {
        Some(i)
    } else {
        anchor_from(doc, rules, i + 1)
    }
}

/// What [`match_`] yields: the rules of the pattern paired with the ranges
/// they consume from the first start offset that admits a full match.
pub open spec fn spec_match(doc: Seq<char>, rules: Seq<RuleV>) -> Option<
    Seq<(RuleV, (int, int))>,
> {
    match anchor_from(doc, rules, 0) {
        None => None,
        Some(s) => {
            let ps = match_from(doc, rules, 0, s)->Some_0;
            Some(Seq::new(rules.len(), |k: int| (rules[k], ps[k])))
        },
    }
}

/// A range list is well formed for `doc` when every range lies inside the
/// document and has a non-negative extent.
pub open spec fn match_wf(doc: Seq<char>, m: Seq<(RuleV, (int, int))>) -> bool {
    forall|k: int| 0 <= k < m.len() ==> 0 <= #[trigger] m[k].1.0 <= m[k].1.1 <= doc.len()
}

/// Ranges produced by [`match_from`] are one per remaining rule, contiguous
/// from `p`, within bounds, and each non-placeholder rule's range is exactly
/// the one [`rule_end`] requires of it.
pub proof fn lemma_match_from_wf(doc: Seq<char>, rules: Seq<RuleV>, k: int, p: int)
    requires
        0 <= k <= rules.len(),
        0 <= p <= doc.len(),
        match_from(doc, rules, k, p) is Some,
    ensures
        ({
            let ps = match_from(doc, rules, k, p)->Some_0;
            &&& ps.len() == rules.len() - k
            &&& forall|j: int|
                0 <= j < ps.len() ==> p <= #[trigger] ps[j].0 <= ps[j].1 <= doc.len()
            &&& (ps.len() > 0 ==> ps[0].0 == p)
            &&& forall|j: int| 0 <= j < ps.len() - 1 ==> #[trigger] ps[j].1 == ps[j + 1].0
            &&& forall|j: int|
                0 <= j < ps.len() && !rules[k + j].is_placeholder() ==> rule_end(
                    doc,
                    rules[k + j],
                    #[trigger] ps[j].0,
                ) == Some(ps[j].1)
        }),
    decreases rules.len() - k, doc.len() + 1 - p,
{
    if k >= rules.len() {
        return ;
    }
    let ps = match_from(doc, rules, k, p)->Some_0;
    if !rules[k].is_placeholder() {
        let q = rule_end(doc, rules[k], p)->Some_0;
        lemma_match_from_wf(doc, rules, k + 1, q);
        let rest = match_from(doc, rules, k + 1, q)->Some_0;
        assert(ps == seq![(p, q)] + rest);
        assert forall|j: int| 0 <= j < ps.len() - 1 implies #[trigger] ps[j].1 == ps[j + 1].0 by {
            if j > 0 {
                assert(ps[j] == rest[j - 1]);
                assert(ps[j + 1] == rest[j]);
            } else {
                if rest.len() > 0 {
                    assert(ps[1] == rest[0]);
                }
            }
        }
    } else {
        let q = hole_end(doc, rules, k, p)->Some_0;
        lemma_hole_end_wf(doc, rules, k, p);
        lemma_match_from_wf(doc, rules, k + 1, q);
        let rest = match_from(doc, rules, k + 1, q)->Some_0;
        assert(ps == seq![(p, q)] + rest);
        assert forall|j: int| 0 <= j < ps.len() - 1 implies #[trigger] ps[j].1 == ps[j + 1].0 by {
            if j > 0 {
                assert(ps[j] == rest[j - 1]);
                assert(ps[j + 1] == rest[j]);
            } else {
                if rest.len() > 0 {
                    assert(ps[1] == rest[0]);
                }
            }
        }
    }
}

/// A found placeholder end lies in `[q0, doc.len())` and admits a match of
/// the remaining rules.
pub proof fn lemma_hole_end_wf(doc: Seq<char>, rules: Seq<RuleV>, k: int, q0: int)
    requires
        0 <= k < rules.len(),
        0 <= q0 <= doc.len(),
        hole_end(doc, rules, k, q0) is Some,
    ensures
        ({
            let q = hole_end(doc, rules, k, q0)->Some_0;
            &&& q0 <= q < doc.len()
            &&& match_from(doc, rules, k + 1, q) is Some
        }),
    decreases doc.len() - q0,
{
    if q0 < doc.len() && !(match_from(doc, rules, k + 1, q0) is Some) {
        lemma_hole_end_wf(doc, rules, k, q0 + 1);
    }
}

/// A found anchor lies in `[i, doc.len())` and admits a full match.
pub proof fn lemma_anchor_wf(doc: Seq<char>, rules: Seq<RuleV>, i: int)
    requires
        0 <= i <= doc.len(),
        anchor_from(doc, rules, i) is Some,
    ensures
        ({
            let s = anchor_from(doc, rules, i)->Some_0;
            &&& i <= s < doc.len()
            &&& match_from(doc, rules, 0, s) is Some
        }),
    decreases doc.len() - i,
{
    if i < doc.len() && !(match_from(doc, rules, 0, i) is Some) {
        lemma_anchor_wf(doc, rules, i + 1);
    }
}

/// A full match is faithful to the pattern's fixed text: the entry at `k`
/// carries the rule at `k`, a `Literal` entry's range holds exactly the
/// literal's text, and a `LineBreak` entry's range starts on a `'\n'`.
/// A document that differs from the required text at every start offset
/// therefore admits no match at all.
pub proof fn lemma_literal_fidelity(
    doc: Seq<char>,
    rules: Seq<RuleV>,
    m: Seq<(RuleV, (int, int))>,
    k: int,
)
    requires
        spec_match(doc, rules) == Some(m),
        0 <= k < m.len(),
    ensures
        m.len() == rules.len(),
        m[k].0 == rules[k],
        m[k].0 matches RuleV::Literal(t) ==> m[k].1.1 == m[k].1.0 + t.len() && doc.subrange(
            m[k].1.0,
            m[k].1.1,
        ) == t,
        m[k].0 is LineBreak ==> 0 <= m[k].1.0 < doc.len() && doc[m[k].1.0] == '\n',
{
    let s = anchor_from(doc, rules, 0)->Some_0;
    lemma_anchor_wf(doc, rules, 0);
    lemma_match_from_wf(doc, rules, 0, s);
    let ps = match_from(doc, rules, 0, s)->Some_0;
    assert(m[k] == (rules[k], ps[k]));
    if !rules[k].is_placeholder() {
        assert(rule_end(doc, rules[k], ps[k].0) == Some(ps[k].1));
    }
}

/// The ranges of a full match are contiguous and non-decreasing: every
/// entry's range begins exactly where the previous entry's range ended.
pub proof fn lemma_match_contiguous(
    doc: Seq<char>,
    rules: Seq<RuleV>,
    m: Seq<(RuleV, (int, int))>,
    k: int,
)
    requires
        spec_match(doc, rules) == Some(m),
        0 <= k < m.len() - 1,
    ensures
        m[k].1.1 == m[k + 1].1.0,
{
    let s = anchor_from(doc, rules, 0)->Some_0;
    lemma_anchor_wf(doc, rules, 0);
    lemma_match_from_wf(doc, rules, 0, s);
}

/// Skipping candidate positions that admit no match does not change the
/// placeholder end the search settles on.
proof fn lemma_hole_skip(doc: Seq<char>, rules: Seq<RuleV>, k: int, p: int, q: int)
    requires
        0 <= k < rules.len(),
        0 <= p <= q <= doc.len(),
        forall|j: int| p <= j < q ==> #[trigger] match_from(doc, rules, k + 1, j) is None,
    ensures
        hole_end(doc, rules, k, p) == hole_end(doc, rules, k, q),
    decreases q - p,
{
    if p < q {
        assert(match_from(doc, rules, k + 1, p) is None);
        assert(hole_end(doc, rules, k, p) == hole_end(doc, rules, k, p + 1));
        lemma_hole_skip(doc, rules, k, p + 1, q);
    }
}

/// Skipping start offsets that admit no match does not change the anchor
/// the search settles on.
proof fn lemma_anchor_skip(doc: Seq<char>, rules: Seq<RuleV>, i: int, s: int)
    requires
        0 <= i <= s <= doc.len(),
        forall|j: int| i <= j < s ==> #[trigger] match_from(doc, rules, 0, j) is None,
    ensures
        anchor_from(doc, rules, i) == anchor_from(doc, rules, s),
    decreases s - i,
{
    if i < s {
        assert(match_from(doc, rules, 0, i) is None);
        assert(anchor_from(doc, rules, i) == anchor_from(doc, rules, i + 1));
        lemma_anchor_skip(doc, rules, i + 1, s);
    }
}

/// Whether the non-placeholder rule `rule` matches at position `p` of
/// `input`, and where it ends when it does.
#[verifier::loop_isolation(false)]
fn match_rule(input: &str, p: usize, rule: &Rule) -> (r: Option<usize>)
    requires
        p <= input@.len(),
        !rule@.is_placeholder(),
    ensures
        match r {
            Some(q) => rule_end(input@, rule@, p as int) == Some(q as int) && p <= q
                <= input@.len(),
            None => rule_end(input@, rule@, p as int) is None,
        },
{
    let ilen = input.unicode_len();
    match rule {
        Rule::Literal(t) => {
            let n = t.as_str().unicode_len();
            if n > ilen - p {
                return None;
            }
            let mut j: usize = 0;
            while j < n
                invariant
                    j <= n,
                    p + n <= ilen,
                    ilen == input@.len(),
                    n == t@.len(),
                    forall|l: int| 0 <= l < j ==> input@[p + l] == t@[l],
                decreases n - j,
            {
                if input.get_char(p + j) != t.as_str().get_char(j) {
                    proof {
                        let sub = input@.subrange(p as int, p as int + t@.len());
                        assert(sub[j as int] == input@[p as int + j]);
                        assert(sub != t@);
                        assert(rule@ == RuleV::Literal(t@));
                        assert(rule_end(input@, rule@, p as int) is None);
                    }
                    return None;
                }
                j += 1;
            }
            proof {
                assert(input@.subrange(p as int, p as int + t@.len()) =~= t@);
            }
            Some(p + n)
        },
        Rule::LineBreak => {
            if p == ilen {
                return None;
            }
            if input.get_char(p) != '\n' {
                return None;
            }
            if ilen - p > 1 && input.get_char(p + 1) == '\r' {
                Some(p + 2)
            } else {
                Some(p + 1)
            }
        },
        _ => {
            proof {
                assert(false);
            }
            None
        },
    }
}

/// The ranges consumed by `rules[k..]` when matching begins at position
/// `p` of `input`, or `None` when they cannot all succeed from there.
fn match_rules(input: &str, p: usize, rules: &Vec<Rule>, k: usize) -> (r: Option<Vec<Pos>>)
    requires
        p <= input@.len(),
        k <= rules@.len(),
    ensures
        ({
            let rv = rules@.map_values(|x: Rule| x@);
            match r {
                Some(v) => match_from(input@, rv, k as int, p as int) == Some(
                    v@.map_values(|x: Pos| x@),
                ),
                None => match_from(input@, rv, k as int, p as int) is None,
            }
        }),
    decreases rules@.len() - k, input@.len() - p,
{
    let ghost doc = input@;
    let ghost rv = rules@.map_values(|x: Rule| x@);
    if k == rules.len() {
        let v: Vec<Pos> = Vec::new();
        proof {
            assert(v@.map_values(|x: Pos| x@) =~= Seq::<(int, int)>::empty());
            assert(match_from(doc, rv, k as int, p as int) == Some(Seq::<(int, int)>::empty()));
        }
        return Some(v);
    }
    let rule = &rules[k];
    proof {
        assert(rv[k as int] == rule@);
    }
    if !rule.is_placeholder() {
        match match_rule(input, p, rule) {
            None => {
                return None;
            },
            Some(q) => {
                match match_rules(input, q, rules, k + 1) {
                    None => {
                        return None;
                    },
                    Some(mut rest) => {
                        let ghost restv = rest@.map_values(|x: Pos| x@);
                        rest.insert(0, Pos(p, q));
                        proof {
                            assert(rest@.map_values(|x: Pos| x@) =~= seq![
                                (p as int, q as int),
                            ] + restv);
                        }
                        return Some(rest);
                    },
                }
            },
        }
    }
    let ilen = input.unicode_len();
    let rl = rules.len();
    let mut q = p;
    while q < ilen
        invariant
            p <= q <= ilen,
            k < rl,
            rl == rules@.len(),
            ilen == doc.len(),
            doc == input@,
            rv == rules@.map_values(|x: Rule| x@),
            k < rules@.len(),
            rv[k as int].is_placeholder(),
            forall|j: int| p <= j < q ==> #[trigger] match_from(doc, rv, k as int + 1, j) is None,
        decreases ilen - q,
    {
        match match_rules(input, q, rules, k + 1) {
            Some(mut rest) => {
                proof {
                    lemma_hole_skip(doc, rv, k as int, p as int, q as int);
                    assert(hole_end(doc, rv, k as int, q as int) == Some(q as int));
                }
                let ghost restv = rest@.map_values(|x: Pos| x@);
                rest.insert(0, Pos(p, q));
                proof {
                    assert(rest@.map_values(|x: Pos| x@) =~= seq![(p as int, q as int)] + restv);
                }
                return Some(rest);
            },
            None => {
                q += 1;
            },
        }
    }
    proof {
        lemma_hole_skip(doc, rv, k as int, p as int, q as int);
        assert(hole_end(doc, rv, k as int, q as int) is None);
    }
    None
}

/// Anchors `pattern` somewhere inside `input`: the first start offset that
/// admits a full match wins, and each rule is paired with the range it
/// consumed, in pattern order.  `None` when no offset admits a match.
pub fn match_(input: &str, pattern: &Pattern) -> (r: Option<Match>)
    ensures
        match r {
            Some(m) => {
                &&& spec_match(input@, pattern@) == Some(m@)
                &&& m@.len() == pattern@.len()
                &&& forall|k: int| 0 <= k < m@.len() ==> (#[trigger] m@[k]).0 == pattern@[k]
                &&& match_wf(input@, m@)
            },
            None => spec_match(input@, pattern@) is None,
        },
{
    let ghost doc = input@;
    let ghost rv = pattern@;
    let ilen = input.unicode_len();
    let mut s: usize = 0;
    while s < ilen
        invariant
            s <= ilen,
            ilen == doc.len(),
            doc == input@,
            rv == pattern@,
            forall|j: int| 0 <= j < s ==> #[trigger] match_from(doc, rv, 0, j) is None,
        decreases ilen - s,
    {
        match match_rules(input, s, &pattern.0, 0) {
            Some(ps) => {
                proof {
                    lemma_anchor_skip(doc, rv, 0, s as int);
                    assert(anchor_from(doc, rv, 0) == Some(s as int));
                    lemma_match_from_wf(doc, rv, 0, s as int);
                }
                let ghost psv = ps@.map_values(|x: Pos| x@);
                let rl = pattern.0.len();
                let mut entries: Vec<(Rule, Pos)> = Vec::new();
                let mut i: usize = 0;
                while i < rl
                    invariant
                        i <= rl,
                        rl == pattern.0@.len(),
                        rv == pattern@,
                        psv.len() == rl,
                        ps@.map_values(|x: Pos| x@) == psv,
                        ps@.len() == rl,
                        entries@.len() == i,
                        forall|j: int|
                            0 <= j < i ==> (#[trigger] entries@[j]).0@ == rv[j]
                                && entries@[j].1@ == psv[j],
                    decreases rl - i,
                {
                    let e = (pattern.0[i].dup(), ps[i]);
                    proof {
                        assert(ps@[i as int]@ == psv[i as int]);
                    }
                    entries.push(e);
                    i += 1;
                }
                let m = Match(entries);
                proof {
                    assert(m@ =~= Seq::new(rv.len(), |k: int| (rv[k], psv[k])));
                }
                return Some(m);
            },
            None => {
                s += 1;
            },
        }
    }
    proof {
        lemma_anchor_skip(doc, rv, 0, s as int);
    }
    None
}

} // verus!
