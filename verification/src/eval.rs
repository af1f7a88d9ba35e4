//! The evaluator: expands `Add` rules and splices them into the document.
//!
//! Capture bindings are read off the match first: each `Capture` rule binds
//! its name to the span it consumed, a name captured more than once keeping
//! the last occurrence.  Then every `Add` expression is expanded — `$` starts
//! a variable reference that runs over ASCII letters, an unbound name
//! expands to nothing — and the result is inserted at the rule's recorded
//! start offset in the buffer as spliced so far.

use vstd::prelude::*;

use crate::match_::{match_wf, Match};
use crate::pattern::{Rule, RuleV};

verus! {

/// The capture bindings of a match: name to captured span, built in match
/// order, a later capture of the same name overwriting an earlier one.
pub open spec fn bindings(doc: Seq<char>, m: Seq<(RuleV, (int, int))>) -> Map<
    Seq<char>,
    Seq<char>,
>
    decreases m.len(),
{
    if m.len() == 0 {
        Map::empty()
    } else {
        let b = bindings(doc, m.drop_last());
        match m.last().0 {
            RuleV::Capture(n) => b.insert(n, doc.subrange(m.last().1.0, m.last().1.1)),
            _ => b,
        }
    }
}

/// The map described by a list of name/value pairs, a later pair
/// overwriting an earlier one with the same name.
pub open spec fn pairs_map(ps: Seq<(Seq<char>, Seq<char>)>) -> Map<Seq<char>, Seq<char>>
    decreases ps.len(),
{
    if ps.len() == 0 {
        Map::empty()
    } else {
        pairs_map(ps.drop_last()).insert(ps.last().0, ps.last().1)
    }
}

/// An ASCII letter, the only characters a variable name runs over.
pub open spec fn is_ascii_letter(c: char) -> bool {
    (65 <= c as u32 && c as u32 <= 90) || (97 <= c as u32 && c as u32 <= 122)
}

/// One step per character of expression expansion: `in_var` and `var` are
/// the variable reference being read, `acc` the output built so far.
/// A `$` opens a reference (discarding one still open), a letter extends
/// it, and any other character closes it — substituting the bound value,
/// or nothing when the name is unbound — and is then copied through.
/// A reference still open when the text ends is discarded.
pub open spec fn eval_expr_from(
    expr: Seq<char>,
    i: int,
    in_var: bool,
    var: Seq<char>,
    acc: Seq<char>,
    st: Map<Seq<char>, Seq<char>>,
) -> Seq<char>
    recommends
        0 <= i <= expr.len(),
    decreases expr.len() - i,
    when 0 <= i <= expr.len()
{
    if i >= expr.len() {
        acc
    } else {
        let c = expr[i];
        if c == '$' {
            eval_expr_from(expr, i + 1, true, seq![], acc, st)
        } else if in_var && is_ascii_letter(c) {
            eval_expr_from(expr, i + 1, true, var.push(c), acc, st)
        } else {
            let acc2 = if in_var && st.contains_key(var) {
                acc + st[var]
            } else {
                acc
            };
            eval_expr_from(expr, i + 1, false, seq![], acc2.push(c), st)
        }
    }
}

/// What expanding the expression `expr` under the bindings `st` yields.
pub open spec fn eval_expr_s(expr: Seq<char>, st: Map<Seq<char>, Seq<char>>) -> Seq<char> {
    eval_expr_from(expr, 0, false, seq![], seq![], st)
}

/// The document after the entries `m[j..]` have been spliced into `cur`:
/// each `Add` rule's expression, with a newline appended to terminate a
/// trailing reference, is expanded and inserted at the rule's recorded
/// start offset in the buffer spliced so far.
pub open spec fn eval_from(
    doc: Seq<char>,
    m: Seq<(RuleV, (int, int))>,
    j: int,
    cur: Seq<char>,
    st: Map<Seq<char>, Seq<char>>,
) -> Seq<char>
    recommends
        0 <= j <= m.len(),
    decreases m.len() - j,
    when 0 <= j <= m.len()
{
    if j >= m.len() {
        cur
    } else {
        match m[j].0 {
            RuleV::Add(e) => {
                let t = eval_expr_s(e.push('\n'), st);
                let p = m[j].1.0;
                eval_from(doc, m, j + 1, cur.subrange(0, p) + t + cur.subrange(p, cur.len() as int), st)
            },
            _ => eval_from(doc, m, j + 1, cur, st),
        }
    }
}

/// What [`eval`] yields on `doc` and the match `m`.
pub open spec fn eval_s(doc: Seq<char>, m: Seq<(RuleV, (int, int))>) -> Seq<char> {
    eval_from(doc, m, 0, doc, bindings(doc, m))
}

/// Capture correctness: for a `Capture` entry at index `i` binding the name
/// `n`, with no later entry capturing `n` again, the bound value is exactly
/// the document span that entry consumed — so of several captures of one
/// name, the last occurrence in match order wins.
pub proof fn lemma_capture_binding(
    doc: Seq<char>,
    m: Seq<(RuleV, (int, int))>,
    n: Seq<char>,
    i: int,
)
    requires
        0 <= i < m.len(),
        m[i].0 == RuleV::Capture(n),
        forall|j: int| i < j < m.len() ==> (#[trigger] m[j]).0 != RuleV::Capture(n),
    ensures
        bindings(doc, m).contains_key(n),
        bindings(doc, m)[n] == doc.subrange(m[i].1.0, m[i].1.1),
    decreases m.len(),
{
    if i == m.len() - 1 {
    } else {
        assert(m.drop_last()[i] == m[i]);
        assert forall|j: int| i < j < m.drop_last().len() implies (#[trigger] m.drop_last()[j]).0
            != RuleV::Capture(n) by {
            assert(m.drop_last()[j] == m[j]);
        }
        lemma_capture_binding(doc, m.drop_last(), n, i);
        assert(m.last().0 != RuleV::Capture(n));
    }
}

/// A pair whose name stands last in the list decides the map's value.
proof fn lemma_pairs_map_found(ps: Seq<(Seq<char>, Seq<char>)>, n: Seq<char>, i: int)
    requires
        0 <= i < ps.len(),
        ps[i].0 == n,
        forall|j: int| i < j < ps.len() ==> (#[trigger] ps[j]).0 != n,
    ensures
        pairs_map(ps).contains_key(n),
        pairs_map(ps)[n] == ps[i].1,
    decreases ps.len(),
{
    if i == ps.len() - 1 {
    } else {
        assert(ps.drop_last()[i] == ps[i]);
        assert forall|j: int| i < j < ps.drop_last().len() implies (#[trigger] ps.drop_last()[j]).0
            != n by {
            assert(ps.drop_last()[j] == ps[j]);
        }
        lemma_pairs_map_found(ps.drop_last(), n, i);
        assert(ps.last().0 != n);
    }
}

/// A name no pair carries is not in the map.
proof fn lemma_pairs_map_absent(ps: Seq<(Seq<char>, Seq<char>)>, n: Seq<char>)
    requires
        forall|j: int| 0 <= j < ps.len() ==> (#[trigger] ps[j]).0 != n,
    ensures
        !pairs_map(ps).contains_key(n),
    decreases ps.len(),
{
    if ps.len() > 0 {
        assert forall|j: int| 0 <= j < ps.drop_last().len() implies (#[trigger] ps.drop_last()[j]).0
            != n by {
            assert(ps.drop_last()[j] == ps[j]);
        }
        lemma_pairs_map_absent(ps.drop_last(), n);
    }
}

/// Relies on `String::push`: appends exactly the one character `c` to `s`.
#[verifier::external_body]
fn push_char(s: &mut String, c: char)
    ensures
        final(s)@ == old(s)@.push(c),
{
    s.push(c);
}

/// The value bound to `name` by the pairs in `bv`, the last pair with that
/// name winning, or `None` when no pair carries it.
fn lookup(bv: &Vec<(String, String)>, name: &String) -> (r: Option<String>)
    ensures
        ({
            let st = pairs_map(bv@.map_values(|e: (String, String)| (e.0@, e.1@)));
            match r {
                Some(v) => st.contains_key(name@) && st[name@] == v@,
                None => !st.contains_key(name@),
            }
        }),
{
    let ghost ps = bv@.map_values(|e: (String, String)| (e.0@, e.1@));
    let mut i = bv.len();
    while i > 0
        invariant
            i <= bv@.len(),
            ps == bv@.map_values(|e: (String, String)| (e.0@, e.1@)),
            forall|j: int| i <= j < ps.len() ==> (#[trigger] ps[j]).0 != name@,
        decreases i,
    {
        i -= 1;
        if bv[i].0 == *name {
            proof {
                assert(ps[i as int].0 == name@);
                lemma_pairs_map_found(ps, name@, i as int);
            }
            return Some(bv[i].1.clone());
        }
        proof {
            assert(ps[i as int].0 != name@);
        }
    }
    proof {
        lemma_pairs_map_absent(ps, name@);
    }
    None
}

/// Expands the expression `expr` under the bindings listed in `bv`.
#[verifier::loop_isolation(false)]
fn eval_expr(expr: &String, bv: &Vec<(String, String)>) -> (r: String)
    ensures
        r@ == eval_expr_s(expr@, pairs_map(bv@.map_values(|e: (String, String)| (e.0@, e.1@)))),
{
    let ghost e = expr@;
    let ghost st = pairs_map(bv@.map_values(|ev: (String, String)| (ev.0@, ev.1@)));
    let n = expr.as_str().unicode_len();
    let mut res = String::new();
    let mut in_var = false;
    let mut var = String::new();
    let mut i: usize = 0;
    while i < n
        invariant
            i <= n,
            n == e.len(),
            !in_var ==> var@ == Seq::<char>::empty(),
            eval_expr_from(e, i as int, in_var, var@, res@, st) == eval_expr_s(e, st),
        decreases n - i,
    {
        let ghost in_var0 = in_var;
        let ghost var0 = var@;
        let ghost res0 = res@;
        let c = expr.as_str().get_char(i);
        let u = c as u32;
        if c == '$' {
            in_var = true;
            var = String::new();
            proof {
                assert(eval_expr_from(e, i as int, in_var0, var0, res0, st) == eval_expr_from(
                    e,
                    i as int + 1,
                    true,
                    var@,
                    res@,
                    st,
                ));
            }
        } else if in_var && ((65 <= u && u <= 90) || (97 <= u && u <= 122)) {
            push_char(&mut var, c);
            proof {
                assert(is_ascii_letter(c));
                assert(var@ == var0.push(c));
                assert(eval_expr_from(e, i as int, in_var0, var0, res0, st) == eval_expr_from(
                    e,
                    i as int + 1,
                    true,
                    var@,
                    res@,
                    st,
                ));
            }
        } else {
            proof {
                assert(!(c == '$') && !(in_var0 && is_ascii_letter(c)));
            }
            if in_var {
                match lookup(bv, &var) {
                    Some(v) => {
                        res.append(v.as_str());
                        proof {
                            assert(st.contains_key(var0) && res@ == res0 + st[var0]);
                        }
                    },
                    None => {
                        proof {
                            assert(!st.contains_key(var0) && res@ == res0);
                        }
                    },
                }
                in_var = false;
                var = String::new();
            }
            let ghost acc2 = if in_var0 && st.contains_key(var0) {
                res0 + st[var0]
            } else {
                res0
            };
            proof {
                assert(res@ == acc2);
            }
            push_char(&mut res, c);
            proof {
                assert(res@ == acc2.push(c));
                assert(eval_expr_from(e, i as int, in_var0, var0, res0, st) == eval_expr_from(
                    e,
                    i as int + 1,
                    false,
                    seq![],
                    acc2.push(c),
                    st,
                ));
                assert(var@ =~= Seq::<char>::empty());
            }
        }
        i += 1;
    }
    res
}

/// Splices the expanded `Add` expressions of the match `m` into `input`.
///
/// Bindings come from the `Capture` entries of `m`; every `Add` entry then
/// inserts its expanded expression at its recorded start offset in the
/// buffer as spliced so far, in match order.  `Remove` entries are matched
/// and positioned but take no action here.
#[verifier::loop_isolation(false)]
pub fn eval(input: &str, m: &Match) -> (r: String)
    requires
        match_wf(input@, m@),
    ensures
        r@ == eval_s(input@, m@),
{
    let ghost doc = input@;
    let ghost mv = m@;
    let n = m.0.len();
    proof {
        assert(mv.len() == n);
    }
    let mut bv: Vec<(String, String)> = Vec::new();
    let mut j: usize = 0;
    while j < n
        invariant
            j <= n,
            pairs_map(bv@.map_values(|e: (String, String)| (e.0@, e.1@))) == bindings(
                doc,
                mv.take(j as int),
            ),
        decreases n - j,
    {
        let ghost ps0 = bv@.map_values(|e: (String, String)| (e.0@, e.1@));
        proof {
            assert(mv.take(j as int + 1).drop_last() =~= mv.take(j as int));
            assert(mv.take(j as int + 1).last() == mv[j as int]);
            assert(mv[j as int] == (m.0@[j as int].0@, m.0@[j as int].1@));
        }
        match &m.0[j].0 {
            Rule::Capture(name) => {
                let p = m.0[j].1;
                proof {
                    assert(mv[j as int].1 == (p.0 as int, p.1 as int));
                    assert(0 <= mv[j as int].1.0 <= mv[j as int].1.1 <= doc.len());
                }
                let val = input.substring_char(p.0, p.1).to_owned();
                bv.push((name.clone(), val));
                proof {
                    let ps1 = bv@.map_values(|e: (String, String)| (e.0@, e.1@));
                    assert(ps1.drop_last() =~= ps0);
                    assert(ps1.last() == (name@, doc.subrange(p.0 as int, p.1 as int)));
                }
            },
            _ => {},
        }
        j += 1;
    }
    proof {
        assert(mv.take(n as int) =~= mv);
    }
    let ghost st = bindings(doc, mv);
    let mut res = input.to_owned();
    let mut j2: usize = 0;
    while j2 < n
        invariant
            j2 <= n,
            res@.len() >= doc.len(),
            pairs_map(bv@.map_values(|e: (String, String)| (e.0@, e.1@))) == st,
            eval_from(doc, mv, j2 as int, res@, st) == eval_s(doc, mv),
        decreases n - j2,
    {
        match &m.0[j2].0 {
            Rule::Add(expr) => {
                proof {
                    assert(mv[j2 as int] == (m.0@[j2 as int].0@, m.0@[j2 as int].1@));
                    assert(mv[j2 as int].0 == RuleV::Add(expr@));
                    assert(0 <= mv[j2 as int].1.0 <= doc.len());
                }
                let mut en = expr.clone();
                push_char(&mut en, '\n');
                let t = eval_expr(&en, &bv);
                let p0 = m.0[j2].1.0;
                let rl = res.as_str().unicode_len();
                let ghost cur = res@;
                let head = res.as_str().substring_char(0, p0).to_owned();
                let tail = res.as_str().substring_char(p0, rl).to_owned();
                let mut nres = head;
                nres.append(t.as_str());
                nres.append(tail.as_str());
                res = nres;
                proof {
                    assert(res@ == cur.subrange(0, p0 as int) + eval_expr_s(
                        expr@.push('\n'),
                        st,
                    ) + cur.subrange(p0 as int, cur.len() as int));
                }
            },
            _ => {
                proof {
                    assert(mv[j2 as int] == (m.0@[j2 as int].0@, m.0@[j2 as int].1@));
                    assert(!(mv[j2 as int].0 is Add));
                }
            },
        }
        j2 += 1;
    }
    res
}

} // verus!
