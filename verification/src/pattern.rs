//! The template language: rules and the parser.
//!
//! A template is scanned left to right.  Plain text becomes `Literal`
//! rules, every line terminator becomes a `LineBreak` rule, and a braced
//! block `{<selector><text>}` becomes a placeholder rule chosen by its
//! selector character: `=` captures, `+` adds, `-` is parsed but inert.
//! Any other selector in front of a non-empty block text aborts the parse.

use vstd::prelude::*;

verus! {

/// One instruction of a pattern.
#[derive(Debug, PartialEq, Clone)]
pub enum Rule {
    /// An exact required substring.
    Literal(String),
    /// A single logical newline: `\n`, optionally paired with a `\r`
    /// that immediately follows it.
    LineBreak,
    /// Binds a name to whatever span makes the rest of the match succeed.
    Capture(String),
    /// A template expression inserted at this point on a match; consumes
    /// whatever span the search assigns it.
    Add(String),
    /// Parsed and positioned, but carries no evaluation behavior.
    Remove(String),
}

/// The mathematical image of a [`Rule`]: the same shape over `Seq<char>`.
pub enum RuleV {
    Literal(Seq<char>),
    LineBreak,
    Capture(Seq<char>),
    Add(Seq<char>),
    Remove(Seq<char>),
}

impl RuleV {
    /// A placeholder has no fixed required text; its span is found by search.
    pub open spec fn is_placeholder(self) -> bool {
        match self {
            RuleV::Capture(_) => true,
            RuleV::Add(_) => true,
            RuleV::Remove(_) => true,
            _ => false,
        }
    }
}

impl View for Rule {
    type V = RuleV;

    open spec fn view(&self) -> RuleV {
        match self {
            Rule::Literal(s) => RuleV::Literal(s@),
            Rule::LineBreak => RuleV::LineBreak,
            Rule::Capture(s) => RuleV::Capture(s@),
            Rule::Add(s) => RuleV::Add(s@),
            Rule::Remove(s) => RuleV::Remove(s@),
        }
    }
}

impl Rule {
    /// Whether this rule is a placeholder (`Capture`, `Add` or `Remove`).
    pub fn is_placeholder(&self) -> (r: bool)
        ensures
            r == self@.is_placeholder(),
    {
        match self {
            Rule::Capture(_) => true,
            Rule::Add(_) => true,
            Rule::Remove(_) => true,
            _ => false,
        }
    }

    /// A copy of this rule whose view equals this one's.
    pub(crate) fn dup(&self) -> (r: Rule)
        ensures
            r@ == self@,
    {
        match self {
            Rule::Literal(s) => Rule::Literal(s.clone()),
            Rule::LineBreak => Rule::LineBreak,
            Rule::Capture(s) => Rule::Capture(s.clone()),
            Rule::Add(s) => Rule::Add(s.clone()),
            Rule::Remove(s) => Rule::Remove(s.clone()),
        }
    }
}

/// An ordered, immutable sequence of rules, built once from a template.
#[derive(Debug, PartialEq)]
pub struct Pattern(pub Vec<Rule>);

impl View for Pattern {
    type V = Seq<RuleV>;

    open spec fn view(&self) -> Seq<RuleV> {
        self.0@.map_values(|r: Rule| r@)
    }
}

/// The first index at or after `i` holding `'\n'`, `stop`, or the end of `s`.
pub open spec fn scan_to(s: Seq<char>, i: int, stop: char) -> int
    recommends
        0 <= i <= s.len(),
    decreases s.len() - i,
    when 0 <= i <= s.len()
{
    if i >= s.len() {
        i
    } else if s[i] == '\n' || s[i] == stop {
        i
    } else {
        scan_to(s, i + 1, stop)
    }
}

pub proof fn lemma_scan_to(s: Seq<char>, i: int, stop: char)
    requires
        0 <= i <= s.len(),
    ensures
        i <= scan_to(s, i, stop) <= s.len(),
        forall|k: int| i <= k < scan_to(s, i, stop) ==> s[k] != '\n' && s[k] != stop,
        scan_to(s, i, stop) < s.len() ==> (s[scan_to(s, i, stop)] == '\n' || s[scan_to(
            s,
            i,
            stop,
        )] == stop),
    decreases s.len() - i,
{
    if i < s.len() && s[i] != '\n' && s[i] != stop {
        lemma_scan_to(s, i + 1, stop);
    }
}

/// The accumulated text with a trailing `'\r'` removed, when the scan that
/// produced it stopped at a line terminator.
pub open spec fn strip_cr(t: Seq<char>, hit_nl: bool) -> Seq<char> {
    if hit_nl && t.len() > 0 && t[t.len() - 1] == '\r' {
        t.drop_last()
    } else {
        t
    }
}

/// The outcome of one pass of the parser's main loop.
pub enum ParseStep {
    /// A non-empty block text stood behind an unrecognized selector.
    Fail,
    /// Nothing remained to scan: the parse is complete.
    Done,
    /// The rules emitted by this pass, and the index where the next
    /// pass resumes.
    More(Seq<RuleV>, int),
}

/// One pass of the parser's main loop, starting at index `i` of `s`.
///
/// A pass scans a literal up to `'\n'` or `'{'`; on `'{'` (or at the end
/// of input) it reads one selector character and scans the block text up
/// to `'\n'` or `'}'`.  Text that ends at a line terminator has a trailing
/// `'\r'` stripped, and the terminator emits a `LineBreak` of its own.
pub open spec fn parse_step(s: Seq<char>, i: int) -> ParseStep
    recommends
        0 <= i <= s.len(),
{
    let e1 = scan_to(s, i, '{');
    let raw_lit = s.subrange(i, e1);
    let nl1 = e1 < s.len() && s[e1] == '\n';
    let lit_rules: Seq<RuleV> = if raw_lit.len() > 0 {
        seq![RuleV::Literal(strip_cr(raw_lit, nl1))]
    } else {
        seq![]
    };
    if nl1 {
        ParseStep::More(lit_rules.push(RuleV::LineBreak), e1 + 1)
    } else {
        let a1 = if e1 < s.len() {
            e1 + 1
        } else {
            e1
        };
        let ty: Option<char> = if a1 < s.len() {
            Some(s[a1])
        } else {
            None
        };
        let i2 = if a1 < s.len() {
            a1 + 1
        } else {
            a1
        };
        let e2 = scan_to(s, i2, '}');
        let raw_expr = s.subrange(i2, e2);
        let nl2 = e2 < s.len() && s[e2] == '\n';
        let a2 = if e2 < s.len() {
            e2 + 1
        } else {
            e2
        };
        let expr = strip_cr(raw_expr, nl2);
        if raw_expr.len() > 0 && !(ty == Some('=') || ty == Some('+') || ty == Some('-')) {
            ParseStep::Fail
        } else {
            let expr_rules: Seq<RuleV> = if raw_expr.len() == 0 {
                seq![]
            } else if ty == Some('=') {
                seq![RuleV::Capture(expr)]
            } else if ty == Some('+') {
                seq![RuleV::Add(expr)]
            } else {
                seq![RuleV::Remove(expr)]
            };
            let rules = lit_rules + expr_rules;
            if nl2 {
                ParseStep::More(rules.push(RuleV::LineBreak), a2)
            } else if raw_lit.len() == 0 && raw_expr.len() == 0 {
                ParseStep::Done
            } else {
                ParseStep::More(rules, a2)
            }
        }
    }
}

pub proof fn lemma_parse_step(s: Seq<char>, i: int)
    requires
        0 <= i <= s.len(),
    ensures
        parse_step(s, i) matches ParseStep::More(_, ni) ==> i < ni <= s.len(),
{
    lemma_scan_to(s, i, '{');
    let e1 = scan_to(s, i, '{');
    if !(e1 < s.len() && s[e1] == '\n') {
        let a1 = if e1 < s.len() {
            e1 + 1
        } else {
            e1
        };
        let i2 = if a1 < s.len() {
            a1 + 1
        } else {
            a1
        };
        lemma_scan_to(s, i2, '}');
    }
}

/// The rules that the template `s` yields from index `i` on, or `None`
/// on a parse failure.
pub open spec fn parse_from(s: Seq<char>, i: int) -> Option<Seq<RuleV>>
    recommends
        0 <= i <= s.len(),
    decreases s.len() - i,
    when 0 <= i <= s.len()
    via parse_from_decreases
{
    match parse_step(s, i) {
        ParseStep::Fail => None,
        ParseStep::Done => Some(seq![]),
        ParseStep::More(rs, ni) => match parse_from(s, ni) {
            None => None,
            Some(rest) => Some(rs + rest),
        },
    }
}

#[via_fn]
proof fn parse_from_decreases(s: Seq<char>, i: int) {
    lemma_parse_step(s, i);
}

/// What [`parse`] yields on the template `s`.
pub open spec fn spec_parse(s: Seq<char>) -> Option<Seq<RuleV>> {
    parse_from(s, 0)
}

/// The index where the scan that starts at `from` stops: the first
/// `'\n'` or `stop`, or the end of the input.
fn scan(input: &str, from: usize, stop: char) -> (r: usize)
    requires
        from <= input@.len(),
    ensures
        r == scan_to(input@, from as int, stop),
        from <= r <= input@.len(),
{
    let len = input.unicode_len();
    let mut k = from;
    while k < len
        invariant
            from <= k <= len,
            len == input@.len(),
            scan_to(input@, from as int, stop) == scan_to(input@, k as int, stop),
        decreases len - k,
    {
        let c = input.get_char(k);
        if c == '\n' || c == stop {
            return k;
        }
        k += 1;
    }
    k
}

/// Turns a template into a [`Pattern`], or `None` when a non-empty block
/// text stands behind an unrecognized selector character.
#[verifier::rlimit(100)]
pub fn parse(input: &str) -> (r: Option<Pattern>)
    ensures
        match r {
            Some(p) => spec_parse(input@) == Some(p@),
            None => spec_parse(input@) is None,
        },
{
    let ghost s = input@;
    let len = input.unicode_len();
    let mut rules: Vec<Rule> = Vec::new();
    let mut i: usize = 0;
    loop
        invariant
            i <= len,
            len == s.len(),
            s == input@,
            match parse_from(s, i as int) {
                Some(rest) => parse_from(s, 0) == Some(
                    rules@.map_values(|r: Rule| r@) + rest,
                ),
                None => parse_from(s, 0) is None,
            },
        decreases s.len() - i,
    {
        let ghost rules0 = rules@.map_values(|r: Rule| r@);
        let ghost step = parse_step(s, i as int);
        let e1 = scan(input, i, '{');
        let nl1 = e1 < len && input.get_char(e1) == '\n';
        let has_lit = e1 > i;
        let ghost raw_lit = s.subrange(i as int, e1 as int);
        if has_lit {
            let lit_end = if nl1 && input.get_char(e1 - 1) == '\r' {
                e1 - 1
            } else {
                e1
            };
            let lit = input.substring_char(i, lit_end).to_owned();
            proof {
                if lit_end < e1 {
                    assert(s.subrange(i as int, e1 as int - 1) =~= raw_lit.drop_last());
                }
                assert(lit@ == strip_cr(raw_lit, nl1));
            }
            rules.push(Rule::Literal(lit));
        }
        if nl1 {
            rules.push(Rule::LineBreak);
            proof {
                let em = if raw_lit.len() > 0 {
                    seq![RuleV::Literal(strip_cr(raw_lit, nl1))].push(RuleV::LineBreak)
                } else {
                    seq![RuleV::LineBreak]
                };
                assert(step == ParseStep::More(em, e1 as int + 1)) by {
                    if raw_lit.len() > 0 {
                        assert(seq![RuleV::Literal(strip_cr(raw_lit, nl1))].push(
                            RuleV::LineBreak,
                        ) =~= em);
                    } else {
                        assert(Seq::<RuleV>::empty().push(RuleV::LineBreak) =~= em);
                    }
                }
                assert(rules@.map_values(|r: Rule| r@) =~= rules0 + em);
                if parse_from(s, e1 as int + 1) is Some {
                    let rest = parse_from(s, e1 as int + 1)->Some_0;
                    assert(parse_from(s, i as int) == Some(em + rest));
                    assert(rules0 + (em + rest) =~= (rules0 + em) + rest);
                }
            }
            i = e1 + 1;
            continue ;
        }
        let a1 = if e1 < len {
            e1 + 1
        } else {
            e1
        };
        let i2 = if a1 < len {
            a1 + 1
        } else {
            a1
        };
        let e2 = scan(input, i2, '}');
        let nl2 = e2 < len && input.get_char(e2) == '\n';
        let has_expr = e2 > i2;
        let ghost raw_expr = s.subrange(i2 as int, e2 as int);
        let ghost lit_rules: Seq<RuleV> = if raw_lit.len() > 0 {
            seq![RuleV::Literal(strip_cr(raw_lit, nl1))]
        } else {
            seq![]
        };
        let ghost expr_rules: Seq<RuleV> = if raw_expr.len() == 0 {
            seq![]
        } else if s[a1 as int] == '=' {
            seq![RuleV::Capture(strip_cr(raw_expr, nl2))]
        } else if s[a1 as int] == '+' {
            seq![RuleV::Add(strip_cr(raw_expr, nl2))]
        } else {
            seq![RuleV::Remove(strip_cr(raw_expr, nl2))]
        };
        let ghost em0 = lit_rules + expr_rules;
        if has_expr {
            let ex_end = if nl2 && input.get_char(e2 - 1) == '\r' {
                e2 - 1
            } else {
                e2
            };
            let ex = input.substring_char(i2, ex_end).to_owned();
            proof {
                if ex_end < e2 {
                    assert(s.subrange(i2 as int, e2 as int - 1) =~= raw_expr.drop_last());
                }
                assert(ex@ == strip_cr(raw_expr, nl2));
            }
            let tyc = input.get_char(a1);
            if tyc == '=' {
                rules.push(Rule::Capture(ex));
            } else if tyc == '+' {
                rules.push(Rule::Add(ex));
            } else if tyc == '-' {
                rules.push(Rule::Remove(ex));
            } else {
                proof {
                    assert(step == ParseStep::Fail);
                    assert(parse_from(s, i as int) is None);
                }
                return None;
            }
        }
        proof {
            assert(rules@.map_values(|r: Rule| r@) =~= rules0 + em0);
        }
        if nl2 {
            rules.push(Rule::LineBreak);
            proof {
                let em = em0.push(RuleV::LineBreak);
                assert(step == ParseStep::More(em, e2 as int + 1));
                assert(rules@.map_values(|r: Rule| r@) =~= rules0 + em);
                if parse_from(s, e2 as int + 1) is Some {
                    let rest = parse_from(s, e2 as int + 1)->Some_0;
                    assert(parse_from(s, i as int) == Some(em + rest));
                    assert(rules0 + (em + rest) =~= (rules0 + em) + rest);
                }
            }
            i = e2 + 1;
            continue ;
        }
        let a2 = if e2 < len {
            e2 + 1
        } else {
            e2
        };
        if !has_lit && !has_expr {
            proof {
                assert(step == ParseStep::Done);
                assert(parse_from(s, i as int) == Some(Seq::<RuleV>::empty()));
                assert(rules0 + Seq::<RuleV>::empty() =~= rules0);
            }
            return Some(Pattern(rules));
        }
        proof {
            assert(step == ParseStep::More(em0, a2 as int));
            if parse_from(s, a2 as int) is Some {
                let rest = parse_from(s, a2 as int)->Some_0;
                assert(parse_from(s, i as int) == Some(em0 + rest));
                assert(rules0 + (em0 + rest) =~= (rules0 + em0) + rest);
            }
        }
        i = a2;
    }
}

} // verus!
