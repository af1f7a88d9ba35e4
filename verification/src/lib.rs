//! A bulk text-document patcher.
//!
//! A small template language describes a fragment to look for inside a
//! line-oriented document.  The parser turns a template into an ordered
//! sequence of rules ([`pattern::Pattern`]), the matcher anchors that
//! sequence somewhere inside a document and records the span each rule
//! consumed ([`match_::Match`]), and the evaluator expands `Add` rules with
//! the captured values and splices the result back into the document.

use vstd::prelude::*;

pub mod eval;
pub mod match_;
pub mod pattern;

use crate::eval::{eval, eval_s};
use crate::match_::{match_, spec_match};
use crate::pattern::{parse, spec_parse, RuleV};

verus! {

/// What replacing in one document yields: the evaluated splice when the
/// pattern matches, the document unchanged when it does not.
pub open spec fn spec_replace_one(doc: Seq<char>, rules: Seq<RuleV>) -> Seq<char> {
    match spec_match(doc, rules) {
        Some(m) => eval_s(doc, m),
        None => doc,
    }
}

/// Applies the template `input` to every document of `files`: each one
/// independently becomes its evaluated replacement, or passes through
/// unchanged when the pattern cannot be anchored in it.  `None` when the
/// template itself does not parse; no document is processed then.
pub fn replace(files: &[&str], input: &str) -> (r: Option<Vec<String>>)
    ensures
        match r {
            Some(outs) => {
                &&& spec_parse(input@) is Some
                &&& outs@.len() == files@.len()
                &&& forall|k: int|
                    0 <= k < files@.len() ==> (#[trigger] outs@[k])@ == spec_replace_one(
                        files@[k]@,
                        spec_parse(input@)->Some_0,
                    )
                &&& forall|k: int|
                    0 <= k < files@.len() && spec_match(
                        #[trigger] files@[k]@,
                        spec_parse(input@)->Some_0,
                    ) is None ==> outs@[k]@ == files@[k]@
            },
            None => spec_parse(input@) is None,
        },
{
    let pattern = match parse(input) {
        Some(p) => p,
        None => {
            return None;
        },
    };
    let n = files.len();
    let mut outs: Vec<String> = Vec::new();
    let mut k: usize = 0;
    while k < n
        invariant
            k <= n,
            n == files@.len(),
            spec_parse(input@) == Some(pattern@),
            outs@.len() == k,
            forall|j: int|
                0 <= j < k ==> (#[trigger] outs@[j])@ == spec_replace_one(
                    files@[j]@,
                    pattern@,
                ),
        decreases n - k,
    {
        let f: &str = files[k];
        let out = match match_(f, &pattern) {
            Some(m) => eval(f, &m),
            None => f.to_owned(),
        };
        outs.push(out);
        k += 1;
    }
    Some(outs)
}

/// Matching is deterministic: any two results the matcher's contract admits
/// for the same document and pattern are the same, since the contract pins
/// the result to a function of the inputs alone.
pub proof fn lemma_match_deterministic(
    doc: Seq<char>,
    rules: Seq<RuleV>,
    m1: Option<Seq<(RuleV, (int, int))>>,
    m2: Option<Seq<(RuleV, (int, int))>>,
)
    requires
        m1 == spec_match(doc, rules),
        m2 == spec_match(doc, rules),
    ensures
        m1 == m2,
{
}

/// Evaluation is deterministic likewise: any two results the evaluator's
/// contract admits for the same document and match are the same.
pub proof fn lemma_eval_deterministic(
    doc: Seq<char>,
    m: Seq<(RuleV, (int, int))>,
    r1: Seq<char>,
    r2: Seq<char>,
)
    requires
        r1 == eval_s(doc, m),
        r2 == eval_s(doc, m),
    ensures
        r1 == r2,
{
}

} // verus!
