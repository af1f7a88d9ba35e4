use bulke::eval::eval;
use bulke::match_::{match_, Match, Pos};
use bulke::pattern::{parse, Pattern, Rule};
use bulke::replace;

const ENDPOINT_PATTERN: &str =
    "region: {=REGION}\ncountry: {=COUNTRY}\n{+endpoint: $COUNTRY.$REGION.app.local}\n";

#[test]
fn endpoint_inserted_before_following_line() {
    let files = vec!["region: ap\ncountry: jp\nx: y\n"];
    let result = replace(&files, ENDPOINT_PATTERN).unwrap();
    assert_eq!(
        result,
        vec!["region: ap\ncountry: jp\nendpoint: jp.ap.app.local\nx: y\n"]
    );
}

#[test]
fn trailing_line_break_needs_following_text() {
    // The pattern ends in an Add rule followed by a LineBreak; at the very
    // end of the document there is no input left for them, so the search
    // finds no anchor and the document passes through unchanged.
    let files = vec!["region: ap\ncountry: jp\n"];
    let result = replace(&files, ENDPOINT_PATTERN).unwrap();
    assert_eq!(result, vec!["region: ap\ncountry: jp\n"]);
}

#[test]
fn missing_country_line_passes_through() {
    let files = vec!["region: ap\n"];
    let result = replace(&files, ENDPOINT_PATTERN).unwrap();
    assert_eq!(result, vec!["region: ap\n"]);
}

#[test]
fn enabled_inserted_before_following_line() {
    let files = vec!["region: ap\ncountry: jp\nx: y\n"];
    let result = replace(&files, "country: {=COUNTRY}\n{+enabled: true}\n").unwrap();
    assert_eq!(
        result,
        vec!["region: ap\ncountry: jp\nenabled: true\nx: y\n"]
    );
}

#[test]
fn enabled_at_document_end_passes_through() {
    let files = vec!["region: ap\ncountry: jp\n"];
    let result = replace(&files, "country: {=COUNTRY}\n{+enabled: true}\n").unwrap();
    assert_eq!(result, vec!["region: ap\ncountry: jp\n"]);
}

#[test]
fn unbound_variable_expands_to_nothing() {
    let input = "bar: 42\nqux: foo\n";
    let m = match_(
        input,
        &parse("bar: {=BAR}\n{+answer: $MISSING-$BAR}\n").unwrap(),
    )
    .unwrap();
    assert_eq!(eval(input, &m), "bar: 42\nanswer: -42\nqux: foo\n");
}

#[test]
fn malformed_selector_fails_to_parse() {
    assert_eq!(parse("{#foo}"), None);
}

#[test]
fn malformed_selector_aborts_replace() {
    let files = vec!["region: ap\n", "country: jp\n"];
    assert_eq!(replace(&files, "{#foo}"), None);
}

#[test]
fn match_pairs_every_rule_in_order() {
    let pattern = parse("foo: bar\nbar: {=BAR}\n{+baz: qux}\n").unwrap();
    let m = match_("qux: baz\nfoo: bar\nbar: 42\nqux: foo\n", &pattern).unwrap();
    assert_eq!(m.0.len(), pattern.0.len());
    for (i, (rule, _)) in m.0.iter().enumerate() {
        assert_eq!(rule, &pattern.0[i]);
    }
}

#[test]
fn repeated_calls_agree() {
    let doc = "qux: baz\nfoo: bar\nbar: 42\nqux: foo\n";
    let pattern = parse("foo: bar\nbar: {=BAR}\n{+answer: $BAR}\n").unwrap();
    let m1 = match_(doc, &pattern).unwrap();
    let m2 = match_(doc, &pattern).unwrap();
    assert_eq!(m1, m2);
    assert_eq!(eval(doc, &m1), eval(doc, &m2));
}

#[test]
fn last_capture_of_a_name_wins() {
    let input = "k: a\nk: b\nx\n";
    let m = match_(input, &parse("k: {=V}\nk: {=V}\n{+got: $V}\n").unwrap()).unwrap();
    assert_eq!(eval(input, &m), "k: a\nk: b\ngot: b\nx\n");
}

#[test]
fn line_break_consumes_reversed_carriage_return() {
    // The engine checks for a '\r' after the '\n', not before it.
    assert_eq!(
        match_("a\n\rxb", &parse("a\n{=X}b").unwrap()),
        Some(Match(vec![
            (Rule::Literal("a".to_string()), Pos(0, 1)),
            (Rule::LineBreak, Pos(1, 3)),
            (Rule::Capture("X".to_string()), Pos(3, 4)),
            (Rule::Literal("b".to_string()), Pos(4, 5)),
        ]))
    );
}

#[test]
fn carriage_return_stripped_from_literal() {
    assert_eq!(
        parse("ab\r\ncd"),
        Some(Pattern(vec![
            Rule::Literal("ab".to_string()),
            Rule::LineBreak,
            Rule::Literal("cd".to_string()),
        ]))
    );
}

#[test]
fn newline_closes_an_open_block() {
    assert_eq!(
        parse("{=X\n}"),
        Some(Pattern(vec![
            Rule::Capture("X".to_string()),
            Rule::LineBreak,
            Rule::Literal("}".to_string()),
        ]))
    );
}

#[test]
fn empty_block_is_skipped() {
    assert_eq!(
        parse("a{}"),
        Some(Pattern(vec![Rule::Literal("a".to_string())]))
    );
}

#[test]
fn empty_block_before_text_fails() {
    assert_eq!(parse("{}x"), None);
}

#[test]
fn empty_template_parses_to_empty_pattern() {
    assert_eq!(parse(""), Some(Pattern(vec![])));
}

#[test]
fn empty_document_never_matches() {
    assert_eq!(match_("", &Pattern(vec![])), None);
    assert_eq!(match_("x", &Pattern(vec![])), Some(Match(vec![])));
}

#[test]
fn literal_must_match_verbatim() {
    let pattern = parse("foo: bar\n").unwrap();
    assert_eq!(match_("foo: baz\nfoo: bax\n", &pattern), None);
}
