use bulke::eval::eval;
use bulke::match_::{match_, Match, Pos};
use bulke::pattern::{parse, Pattern, Rule};
use bulke::replace;

#[test]
fn parsing() {
    assert_eq!(
        parse(
            "\
foo: bar
bar: {=BAR}
{-answer: 42}
{+baz: qux}
",
        )
        .unwrap(),
        Pattern(vec![
            Rule::Literal("foo: bar".to_string()),
            Rule::LineBreak,
            Rule::Literal("bar: ".to_string()),
            Rule::Capture("BAR".to_string()),
            Rule::LineBreak,
            Rule::Remove("answer: 42".to_string()),
            Rule::LineBreak,
            Rule::Add("baz: qux".to_string()),
            Rule::LineBreak,
        ])
    );
}

#[test]
fn matching() {
    assert_eq!(
        match_(
            "\
qux: baz
foo: bar
bar: 42
qux: foo
",
            &parse(
                "\
foo: bar
bar: {=BAR}
{+baz: qux}
",
            )
            .unwrap(),
        ),
        Some(Match(vec![
            (Rule::Literal("foo: bar".to_string()), Pos(9, 17)),
            (Rule::LineBreak, Pos(17, 18)),
            (Rule::Literal("bar: ".to_string()), Pos(18, 23)),
            (Rule::Capture("BAR".to_string()), Pos(23, 25)),
            (Rule::LineBreak, Pos(25, 26)),
            (Rule::Add("baz: qux".to_string()), Pos(26, 34)),
            (Rule::LineBreak, Pos(34, 35)),
        ]))
    );
}

#[test]
fn not_matching() {
    let pattern = Pattern(vec![
        Rule::Literal("foo: bar".to_string()),
        Rule::LineBreak,
    ]);
    assert_eq!(match_("foo: bar", &pattern), None);
}

#[test]
fn evaluating() {
    let input = "\
qux: baz
foo: bar
bar: 42
qux: foo
";
    let match_ = match_(
        input,
        &parse(
            "\
foo: bar
bar: {=BAR}
{+answer: $BAR}
",
        )
        .unwrap(),
    )
    .unwrap();

    assert_eq!(
        eval(input, &match_),
        "\
qux: baz
foo: bar
bar: 42
answer: 42
qux: foo
",
    );
}

#[test]
fn it_works() {
    let files = vec![
        r#"
port: 8080
region: ap
country: jp
concurrency: 2
"#
        .trim(),
        r#"
port: 8080
region: eu
country: de
lifetime: 3600
            "#
        .trim(),
        r#"
region: mena
country: tr
lifetime: 3600
            "#
        .trim(),
        r#"
region: ap
            "#
        .trim(),
    ];

    let input = r#"
region: {=REGION}
country: {=COUNTRY}
{+endpoint: $COUNTRY.$REGION.app.local}
"#
    .trim();

    let result = replace(&files, input).unwrap();

    assert_eq!(
        result,
        vec![
            r#"
port: 8080
region: ap
country: jp
endpoint: jp.ap.app.local
concurrency: 2
            "#
            .trim(),
            r#"
port: 8080
region: eu
country: de
endpoint: de.eu.app.local
lifetime: 3600
            "#
            .trim(),
            r#"
region: mena
country: tr
endpoint: tr.mena.app.local
lifetime: 3600
            "#
            .trim(),
            r#"
region: ap
            "#
            .trim(),
        ]
    );
}
