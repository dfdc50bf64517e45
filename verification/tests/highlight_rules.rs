use ide::highlight::{highlight_line, HighlightSpan};
use ide::syntax::{default_color, default_priority, fallback_syntax, parse_sidel, Syntax};

fn spans_as_strings(spans: &[HighlightSpan]) -> Vec<(String, String)> {
    spans
        .iter()
        .map(|sp| (String::from_utf8(sp.text.clone()).unwrap(), sp.color.clone()))
        .collect()
}

fn check_partition(syntax: &Syntax, line: &str) {
    let spans = highlight_line(syntax, line.as_bytes());
    let mut joined: Vec<u8> = Vec::new();
    for sp in &spans {
        joined.extend_from_slice(&sp.text);
    }
    assert_eq!(joined, line.as_bytes().to_vec(), "concatenation must reproduce {line:?}");
    for w in spans.windows(2) {
        assert_ne!(w[0].color, w[1].color, "adjacent spans share a color on {line:?}");
    }
    if !line.is_empty() {
        for sp in &spans {
            assert!(!sp.text.is_empty(), "empty span on {line:?}");
        }
    }
}

const DEMO: &str = r##"
default_color = "#AAAAAA"

[[rule]]
name = "keyword"
pattern = "let"
color = "#FF0000"
priority = 10

[[rule]]
name = "number"
pattern = "\\d+"
color = "#00FF00"
priority = 5
"##;

#[test]
fn priority_precedence_scenario() {
    let syn = parse_sidel(DEMO).expect("demo definition parses");
    let spans = highlight_line(&syn, b"let x = 5;");
    assert_eq!(
        spans_as_strings(&spans),
        vec![
            ("let".to_string(), "#FF0000".to_string()),
            (" x = ".to_string(), "#AAAAAA".to_string()),
            ("5".to_string(), "#00FF00".to_string()),
            (";".to_string(), "#AAAAAA".to_string()),
        ]
    );
}

#[test]
fn higher_priority_rule_keeps_overlapped_bytes() {
    let src = r##"
[[rule]]
pattern = "abc"
color = "#111111"
priority = 1

[[rule]]
pattern = "bcd"
color = "#222222"
priority = 2
"##;
    let syn = parse_sidel(src).expect("definition parses");
    // priority 2 claims "bcd"; the lower-priority rule may only color what
    // is left of its own match, which was partly claimed
    let spans = spans_as_strings(&highlight_line(&syn, b"abcd"));
    assert_eq!(
        spans,
        vec![
            ("a".to_string(), "#111111".to_string()),
            ("bcd".to_string(), "#222222".to_string()),
        ]
    );
}

#[test]
fn equal_priority_ties_go_to_declaration_order() {
    let src = r##"
[[rule]]
pattern = "ab"
color = "#111111"

[[rule]]
pattern = "b."
color = "#222222"
"##;
    let syn = parse_sidel(src).expect("definition parses");
    let spans = spans_as_strings(&highlight_line(&syn, b"abc"));
    assert_eq!(
        spans,
        vec![
            ("ab".to_string(), "#111111".to_string()),
            ("c".to_string(), "#222222".to_string()),
        ]
    );
}

#[test]
fn partition_properties_hold_across_inputs() {
    let syn = parse_sidel(DEMO).expect("demo definition parses");
    let plain = fallback_syntax();
    for line in [
        "",
        "let",
        "letletlet",
        "no matches here",
        "123 let 456 let",
        "ünïcödé let 7",
        "   ",
    ] {
        check_partition(&syn, line);
        check_partition(&plain, line);
    }
}

#[test]
fn empty_line_yields_single_default_span() {
    let syn = parse_sidel(DEMO).expect("demo definition parses");
    let spans = spans_as_strings(&highlight_line(&syn, b""));
    assert_eq!(spans, vec![("".to_string(), "#AAAAAA".to_string())]);
}

#[test]
fn no_rules_yields_whole_line_in_default_color() {
    let syn = fallback_syntax();
    let spans = spans_as_strings(&highlight_line(&syn, b"anything at all"));
    assert_eq!(
        spans,
        vec![("anything at all".to_string(), "#D4D4D4".to_string())]
    );
}

#[test]
fn repeated_calls_are_deterministic() {
    let syn = parse_sidel(DEMO).expect("demo definition parses");
    let a = spans_as_strings(&highlight_line(&syn, b"let x = 5;"));
    let b = spans_as_strings(&highlight_line(&syn, b"let x = 5;"));
    assert_eq!(a, b);
}

#[test]
fn adjacent_equal_colors_merge_into_one_span() {
    let src = r##"
default_color = "#999999"

[[rule]]
pattern = "a"
color = "#123456"

[[rule]]
pattern = "b"
color = "#123456"
"##;
    let syn = parse_sidel(src).expect("definition parses");
    let spans = spans_as_strings(&highlight_line(&syn, b"abab!"));
    assert_eq!(
        spans,
        vec![
            ("abab".to_string(), "#123456".to_string()),
            ("!".to_string(), "#999999".to_string()),
        ]
    );
}

#[test]
fn malformed_definition_fails_to_parse() {
    assert!(parse_sidel("not valid toml [").is_none());
    // a rule missing its required color field rejects the whole definition
    assert!(parse_sidel("[[rule]]\npattern = \"x\"\n").is_none());
    // a wrongly typed field rejects the whole definition
    assert!(parse_sidel("[[rule]]\npattern = 5\ncolor = \"#fff\"\n").is_none());
    // an out-of-range priority rejects the whole definition
    assert!(
        parse_sidel("[[rule]]\npattern = \"x\"\ncolor = \"#fff\"\npriority = 99999999999\n")
            .is_none()
    );
}

#[test]
fn single_bad_pattern_is_dropped_rest_loads() {
    let src = r##"
[[rule]]
name = "broken"
pattern = "["
color = "#111111"
priority = 99

[[rule]]
name = "fine"
pattern = "ok"
color = "#222222"
"##;
    let syn = parse_sidel(src).expect("definition still parses");
    assert_eq!(syn.rules.len(), 1);
    assert_eq!(syn.rules[0].name, "fine");
    let spans = spans_as_strings(&highlight_line(&syn, b"ok then"));
    assert_eq!(spans[0], ("ok".to_string(), "#222222".to_string()));
}

#[test]
fn defaults_apply_when_fields_are_absent() {
    let syn = parse_sidel("[[rule]]\npattern = \"x\"\ncolor = \"#fff\"\n").unwrap();
    assert_eq!(syn.default_color, default_color());
    assert_eq!(syn.default_color, "#D4D4D4");
    assert_eq!(syn.rules[0].priority, default_priority());
    assert_eq!(syn.rules[0].name, "");
}

#[test]
fn rules_are_sorted_by_descending_priority_stably() {
    let src = r##"
[[rule]]
name = "low"
pattern = "a"
color = "#1"
priority = -3

[[rule]]
name = "first_five"
pattern = "b"
color = "#2"
priority = 5

[[rule]]
name = "high"
pattern = "c"
color = "#3"
priority = 9

[[rule]]
name = "second_five"
pattern = "d"
color = "#4"
priority = 5
"##;
    let syn = parse_sidel(src).expect("definition parses");
    let names: Vec<&str> = syn.rules.iter().map(|r| r.name.as_str()).collect();
    assert_eq!(names, vec!["high", "first_five", "second_five", "low"]);
}

#[test]
fn empty_definition_parses_with_no_rules() {
    let syn = parse_sidel("").expect("empty definition parses");
    assert_eq!(syn.rules.len(), 0);
    assert_eq!(syn.default_color, "#D4D4D4");
}
