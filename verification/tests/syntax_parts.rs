use ide::syntax::{compile_rules, sort_raw_rules, RawRule};

fn raw(name: &str, pattern: &str, color: &str, priority: i32) -> RawRule {
    RawRule {
        name: name.to_string(),
        pattern: pattern.to_string(),
        color: color.to_string(),
        priority,
    }
}

#[test]
fn compile_rules_keeps_fields_and_drops_bad_patterns() {
    let rules = compile_rules(vec![
        raw("a", "x+", "#111111", 1),
        raw("bad", "[", "#222222", 2),
        raw("c", "y?", "#333333", 3),
    ]);
    let kept: Vec<(&str, &str, &str, i32)> = rules
        .iter()
        .map(|r| (r.name.as_str(), r.pattern.as_str(), r.color.as_str(), r.priority))
        .collect();
    assert_eq!(
        kept,
        vec![("a", "x+", "#111111", 1), ("c", "y?", "#333333", 3)]
    );
}

#[test]
fn sort_raw_rules_orders_by_descending_priority_stably() {
    let sorted = sort_raw_rules(vec![
        raw("n1", "a", "#1", 0),
        raw("n2", "b", "#2", 7),
        raw("n3", "c", "#3", 0),
        raw("n4", "d", "#4", 7),
        raw("n5", "e", "#5", -2),
    ]);
    let names: Vec<&str> = sorted.iter().map(|r| r.name.as_str()).collect();
    assert_eq!(names, vec!["n2", "n4", "n1", "n3", "n5"]);
    for w in sorted.windows(2) {
        assert!(w[0].priority >= w[1].priority);
    }
    let compiled = compile_rules(sorted);
    assert_eq!(compiled.len(), 5);
    assert_eq!(compiled[0].name, "n2");
}
