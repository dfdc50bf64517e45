use ide::registry::{
    detect_language_from_path, empty_manifest, load_syntax, maybe_disable_highlighting,
    needs_source, parse_manifest, LanguageRegistry, DISABLE_AT_BYTES,
};
use ide::viewport::{visible_range, ViewportWindow, OVERSCAN_LINES};

const MANIFEST: &str = r##"
[[language]]
name = "rust"
extensions = ["rs"]

[[language]]
name = "markdown"
extensions = ["md", "MARKDOWN"]

[[language]]
name = "plainlike"
extensions = []
"##;

const RUST_DEF: &str = r##"
default_color = "#CCCCCC"

[[rule]]
pattern = "fn"
color = "#FF00FF"
priority = 3
"##;

#[test]
fn viewport_scenario_values() {
    let w = visible_range(700, 600, 20, 1000);
    assert_eq!(w.start, 35);
    assert_eq!(w.end, 85);
    assert_eq!(w.leading_padding, 700);
    assert_eq!(w.trailing_padding, 18300);
}

#[test]
fn viewport_empty_document() {
    let w = visible_range(700, 600, 20, 0);
    assert_eq!(
        w,
        ViewportWindow { start: 0, end: 0, leading_padding: 0, trailing_padding: 0 }
    );
}

#[test]
fn viewport_end_clamps_to_total_lines() {
    let w = visible_range(0, 600, 20, 10);
    assert_eq!(w.start, 0);
    assert_eq!(w.end, 10);
    assert_eq!(w.leading_padding, 0);
    assert_eq!(w.trailing_padding, 0);
}

#[test]
fn viewport_includes_overscan() {
    // 600 / 20 = 30 lines fit; plus the overscan buffer
    let w = visible_range(0, 600, 20, 1000);
    assert_eq!(w.end - w.start, 30 + OVERSCAN_LINES);
}

#[test]
fn viewport_padding_keeps_total_height() {
    let (total, lh) = (1000u64, 20u64);
    let w = visible_range(700, 600, lh, total);
    assert_eq!(
        w.leading_padding + (w.end - w.start) * lh + w.trailing_padding,
        total * lh
    );
}

#[test]
fn known_extension_resolves_to_language() {
    let m = parse_manifest(MANIFEST).expect("manifest parses");
    assert_eq!(detect_language_from_path(&m, "src/main.rs"), "rust");
    assert_eq!(detect_language_from_path(&m, "notes.md"), "markdown");
}

#[test]
fn extension_lookup_is_case_insensitive() {
    let m = parse_manifest(MANIFEST).expect("manifest parses");
    assert_eq!(detect_language_from_path(&m, "READ.MD"), "markdown");
    assert_eq!(detect_language_from_path(&m, "x.markdown"), "markdown");
}

#[test]
fn unknown_or_missing_extension_resolves_to_plain() {
    let m = parse_manifest(MANIFEST).expect("manifest parses");
    assert_eq!(detect_language_from_path(&m, "foo.xyz"), "plain");
    assert_eq!(detect_language_from_path(&m, "Makefile"), "plain");
    assert_eq!(detect_language_from_path(&m, ""), "plain");
    assert_eq!(detect_language_from_path(&m, ".bashrc"), "plain");
    assert_eq!(detect_language_from_path(&m, "dir.rs/file"), "plain");
    assert_eq!(detect_language_from_path(&m, "name."), "plain");
}

#[test]
fn absent_manifest_resolves_everything_to_plain() {
    let m = empty_manifest();
    assert_eq!(detect_language_from_path(&m, "main.rs"), "plain");
}

#[test]
fn malformed_manifest_fails_to_parse() {
    assert!(parse_manifest("[[language]]\nextensions = [\"rs\"]\n").is_none());
    assert!(parse_manifest("not toml [").is_none());
    assert!(parse_manifest("[[language]]\nname = 7\n").is_none());
}

#[test]
fn size_override_forces_plain() {
    // a colored language downgrades to plain at the threshold
    let r = maybe_disable_highlighting(Some(DISABLE_AT_BYTES), "rust".to_string());
    assert_eq!(r, "plain");
    let r = maybe_disable_highlighting(Some(u64::MAX), "rust".to_string());
    assert_eq!(r, "plain");
}

#[test]
fn small_or_unknown_size_keeps_language() {
    let r = maybe_disable_highlighting(Some(DISABLE_AT_BYTES - 1), "rust".to_string());
    assert_eq!(r, "rust");
    let r = maybe_disable_highlighting(None, "rust".to_string());
    assert_eq!(r, "rust");
}

#[test]
fn load_syntax_parses_and_caches_known_language() {
    let m = parse_manifest(MANIFEST).expect("manifest parses");
    let mut reg = LanguageRegistry::new(m);
    assert!(needs_source(&reg, "rust"));
    let syn = load_syntax(&mut reg, "rust", Some(RUST_DEF));
    assert_eq!(syn.default_color, "#CCCCCC");
    assert_eq!(syn.rules.len(), 1);
    // cached now: a second load without any source serves the stored value
    assert!(!needs_source(&reg, "rust"));
    let again = load_syntax(&mut reg, "rust", None);
    assert_eq!(again.default_color, "#CCCCCC");
    assert_eq!(again.rules.len(), 1);
    assert_eq!(again.rules[0].color, syn.rules[0].color);
}

#[test]
fn unknown_language_short_circuits_to_fallback() {
    let m = parse_manifest(MANIFEST).expect("manifest parses");
    let mut reg = LanguageRegistry::new(m);
    assert!(!needs_source(&reg, "cobol"));
    // even with a rule-bearing source at hand, an unknown language loads the
    // no-rules fallback and caches nothing
    let syn = load_syntax(&mut reg, "cobol", Some(RUST_DEF));
    assert_eq!(syn.rules.len(), 0);
    assert_eq!(syn.default_color, "#D4D4D4");
    assert!(!needs_source(&reg, "cobol"));
}

#[test]
fn plain_always_loads_zero_rules_regardless_of_cache_state() {
    let m = parse_manifest(MANIFEST).expect("manifest parses");
    let mut reg = LanguageRegistry::new(m);
    // warm the cache with a colored language first
    let _ = load_syntax(&mut reg, "rust", Some(RUST_DEF));
    for _ in 0..3 {
        let syn = load_syntax(&mut reg, "plain", Some(RUST_DEF));
        assert_eq!(syn.rules.len(), 0);
    }
}

#[test]
fn malformed_source_degrades_to_fallback() {
    let m = parse_manifest(MANIFEST).expect("manifest parses");
    let mut reg = LanguageRegistry::new(m);
    let syn = load_syntax(&mut reg, "rust", Some("not toml ["));
    assert_eq!(syn.rules.len(), 0);
    assert_eq!(syn.default_color, "#D4D4D4");
}

#[test]
fn missing_source_degrades_to_fallback() {
    let m = parse_manifest(MANIFEST).expect("manifest parses");
    let mut reg = LanguageRegistry::new(m);
    let syn = load_syntax(&mut reg, "markdown", None);
    assert_eq!(syn.rules.len(), 0);
    assert_eq!(syn.default_color, "#D4D4D4");
}

#[test]
fn later_language_claim_on_extension_wins() {
    let src = r##"
[[language]]
name = "first"
extensions = ["x"]

[[language]]
name = "second"
extensions = ["X"]
"##;
    let m = parse_manifest(src).expect("manifest parses");
    assert_eq!(detect_language_from_path(&m, "a.x"), "second");
}

#[test]
fn full_pipeline_resolves_and_highlights() {
    let m = parse_manifest(MANIFEST).expect("manifest parses");
    let mut reg = LanguageRegistry::new(m);
    let lang = detect_language_from_path(&reg.manifest, "lib.rs");
    let lang = maybe_disable_highlighting(Some(100), lang);
    assert_eq!(lang, "rust");
    let syn = load_syntax(&mut reg, &lang, Some(RUST_DEF));
    let spans = ide::highlight::highlight_line(&syn, b"fn main");
    assert_eq!(String::from_utf8(spans[0].text.clone()).unwrap(), "fn");
    assert_eq!(spans[0].color, "#FF00FF");
    assert_eq!(String::from_utf8(spans[1].text.clone()).unwrap(), " main");
    assert_eq!(spans[1].color, "#CCCCCC");
}

#[test]
fn last_dot_decides_the_extension() {
    let src = r##"
[[language]]
name = "tarball"
extensions = ["gz"]
"##;
    let m = parse_manifest(src).expect("manifest parses");
    assert_eq!(detect_language_from_path(&m, "backup.tar.gz"), "tarball");
    assert_eq!(detect_language_from_path(&m, ".hidden.gz"), "tarball");
}

#[test]
fn plain_loads_zero_rules_even_if_the_manifest_lists_it() {
    let src = r##"
[[language]]
name = "plain"
extensions = ["txt"]

[[language]]
name = "rust"
extensions = ["rs"]
"##;
    let m = parse_manifest(src).expect("manifest parses");
    let mut reg = LanguageRegistry::new(m);
    // "plain" is the universal fallback: even a rules-bearing source for it
    // is ignored, and nothing about it is ever cached
    assert!(!needs_source(&reg, "plain"));
    let syn = load_syntax(&mut reg, "plain", Some(RUST_DEF));
    assert_eq!(syn.rules.len(), 0);
    assert_eq!(syn.default_color, "#D4D4D4");
    let again = load_syntax(&mut reg, "plain", None);
    assert_eq!(again.rules.len(), 0);
}
