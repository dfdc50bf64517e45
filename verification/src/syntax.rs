//! Syntax definitions: the per-language rule sets that drive the line
//! highlighter, parsed from a structured TOML text source and kept sorted by
//! descending rule priority (ties keep declaration order).
//!
//! The TOML text is decoded once, at a trusted boundary, into the plain
//! mirror type [`TomlNode`]; everything the formats mean — which documents
//! are well-formed, field defaulting, priority ranges — is defined by spec
//! functions over that mirror and proved of the verified readers.

use vstd::prelude::*;

verus! {

/// The compiled regular-expression type of the `regex` crate (its byte-level
/// variant, since lines are byte sequences here).  Opaque to verification;
/// used through the trusted wrappers below.
#[verifier::external_type_specification]
#[verifier::external_body]
pub struct ExRegex(regex::bytes::Regex);

/// Whether the regex compiler accepts a pattern.  `regex::bytes::Regex::new`
/// succeeds or fails depending on the pattern text alone, so its outcome can
/// be named; nothing further is assumed about which patterns compile.
pub uninterp spec fn regex_compiles(pattern: Seq<char>) -> bool;

/// Relies on `regex::bytes::Regex::new`: deterministic in its pattern, so
/// its success is exactly `regex_compiles`.
#[verifier::external_body]
fn regex_compile(pattern: &str) -> (r: Option<regex::bytes::Regex>)
    ensures
        r.is_some() == regex_compiles(pattern@),
{
    match regex::bytes::Regex::new(pattern) {
        Ok(re) => Some(re),
        Err(_) => None,
    }
}

/// Relies on `regex::bytes::Regex`'s `Clone` impl: the clone is the same
/// compiled pattern.
#[verifier::external_body]
fn regex_clone(re: &regex::bytes::Regex) -> (r: regex::bytes::Regex)
    ensures
        r == *re,
{
    re.clone()
}

/// One pattern -> color -> priority mapping of a syntax definition, with its
/// compiled pattern.  Rules with a higher priority win overlaps; `name` is
/// diagnostic only.
pub struct Rule {
    pub name: String,
    pub regex: regex::bytes::Regex,
    pub pattern: String,
    pub color: String,
    pub priority: i32,
}

/// The rule set for one language: a default color for unmatched text and
/// the rules, sorted by descending priority (stable).
pub struct Syntax {
    pub default_color: String,
    pub rules: Vec<Rule>,
}

/// A rule as read from a definition source, before its pattern is compiled.
pub struct RawRule {
    pub name: String,
    pub pattern: String,
    pub color: String,
    pub priority: i32,
}

/// The plain fields of one rule, as mathematical values: name, pattern,
/// color, priority.
pub type RawView = (Seq<char>, Seq<char>, Seq<char>, int);

impl Rule {
    /// The plain fields of a rule, without the compiled pattern.
    pub open spec fn raw(self) -> RawView {
        (self.name@, self.pattern@, self.color@, self.priority as int)
    }
}

impl RawRule {
    /// The fields of a raw rule, as mathematical values.
    pub open spec fn raw(self) -> RawView {
        (self.name@, self.pattern@, self.color@, self.priority as int)
    }
}

/// The views of a raw-rule list.
pub open spec fn raw_views(rs: Seq<RawRule>) -> Seq<RawView> {
    rs.map_values(|r: RawRule| r.raw())
}

/// The neutral gray used when a definition names no default color.
pub open spec fn spec_default_color() -> Seq<char> {
    "#D4D4D4"@
}

/// The default color of a syntax definition that does not set one.
pub fn default_color() -> (r: String)
    ensures
        r@ == spec_default_color(),
{
    "#D4D4D4".to_owned()
}

/// The priority of a rule that does not set one.
pub fn default_priority() -> (r: i32)
    ensures
        r == 0,
{
    0
}

/// The no-rules fallback: default color only.  Unknown languages and
/// malformed definition sources degrade to this.
pub fn fallback_syntax() -> (r: Syntax)
    ensures
        r.default_color@ == spec_default_color(),
        r.rules@.len() == 0,
{
    Syntax { default_color: default_color(), rules: Vec::new() }
}

/// A TOML document mirrored into plain library values: exactly the node
/// kinds the configuration formats here read.  Kinds no format accepts
/// (floats, booleans, datetimes) collapse into `Other`, which every reader
/// treats as a wrongly typed field.
pub enum TomlNode {
    Str(String),
    Int(i64),
    Arr(Vec<TomlNode>),
    Tab(Vec<(String, TomlNode)>),
    Other,
}

/// The `toml` crate's parsed value type.  Opaque to verification; it only
/// passes through the trusted decoder below.
#[verifier::external_type_specification]
#[verifier::external_body]
pub struct ExTomlValue(toml::Value);

/// The TOML document a text parses to, as the mirrored node tree; `None` on
/// malformed text.  `toml::from_str` depends on the text alone, so its
/// outcome can be named; nothing is assumed about which texts parse or what
/// document they hold.
pub uninterp spec fn toml_doc(text: Seq<char>) -> Option<TomlNode>;

/// Relies on `toml::from_str::<toml::Value>`: parses the text as a TOML
/// document (a table at top level), or fails on malformed input; the parsed
/// value is mirrored into [`TomlNode`] by the converter below.
#[verifier::external_body]
pub(crate) fn toml_decode(text: &str) -> (r: Option<TomlNode>)
    ensures
        r == toml_doc(text@),
{
    toml::from_str::<toml::Value>(text).ok().map(|v| node_of_value(&v))
}

/// Relies on the `toml::Value` enum: converts one parsed value into the
/// mirror, one variant per arm, fields moved or recursed, nothing else.
#[verifier::external_body]
fn node_of_value(v: &toml::Value) -> TomlNode {
    match v {
        toml::Value::String(s) => TomlNode::Str(s.clone()),
        toml::Value::Integer(n) => TomlNode::Int(*n),
        toml::Value::Array(items) => TomlNode::Arr(items.iter().map(node_of_value).collect()),
        toml::Value::Table(t) => TomlNode::Tab(
            t.iter().map(|(k, w)| (k.clone(), node_of_value(w))).collect(),
        ),
        _ => TomlNode::Other,
    }
}

/// The value stored under `key` in a mirrored table (first match).
pub open spec fn spec_tab_get(entries: Seq<(String, TomlNode)>, key: Seq<char>) -> Option<TomlNode>
    decreases entries.len(),
{
    if entries.len() == 0 {
        None
    } else if entries[0].0@ == key {
        Some(entries[0].1)
    } else {
        spec_tab_get(entries.drop_first(), key)
    }
}

/// An optional string field: its text when present as a string, the default
/// when absent, and a failure when present with another type.
pub open spec fn spec_opt_str(
    entries: Seq<(String, TomlNode)>,
    key: Seq<char>,
    dflt: Seq<char>,
) -> Option<Seq<char>> {
    match spec_tab_get(entries, key) {
        None => Some(dflt),
        Some(TomlNode::Str(s)) => Some(s@),
        Some(_) => None,
    }
}

/// A required string field: its text, or a failure when absent or not a
/// string.
pub open spec fn spec_req_str(entries: Seq<(String, TomlNode)>, key: Seq<char>) -> Option<
    Seq<char>,
> {
    match spec_tab_get(entries, key) {
        Some(TomlNode::Str(s)) => Some(s@),
        _ => None,
    }
}

/// A rule's priority field: its value when an integer in `i32` range, zero
/// when absent, and a failure otherwise.
pub open spec fn spec_opt_priority(entries: Seq<(String, TomlNode)>) -> Option<int> {
    match spec_tab_get(entries, "priority"@) {
        None => Some(0),
        Some(TomlNode::Int(p)) => if -2147483648 <= p <= 2147483647 {
            Some(p as int)
        } else {
            None
        },
        Some(_) => None,
    }
}

/// One rule entry of a definition source: a table with a required `pattern`
/// and `color`, an optional `name` (default empty) and an optional integer
/// `priority` (default zero).  Anything else fails the entry.
pub open spec fn spec_rule_entry(n: TomlNode) -> Option<RawView> {
    match n {
        TomlNode::Tab(entries) => {
            match (
                spec_opt_str(entries@, "name"@, Seq::<char>::empty()),
                spec_req_str(entries@, "pattern"@),
                spec_req_str(entries@, "color"@),
                spec_opt_priority(entries@),
            ) {
                (Some(nm), Some(pat), Some(col), Some(pri)) => Some((nm, pat, col, pri)),
                _ => None,
            }
        },
        _ => None,
    }
}

/// A whole rule list: every entry must read as a rule, else the list (and
/// with it the definition) fails.
pub open spec fn spec_rule_list(items: Seq<TomlNode>) -> Option<Seq<RawView>>
    decreases items.len(),
{
    if items.len() == 0 {
        Some(Seq::<RawView>::empty())
    } else {
        match (spec_rule_list(items.drop_last()), spec_rule_entry(items.last())) {
            (Some(rest), Some(rv)) => Some(rest.push(rv)),
            _ => None,
        }
    }
}

/// What a definition source means: the document must be a table; its
/// `default_color` is an optional string (defaulting to the neutral gray);
/// its `rule` key, when present, must be an array of rule entries.  `None`
/// on any malformed part: the whole definition is then rejected.
pub open spec fn spec_sidel_file(doc: Option<TomlNode>) -> Option<(Seq<char>, Seq<RawView>)> {
    match doc {
        Some(TomlNode::Tab(entries)) => {
            let dc = spec_opt_str(entries@, "default_color"@, spec_default_color());
            let rl = match spec_tab_get(entries@, "rule"@) {
                None => Some(Seq::<RawView>::empty()),
                Some(TomlNode::Arr(items)) => spec_rule_list(items@),
                Some(_) => None,
            };
            match (dc, rl) {
                (Some(d), Some(rs)) => Some((d, rs)),
                _ => None,
            }
        },
        _ => None,
    }
}

/// The default color and raw rules a definition text stands for, or `None`
/// when the text is malformed.
pub open spec fn spec_parse_sidel(text: Seq<char>) -> Option<(Seq<char>, Seq<RawView>)> {
    spec_sidel_file(toml_doc(text))
}

/// Rules in weakly descending priority order.
pub open spec fn sorted_by_priority(rs: Seq<Rule>) -> bool {
    forall|i: int, j: int| 0 <= i < j < rs.len() ==> rs[i].priority >= rs[j].priority
}

/// Raw-rule views in weakly descending priority order.
pub open spec fn views_sorted_by_priority(rs: Seq<RawView>) -> bool {
    forall|i: int, j: int| 0 <= i < j < rs.len() ==> rs[i].3 >= rs[j].3
}

/// Inserts a rule view behind every view of at least its priority: the
/// stable insertion position.
pub open spec fn insert_view_sorted(rs: Seq<RawView>, r: RawView) -> Seq<RawView>
    decreases rs.len(),
{
    if rs.len() == 0 {
        seq![r]
    } else if rs[0].3 >= r.3 {
        seq![rs[0]] + insert_view_sorted(rs.drop_first(), r)
    } else {
        seq![r] + rs
    }
}

/// The stable sort of rule views by descending priority: views of equal
/// priority keep their relative order.
pub open spec fn stable_sort_views(rs: Seq<RawView>) -> Seq<RawView>
    decreases rs.len(),
{
    if rs.len() == 0 {
        Seq::<RawView>::empty()
    } else {
        insert_view_sorted(stable_sort_views(rs.drop_last()), rs.last())
    }
}

/// Stable insertion at the position the exec search finds.
proof fn lemma_insert_view_sorted_at(rs: Seq<RawView>, r: RawView, k: int)
    requires
        0 <= k <= rs.len(),
        forall|i: int| 0 <= i < k ==> rs[i].3 >= r.3,
        k < rs.len() ==> rs[k].3 < r.3,
    ensures
        insert_view_sorted(rs, r) == rs.take(k) + seq![r] + rs.skip(k),
    decreases rs.len(),
{
    if rs.len() == 0 {
        assert(insert_view_sorted(rs, r) =~= rs.take(k) + seq![r] + rs.skip(k));
    } else if k == 0 {
        assert(insert_view_sorted(rs, r) =~= rs.take(0) + seq![r] + rs.skip(0));
    } else {
        lemma_insert_view_sorted_at(rs.drop_first(), r, k - 1);
        assert(rs.drop_first().take(k - 1) =~= rs.take(k).drop_first());
        assert(rs.drop_first().skip(k - 1) =~= rs.skip(k));
        assert(insert_view_sorted(rs, r) =~= rs.take(k) + seq![r] + rs.skip(k));
    }
}

/// A stable insertion is one longer than its input.
proof fn lemma_insert_view_len(rs: Seq<RawView>, r: RawView)
    ensures
        insert_view_sorted(rs, r).len() == rs.len() + 1,
    decreases rs.len(),
{
    if rs.len() > 0 && rs[0].3 >= r.3 {
        lemma_insert_view_len(rs.drop_first(), r);
    }
}

/// Each element of a stable insertion is the inserted view or one of the
/// input's elements.
proof fn lemma_insert_view_member(rs: Seq<RawView>, r: RawView, j: int)
    requires
        0 <= j < insert_view_sorted(rs, r).len(),
    ensures
        insert_view_sorted(rs, r).len() == rs.len() + 1,
        insert_view_sorted(rs, r)[j] == r || exists|i: int|
            0 <= i < rs.len() && insert_view_sorted(rs, r)[j] == rs[i],
    decreases rs.len(),
{
    if rs.len() == 0 {
    } else if rs[0].3 >= r.3 {
        if j > 0 {
            lemma_insert_view_member(rs.drop_first(), r, j - 1);
            if insert_view_sorted(rs.drop_first(), r)[j - 1] != r {
                let i = choose|i: int|
                    0 <= i < rs.drop_first().len() && insert_view_sorted(rs.drop_first(), r)[j - 1]
                        == rs.drop_first()[i];
                assert(rs.drop_first()[i] == rs[i + 1]);
            }
        } else {
            assert(insert_view_sorted(rs, r)[0] == rs[0]);
        }
        lemma_insert_view_len(rs.drop_first(), r);
    } else {
    }
}

/// Inserting into a sorted list keeps it sorted.
proof fn lemma_insert_view_sorted_sorted(rs: Seq<RawView>, r: RawView)
    requires
        views_sorted_by_priority(rs),
    ensures
        views_sorted_by_priority(insert_view_sorted(rs, r)),
    decreases rs.len(),
{
    if rs.len() == 0 {
    } else if rs[0].3 >= r.3 {
        assert(views_sorted_by_priority(rs.drop_first()));
        lemma_insert_view_sorted_sorted(rs.drop_first(), r);
        let out = seq![rs[0]] + insert_view_sorted(rs.drop_first(), r);
        assert forall|i: int, j: int| 0 <= i < j < out.len() implies out[i].3 >= out[j].3 by {
            lemma_insert_view_member(rs.drop_first(), r, j - 1);
            if i > 0 {
                lemma_insert_view_member(rs.drop_first(), r, i - 1);
            }
        }
    } else {
        let out = seq![r] + rs;
        assert forall|i: int, j: int| 0 <= i < j < out.len() implies out[i].3 >= out[j].3 by {}
    }
}

/// The stable sort is sorted.
pub proof fn lemma_stable_sort_views_sorted(rs: Seq<RawView>)
    ensures
        views_sorted_by_priority(stable_sort_views(rs)),
    decreases rs.len(),
{
    if rs.len() > 0 {
        lemma_stable_sort_views_sorted(rs.drop_last());
        lemma_insert_view_sorted_sorted(stable_sort_views(rs.drop_last()), rs.last());
    }
}

/// Sorts raw rules by descending priority with a stable insertion sort:
/// rules of equal priority keep the order in which they were declared.
pub fn sort_raw_rules(rules: Vec<RawRule>) -> (r: Vec<RawRule>)
    ensures
        raw_views(r@) == stable_sort_views(raw_views(rules@)),
        views_sorted_by_priority(raw_views(r@)),
{
    let ghost orig = rules@;
    let mut input = rules;
    let mut out: Vec<RawRule> = Vec::new();
    let ghost mut done: int = 0;
    proof {
        assert(raw_views(orig.take(0)) =~= Seq::<RawView>::empty());
        assert(raw_views(out@) =~= Seq::<RawView>::empty());
    }
    while input.len() > 0
        invariant
            0 <= done <= orig.len(),
            input@ == orig.skip(done),
            raw_views(out@) == stable_sort_views(raw_views(orig.take(done))),
        decreases input@.len(),
    {
        let ghost pre_out = out@;
        let next = input.remove(0);
        proof {
            assert(next == orig[done]);
            assert(input@ =~= orig.skip(done + 1));
        }
        // find the stable insertion position: after every rule of at least
        // this priority
        let mut k: usize = 0;
        while k < out.len() && out[k].priority >= next.priority
            invariant
                0 <= k <= out@.len(),
                forall|i: int| 0 <= i < k ==> out@[i].priority >= next.priority,
                out@ == pre_out,
            decreases out@.len() - k,
        {
            k = k + 1;
        }
        out.insert(k, next);
        proof {
            assert forall|i: int| 0 <= i < k implies raw_views(pre_out)[i].3 >= next.raw().3 by {}
            lemma_insert_view_sorted_at(raw_views(pre_out), next.raw(), k as int);
            assert(out@ =~= pre_out.take(k as int) + seq![next] + pre_out.skip(k as int));
            assert(raw_views(out@) =~= raw_views(pre_out).take(k as int) + seq![next.raw()]
                + raw_views(pre_out).skip(k as int));
            assert(raw_views(out@) == insert_view_sorted(raw_views(pre_out), next.raw()));
            assert(raw_views(orig.take(done + 1)).drop_last() =~= raw_views(orig.take(done)));
            assert(raw_views(orig.take(done + 1)).last() == orig[done].raw());
            done = done + 1;
        }
    }
    proof {
        assert(orig.take(done) =~= orig);
        lemma_stable_sort_views_sorted(raw_views(orig));
    }
    out
}

/// The rule views whose patterns the regex compiler accepts, in order.
pub open spec fn kept_views(rvs: Seq<RawView>) -> Seq<RawView>
    decreases rvs.len(),
{
    if rvs.len() == 0 {
        Seq::<RawView>::empty()
    } else {
        let rest = kept_views(rvs.drop_last());
        if regex_compiles(rvs.last().1) {
            rest.push(rvs.last())
        } else {
            rest
        }
    }
}

/// Every kept view is one of the input's views.
proof fn lemma_kept_views_member(rvs: Seq<RawView>, i: int)
    requires
        0 <= i < kept_views(rvs).len(),
    ensures
        exists|j: int| 0 <= j < rvs.len() && kept_views(rvs)[i] == rvs[j],
    decreases rvs.len(),
{
    if rvs.len() > 0 {
        let rest = kept_views(rvs.drop_last());
        if regex_compiles(rvs.last().1) && i == rest.len() {
            assert(kept_views(rvs)[i] == rvs[rvs.len() - 1]);
        } else {
            lemma_kept_views_member(rvs.drop_last(), i);
            let j = choose|j: int| 0 <= j < rvs.drop_last().len() && rest[i] == rvs.drop_last()[j];
            assert(rvs.drop_last()[j] == rvs[j]);
            assert(kept_views(rvs)[i] == rest[i]);
        }
    }
}

/// Dropping non-compiling rules keeps the list sorted.
pub proof fn lemma_kept_views_sorted(rvs: Seq<RawView>)
    requires
        views_sorted_by_priority(rvs),
    ensures
        views_sorted_by_priority(kept_views(rvs)),
    decreases rvs.len(),
{
    if rvs.len() > 0 {
        assert forall|i: int, j: int|
            0 <= i < j < rvs.drop_last().len() implies rvs.drop_last()[i].3
            >= rvs.drop_last()[j].3 by {
            assert(rvs.drop_last()[i] == rvs[i]);
            assert(rvs.drop_last()[j] == rvs[j]);
        }
        lemma_kept_views_sorted(rvs.drop_last());
        let rest = kept_views(rvs.drop_last());
        if regex_compiles(rvs.last().1) {
            let cur = rest.push(rvs.last());
            assert forall|i: int, j: int| 0 <= i < j < cur.len() implies cur[i].3 >= cur[j].3 by {
                if j < rest.len() {
                    assert(cur[i] == rest[i]);
                    assert(cur[j] == rest[j]);
                } else {
                    assert(cur[j] == rvs.last());
                    assert(cur[i] == rest[i]);
                    lemma_kept_views_member(rvs.drop_last(), i);
                    let w = choose|w: int|
                        0 <= w < rvs.drop_last().len() && rest[i] == rvs.drop_last()[w];
                    assert(rvs.drop_last()[w] == rvs[w]);
                    assert(rvs[w].3 >= rvs[rvs.len() - 1].3);
                }
            }
        }
    }
}

/// Compiles each raw rule's pattern, dropping every rule whose pattern the
/// regex compiler rejects; the survivors keep their order and their fields.
pub fn compile_rules(raws: Vec<RawRule>) -> (r: Vec<Rule>)
    ensures
        r@.len() == kept_views(raw_views(raws@)).len(),
        forall|i: int|
            0 <= i < r@.len() ==> (#[trigger] r@[i]).raw() == kept_views(raw_views(raws@))[i],
{
    let ghost orig = raws@;
    let mut input = raws;
    let mut out: Vec<Rule> = Vec::new();
    let ghost mut done: int = 0;
    proof {
        assert(raw_views(orig.take(0)) =~= Seq::<RawView>::empty());
    }
    while input.len() > 0
        invariant
            0 <= done <= orig.len(),
            input@ == orig.skip(done),
            out@.len() == kept_views(raw_views(orig.take(done))).len(),
            forall|i: int|
                0 <= i < out@.len() ==> (#[trigger] out@[i]).raw() == kept_views(
                    raw_views(orig.take(done)),
                )[i],
        decreases input@.len(),
    {
        let raw = input.remove(0);
        proof {
            assert(raw == orig[done]);
            assert(input@ =~= orig.skip(done + 1));
            assert(raw_views(orig.take(done + 1)).drop_last() =~= raw_views(orig.take(done)));
            assert(raw_views(orig.take(done + 1)).last() == orig[done].raw());
        }
        match regex_compile(raw.pattern.as_str()) {
            Some(re) => {
                out.push(
                    Rule {
                        name: raw.name,
                        regex: re,
                        pattern: raw.pattern,
                        color: raw.color,
                        priority: raw.priority,
                    },
                );
            },
            None => {},
        }
        proof {
            done = done + 1;
        }
    }
    proof {
        assert(orig.take(done) =~= orig);
    }
    out
}

/// Rule-by-rule field agreement with a list of views.
pub open spec fn rules_match_views(rules: Seq<Rule>, views: Seq<RawView>) -> bool {
    &&& rules.len() == views.len()
    &&& forall|i: int| 0 <= i < rules.len() ==> (#[trigger] rules[i]).raw() == views[i]
}

/// What a loaded syntax owes its definition source: on well-formed text, the
/// parsed default color and the compiling rules, stable-sorted by descending
/// priority; on malformed text, the no-rules fallback.
pub open spec fn syntax_matches_source(syn: Syntax, text: Seq<char>) -> bool {
    match spec_parse_sidel(text) {
        Some(pair) => syn.default_color@ == pair.0 && rules_match_views(
            syn.rules@,
            kept_views(stable_sort_views(pair.1)),
        ),
        None => syn.default_color@ == spec_default_color() && syn.rules@.len() == 0,
    }
}

/// The value stored under `key` in a mirrored table, if any (first match).
pub(crate) fn tab_get<'a>(entries: &'a Vec<(String, TomlNode)>, key: &String) -> (r: Option<
    &'a TomlNode,
>)
    ensures
        r matches Some(n) ==> spec_tab_get(entries@, key@) == Some(*n),
        r is None ==> spec_tab_get(entries@, key@) is None,
{
    let mut i: usize = 0;
    proof {
        assert(entries@.skip(0) =~= entries@);
    }
    while i < entries.len()
        invariant
            i <= entries@.len(),
            spec_tab_get(entries@, key@) == spec_tab_get(entries@.skip(i as int), key@),
        decreases entries@.len() - i,
    {
        let e = &entries[i];
        proof {
            assert(entries@.skip(i as int)[0] == entries@[i as int]);
            assert(entries@.skip(i as int).drop_first() =~= entries@.skip(i + 1));
        }
        if e.0 == *key {
            return Some(&e.1);
        }
        i = i + 1;
    }
    None
}

/// A failing prefix fails the whole rule list.
proof fn lemma_rule_list_fails(items: Seq<TomlNode>, i: int)
    requires
        0 <= i <= items.len(),
        spec_rule_list(items.take(i)) is None,
    ensures
        spec_rule_list(items) is None,
    decreases items.len() - i,
{
    if i == items.len() {
        assert(items.take(i) =~= items);
    } else {
        assert(items.take(i + 1).drop_last() =~= items.take(i));
        lemma_rule_list_fails(items, i + 1);
    }
}

/// Reads one rule entry of a definition source, exactly as
/// [`spec_rule_entry`] describes it.
#[verifier::loop_isolation(false)]
fn extract_rule(n: &TomlNode) -> (r: Option<RawRule>)
    ensures
        spec_rule_entry(*n) matches Some(rv) ==> (r matches Some(raw) && raw.raw() == rv),
        spec_rule_entry(*n) is None ==> r is None,
{
    let entries = match n {
        TomlNode::Tab(entries) => entries,
        _ => { return None },
    };
    let name: String = match tab_get(entries, &"name".to_owned()) {
        None => String::new(),
        Some(node) => match node {
            TomlNode::Str(s) => s.clone(),
            _ => { return None },
        },
    };
    let pattern: String = match tab_get(entries, &"pattern".to_owned()) {
        Some(node) => match node {
            TomlNode::Str(s) => s.clone(),
            _ => { return None },
        },
        None => { return None },
    };
    let color: String = match tab_get(entries, &"color".to_owned()) {
        Some(node) => match node {
            TomlNode::Str(s) => s.clone(),
            _ => { return None },
        },
        None => { return None },
    };
    let priority: i32 = match tab_get(entries, &"priority".to_owned()) {
        None => default_priority(),
        Some(node) => match node {
            TomlNode::Int(p) => {
                if *p < -2147483648i64 || *p > 2147483647i64 {
                    return None;
                }
                *p as i32
            },
            _ => { return None },
        },
    };
    Some(RawRule { name, pattern, color, priority })
}

/// Parses a syntax definition source: an optional `default_color` string and
/// a list of rule entries, as [`spec_parse_sidel`] describes.  `None`
/// exactly on malformed text (the caller then degrades to the no-rules
/// fallback); a single rule whose pattern does not compile is dropped while
/// the rest of the definition still loads.  The rules of a parsed definition
/// are sorted by descending priority, stable.
#[verifier::loop_isolation(false)]
pub fn parse_sidel(toml_text: &str) -> (r: Option<Syntax>)
    ensures
        r.is_some() == spec_parse_sidel(toml_text@).is_some(),
        r matches Some(syn) ==> syntax_matches_source(syn, toml_text@),
        r matches Some(syn) ==> sorted_by_priority(syn.rules@),
{
    let doc = toml_decode(toml_text);
    let entries: Vec<(String, TomlNode)> = match doc {
        Some(node) => match node {
            TomlNode::Tab(entries) => entries,
            _ => { return None },
        },
        None => { return None },
    };
    let default_color_s: String = match tab_get(&entries, &"default_color".to_owned()) {
        None => default_color(),
        Some(node) => match node {
            TomlNode::Str(s) => s.clone(),
            _ => { return None },
        },
    };
    let ghost dc = spec_opt_str(entries@, "default_color"@, spec_default_color());
    proof {
        assert(dc == Some(default_color_s@));
    }
    let mut raws: Vec<RawRule> = Vec::new();
    proof {
        assert(raw_views(raws@) =~= Seq::<RawView>::empty());
    }
    match tab_get(&entries, &"rule".to_owned()) {
        None => {},
        Some(node) => match node {
            TomlNode::Arr(items) => {
                let mut i: usize = 0;
                proof {
                    assert(items@.take(0) =~= Seq::<TomlNode>::empty());
                }
                while i < items.len()
                    invariant
                        i <= items@.len(),
                        spec_rule_list(items@.take(i as int)) == Some(raw_views(raws@)),
                    decreases items@.len() - i,
                {
                    proof {
                        assert(items@.take(i + 1).drop_last() =~= items@.take(i as int));
                        assert(items@.take(i + 1).last() == items@[i as int]);
                    }
                    match extract_rule(&items[i]) {
                        Some(raw) => {
                            let ghost pre = raws@;
                            raws.push(raw);
                            proof {
                                assert(raw_views(raws@) =~= raw_views(pre).push(raw.raw()));
                            }
                        },
                        None => {
                            proof {
                                lemma_rule_list_fails(items@, i + 1);
                            }
                            return None;
                        },
                    }
                    i = i + 1;
                }
                proof {
                    assert(items@.take(items@.len() as int) =~= items@);
                }
            },
            _ => { return None },
        },
    }
    let ghost pair = (default_color_s@, raw_views(raws@));
    proof {
        assert(spec_parse_sidel(toml_text@) == Some(pair));
    }
    let sorted = sort_raw_rules(raws);
    let rules = compile_rules(sorted);
    proof {
        lemma_stable_sort_views_sorted(pair.1);
        lemma_kept_views_sorted(stable_sort_views(pair.1));
        assert forall|i: int, j: int|
            0 <= i < j < rules@.len() implies rules@[i].priority >= rules@[j].priority by {
            assert(rules@[i].raw() == kept_views(stable_sort_views(pair.1))[i]);
            assert(rules@[j].raw() == kept_views(stable_sort_views(pair.1))[j]);
        }
    }
    Some(Syntax { default_color: default_color_s, rules })
}

/// Two syntax definitions with the same default color and the same rules.
pub open spec fn syntax_equiv(a: Syntax, b: Syntax) -> bool {
    a.default_color == b.default_color && a.rules@ == b.rules@
}

impl Rule {
    /// An owned copy of this rule.
    pub fn duplicate(&self) -> (r: Rule)
        ensures
            r == *self,
    {
        Rule {
            name: self.name.clone(),
            regex: regex_clone(&self.regex),
            pattern: self.pattern.clone(),
            color: self.color.clone(),
            priority: self.priority,
        }
    }
}

impl Syntax {
    /// An owned copy of this syntax definition: same default color, same
    /// rules.
    pub fn duplicate(&self) -> (r: Syntax)
        ensures
            syntax_equiv(r, *self),
    {
        let mut rules: Vec<Rule> = Vec::new();
        let mut i: usize = 0;
        while i < self.rules.len()
            invariant
                i <= self.rules@.len(),
                rules@ == self.rules@.take(i as int),
            decreases self.rules@.len() - i,
        {
            rules.push(self.rules[i].duplicate());
            proof {
                assert(rules@ =~= self.rules@.take(i + 1));
            }
            i = i + 1;
        }
        proof {
            assert(self.rules@.take(self.rules@.len() as int) =~= self.rules@);
        }
        Syntax { default_color: self.default_color.clone(), rules }
    }
}

} // verus!
