//! Language resolution and the syntax definition cache: mapping file paths
//! to language names through a loadable extension manifest, a size policy
//! that forces huge documents to plain text, and a lookup-or-insert cache of
//! compiled definitions.

use vstd::prelude::*;
use vstd::string::StringSliceAdditionalSpecFns;
use crate::syntax::{
    Syntax,
    TomlNode,
    fallback_syntax,
    parse_sidel,
    sorted_by_priority,
    spec_default_color,
    spec_req_str,
    spec_tab_get,
    syntax_equiv,
    syntax_matches_source,
    toml_doc,
};

verus! {

/// The byte that separates path components.
pub const PATH_SEPARATOR: u8 = 47;

/// The byte that introduces a file extension.
pub const EXTENSION_DOT: u8 = 46;

/// On-disk size, in bytes, at which highlighting is forced off.
pub const DISABLE_AT_BYTES: u64 = 2_000_000;

/// The extension manifest: which languages exist, and which lowercase file
/// extension maps to which language name.
pub struct ManifestData {
    pub ext_to_lang: Vec<(Vec<u8>, String)>,
    pub languages: Vec<String>,
}

/// The extension table as mathematical pairs.
pub open spec fn ext_entries(m: ManifestData) -> Seq<(Seq<u8>, Seq<char>)> {
    m.ext_to_lang@.map_values(|p: (Vec<u8>, String)| (p.0@, p.1@))
}

/// Whether the manifest lists a language of this name.
pub open spec fn knows_language(m: ManifestData, lang: Seq<char>) -> bool {
    exists|i: int| 0 <= i < m.languages@.len() && (#[trigger] m.languages@[i])@ == lang
}

/// Key lookup where the entry inserted last wins, matching
/// overwrite-on-insert map semantics.
pub open spec fn spec_ext_lookup(entries: Seq<(Seq<u8>, Seq<char>)>, key: Seq<u8>) -> Option<
    Seq<char>,
>
    decreases entries.len(),
{
    if entries.len() == 0 {
        None
    } else if entries.last().0 == key {
        Some(entries.last().1)
    } else {
        spec_ext_lookup(entries.drop_last(), key)
    }
}

/// The lowercase image of an ASCII letter byte; other bytes are unchanged.
pub open spec fn lower_byte(b: u8) -> u8 {
    if 65 <= b <= 90 {
        (b + 32) as u8
    } else {
        b
    }
}

/// Bytewise ASCII lowercasing.
pub open spec fn lower_bytes(s: Seq<u8>) -> Seq<u8> {
    s.map_values(|b: u8| lower_byte(b))
}

/// The suffix of `s` after the last occurrence of `b` (all of `s` when `b`
/// does not occur).
pub open spec fn suffix_after(s: Seq<u8>, b: u8) -> Seq<u8>
    decreases s.len(),
{
    if s.len() == 0 {
        s
    } else if s.last() == b {
        Seq::<u8>::empty()
    } else {
        suffix_after(s.drop_last(), b).push(s.last())
    }
}

/// The extension of a file name: what follows its last dot, provided that
/// dot is not the name's first byte (a name that starts with its only dot,
/// like a hidden file, has no extension).
pub open spec fn spec_extension(name: Seq<u8>) -> Seq<u8> {
    let e = suffix_after(name, EXTENSION_DOT);
    if e.len() >= name.len() - 1 {
        Seq::<u8>::empty()
    } else {
        e
    }
}

/// The language a path resolves to: the manifest entry for the path's
/// lowercased extension, or "plain" when the extension is empty or unknown.
pub open spec fn spec_detect_language(m: ManifestData, path_bytes: Seq<u8>) -> Seq<char> {
    let ext = lower_bytes(spec_extension(suffix_after(path_bytes, PATH_SEPARATOR)));
    if ext.len() == 0 {
        "plain"@
    } else {
        match spec_ext_lookup(ext_entries(m), ext) {
            Some(l) => l,
            None => "plain"@,
        }
    }
}

/// Where `b` does not occur in `s`, the suffix after it is `s` itself.
proof fn lemma_suffix_after_absent(s: Seq<u8>, b: u8)
    requires
        forall|i: int| 0 <= i < s.len() ==> s[i] != b,
    ensures
        suffix_after(s, b) == s,
    decreases s.len(),
{
    if s.len() > 0 {
        lemma_suffix_after_absent(s.drop_last(), b);
        assert(suffix_after(s, b) =~= s);
    }
}

/// Where the last occurrence of `b` is at index `k`, the suffix after it is
/// everything past `k`.
proof fn lemma_suffix_after_at(s: Seq<u8>, b: u8, k: int)
    requires
        0 <= k < s.len(),
        s[k] == b,
        forall|i: int| k < i < s.len() ==> s[i] != b,
    ensures
        suffix_after(s, b) == s.skip(k + 1),
    decreases s.len(),
{
    if k == s.len() - 1 {
        assert(s.last() == b);
        assert(suffix_after(s, b) =~= s.skip(k + 1));
    } else {
        lemma_suffix_after_at(s.drop_last(), b, k);
        assert(s.drop_last().skip(k + 1) =~= s.skip(k + 1).drop_last());
        assert(suffix_after(s, b) =~= s.skip(k + 1));
    }
}

/// The lowercased extension of a path, as bytes.
fn extension_bytes(path: &str) -> (r: Vec<u8>)
    ensures
        r@ == lower_bytes(spec_extension(suffix_after(path.spec_bytes(), PATH_SEPARATOR))),
{
    let bytes = path.as_bytes();
    let n = bytes.len();
    // start of the file name: just after the last path separator
    let mut j: usize = n;
    while j > 0 && bytes[j - 1] != PATH_SEPARATOR
        invariant
            0 <= j <= n,
            n == bytes@.len(),
            bytes@ == path.spec_bytes(),
            forall|i: int| j <= i < n ==> bytes@[i] != PATH_SEPARATOR,
        decreases j,
    {
        j = j - 1;
    }
    let ghost name = suffix_after(path.spec_bytes(), PATH_SEPARATOR);
    proof {
        if j == 0 {
            lemma_suffix_after_absent(bytes@, PATH_SEPARATOR);
            assert(bytes@.skip(0) =~= bytes@);
        } else {
            lemma_suffix_after_at(bytes@, PATH_SEPARATOR, j - 1);
        }
        assert(name == bytes@.skip(j as int));
    }
    // last dot inside the file name
    let mut d: usize = n;
    while d > j && bytes[d - 1] != EXTENSION_DOT
        invariant
            j <= d <= n,
            n == bytes@.len(),
            bytes@ == path.spec_bytes(),
            forall|i: int| d <= i < n ==> bytes@[i] != EXTENSION_DOT,
        decreases d,
    {
        d = d - 1;
    }
    let ghost e = suffix_after(name, EXTENSION_DOT);
    proof {
        if d == j {
            lemma_suffix_after_absent(name, EXTENSION_DOT);
            assert(e.len() == name.len());
        } else {
            assert(name[d - 1 - j] == EXTENSION_DOT);
            lemma_suffix_after_at(name, EXTENSION_DOT, d - 1 - j);
            assert(name.skip(d - j) =~= bytes@.skip(d as int));
        }
    }
    let mut r: Vec<u8> = Vec::new();
    if d > j && d - j > 1 {
        // the dot is inside the name, not its first byte: a real extension
        proof {
            assert(e.len() < name.len() - 1);
            assert(spec_extension(name) == e);
        }
        let mut i: usize = d;
        while i < n
            invariant
                d <= i <= n,
                n == bytes@.len(),
                bytes@ == path.spec_bytes(),
                e == bytes@.skip(d as int),
                r@ == lower_bytes(e.take(i - d)),
            decreases n - i,
        {
            let b = bytes[i];
            let lb: u8 = if b >= 65 && b <= 90 {
                b + 32
            } else {
                b
            };
            r.push(lb);
            proof {
                assert(e.take(i + 1 - d) =~= e.take(i - d).push(bytes@[i as int]));
                assert(r@ =~= lower_bytes(e.take(i + 1 - d)));
            }
            i = i + 1;
        }
        proof {
            assert(e.take(n - d) =~= e);
        }
    } else {
        proof {
            if d == j {
                assert(spec_extension(name).len() == 0);
            } else {
                // the name starts with its last dot: no extension
                assert(e.len() == name.len() - 1);
                assert(spec_extension(name).len() == 0);
            }
            assert(r@ =~= lower_bytes(spec_extension(name)));
        }
    }
    r
}

/// Looks an extension up in the manifest table; the entry inserted last
/// wins.
fn ext_lookup(m: &ManifestData, key: &Vec<u8>) -> (r: Option<String>)
    ensures
        r matches Some(l) ==> spec_ext_lookup(ext_entries(*m), key@) == Some(l@),
        r is None ==> spec_ext_lookup(ext_entries(*m), key@) is None,
{
    let mut i: usize = m.ext_to_lang.len();
    proof {
        assert(ext_entries(*m).take(i as int) =~= ext_entries(*m));
    }
    while i > 0
        invariant
            i <= m.ext_to_lang@.len(),
            spec_ext_lookup(ext_entries(*m), key@) == spec_ext_lookup(
                ext_entries(*m).take(i as int),
                key@,
            ),
        decreases i,
    {
        let ghost entries = ext_entries(*m);
        proof {
            assert(entries.take(i as int).last() == entries[i - 1]);
            assert(entries.take(i as int).drop_last() =~= entries.take(i - 1));
        }
        if m.ext_to_lang[i - 1].0 == *key {
            let l = m.ext_to_lang[i - 1].1.clone();
            proof {
                assert(entries[i - 1] == (m.ext_to_lang@[i - 1].0@, m.ext_to_lang@[i - 1].1@));
                assert(entries.take(i as int).last().0 == key@);
            }
            return Some(l);
        }
        i = i - 1;
    }
    proof {
        assert(ext_entries(*m).take(0) =~= Seq::<(Seq<u8>, Seq<char>)>::empty());
    }
    None
}

/// Whether the manifest lists this language name.
fn language_known(m: &ManifestData, lang: &String) -> (r: bool)
    ensures
        r == knows_language(*m, lang@),
{
    let mut i: usize = 0;
    while i < m.languages.len()
        invariant
            i <= m.languages@.len(),
            forall|k: int| 0 <= k < i ==> (#[trigger] m.languages@[k])@ != lang@,
        decreases m.languages@.len() - i,
    {
        if *(&m.languages[i]) == *lang {
            return true;
        }
        i = i + 1;
    }
    false
}

/// Resolves a file path (or bare name) to a language name: the manifest
/// entry for its lowercased extension, with unknown or missing extensions
/// resolving to "plain".
pub fn detect_language_from_path(m: &ManifestData, path: &str) -> (r: String)
    ensures
        r@ == spec_detect_language(*m, path.spec_bytes()),
{
    let ext = extension_bytes(path);
    if ext.len() == 0 {
        return "plain".to_owned();
    }
    match ext_lookup(m, &ext) {
        Some(l) => l,
        None => "plain".to_owned(),
    }
}

/// Size policy: a document whose on-disk size is at or above the threshold
/// is forced to "plain", trading highlighting for responsiveness; an
/// undeterminable size is treated as small.
pub fn maybe_disable_highlighting(size: Option<u64>, language: String) -> (r: String)
    ensures
        (size matches Some(n) && n >= DISABLE_AT_BYTES) ==> r@ == "plain"@,
        !(size matches Some(n) && n >= DISABLE_AT_BYTES) ==> r == language,
{
    match size {
        Some(n) => {
            if n >= DISABLE_AT_BYTES {
                "plain".to_owned()
            } else {
                language
            }
        },
        None => language,
    }
}

/// A manifest with no languages and no extension entries: what an absent or
/// malformed manifest source degrades to (everything then resolves to
/// "plain").
pub fn empty_manifest() -> (r: ManifestData)
    ensures
        ext_entries(r).len() == 0,
        r.languages@.len() == 0,
        forall|lang: Seq<char>| !knows_language(r, lang),
{
    let r = ManifestData { ext_to_lang: Vec::new(), languages: Vec::new() };
    proof {
        assert(ext_entries(r) =~= Seq::<(Seq<u8>, Seq<char>)>::empty());
    }
    r
}

/// The lowercased bytes of a string.
fn lower_bytes_of(s: &str) -> (r: Vec<u8>)
    ensures
        r@ == lower_bytes(s.spec_bytes()),
{
    let bytes = s.as_bytes();
    let n = bytes.len();
    let mut r: Vec<u8> = Vec::new();
    proof {
        assert(r@ =~= lower_bytes(bytes@.take(0)));
    }
    let mut i: usize = 0;
    while i < n
        invariant
            i <= n,
            n == bytes@.len(),
            bytes@ == s.spec_bytes(),
            r@ == lower_bytes(bytes@.take(i as int)),
        decreases n - i,
    {
        let b = bytes[i];
        let lb: u8 = if b >= 65 && b <= 90 {
            b + 32
        } else {
            b
        };
        r.push(lb);
        proof {
            assert(bytes@.take(i + 1) =~= bytes@.take(i as int).push(bytes@[i as int]));
            assert(r@ =~= lower_bytes(bytes@.take(i + 1)));
        }
        i = i + 1;
    }
    proof {
        assert(bytes@.take(n as int) =~= bytes@);
    }
    r
}

/// A string list in a mirrored document: every element must be a string.
pub open spec fn spec_str_list(items: Seq<TomlNode>) -> Option<Seq<Seq<char>>>
    decreases items.len(),
{
    if items.len() == 0 {
        Some(Seq::<Seq<char>>::empty())
    } else {
        match (spec_str_list(items.drop_last()), items.last()) {
            (Some(rest), TomlNode::Str(s)) => Some(rest.push(s@)),
            _ => None,
        }
    }
}

/// One language entry of the manifest: a table with a required `name`
/// string and an optional `extensions` array of strings.
pub open spec fn spec_lang_entry(n: TomlNode) -> Option<(Seq<char>, Seq<Seq<char>>)> {
    match n {
        TomlNode::Tab(entries) => {
            let name = spec_req_str(entries@, "name"@);
            let exts = match spec_tab_get(entries@, "extensions"@) {
                None => Some(Seq::<Seq<char>>::empty()),
                Some(TomlNode::Arr(items)) => spec_str_list(items@),
                Some(_) => None,
            };
            match (name, exts) {
                (Some(nm), Some(es)) => Some((nm, es)),
                _ => None,
            }
        },
        _ => None,
    }
}

/// A whole language list: every entry must read as a language, else the
/// list (and with it the manifest) fails.
pub open spec fn spec_lang_list(items: Seq<TomlNode>) -> Option<Seq<(Seq<char>, Seq<Seq<char>>)>>
    decreases items.len(),
{
    if items.len() == 0 {
        Some(Seq::<(Seq<char>, Seq<Seq<char>>)>::empty())
    } else {
        match (spec_lang_list(items.drop_last()), spec_lang_entry(items.last())) {
            (Some(rest), Some(le)) => Some(rest.push(le)),
            _ => None,
        }
    }
}

/// What the manifest source means: the document must be a table whose
/// `language` key, when present, is an array of language entries.
pub open spec fn spec_manifest_file(doc: Option<TomlNode>) -> Option<
    Seq<(Seq<char>, Seq<Seq<char>>)>,
> {
    match doc {
        Some(TomlNode::Tab(entries)) => match spec_tab_get(entries@, "language"@) {
            None => Some(Seq::<(Seq<char>, Seq<Seq<char>>)>::empty()),
            Some(TomlNode::Arr(items)) => spec_lang_list(items@),
            Some(_) => None,
        },
        _ => None,
    }
}

/// The language list a manifest text stands for, or `None` on malformed
/// text.
pub open spec fn spec_manifest(text: Seq<char>) -> Option<Seq<(Seq<char>, Seq<Seq<char>>)>> {
    spec_manifest_file(toml_doc(text))
}

/// The extension pairs one language entry contributes: each extension,
/// lowercased as UTF-8 bytes, keyed to the language name.
pub open spec fn lang_ext_pairs(l: (Seq<char>, Seq<Seq<char>>)) -> Seq<(Seq<u8>, Seq<char>)> {
    l.1.map_values(|e: Seq<char>| (lower_bytes(vstd::utf8::encode_utf8(e)), l.0))
}

/// The whole extension table, in source order, so that under last-entry
/// lookup a later language's claim on an extension wins over an earlier
/// one's (as overwrite-on-insert map filling would have it).
pub open spec fn manifest_ext_pairs(langs: Seq<(Seq<char>, Seq<Seq<char>>)>) -> Seq<
    (Seq<u8>, Seq<char>),
>
    decreases langs.len(),
{
    if langs.len() == 0 {
        Seq::<(Seq<u8>, Seq<char>)>::empty()
    } else {
        manifest_ext_pairs(langs.drop_last()) + lang_ext_pairs(langs.last())
    }
}

/// The names of the listed languages, in order.
pub open spec fn manifest_names(langs: Seq<(Seq<char>, Seq<Seq<char>>)>) -> Seq<Seq<char>> {
    langs.map_values(|l: (Seq<char>, Seq<Seq<char>>)| l.0)
}

/// A failing prefix fails the whole string list.
proof fn lemma_str_list_fails(items: Seq<TomlNode>, i: int)
    requires
        0 <= i <= items.len(),
        spec_str_list(items.take(i)) is None,
    ensures
        spec_str_list(items) is None,
    decreases items.len() - i,
{
    if i == items.len() {
        assert(items.take(i) =~= items);
    } else {
        assert(items.take(i + 1).drop_last() =~= items.take(i));
        lemma_str_list_fails(items, i + 1);
    }
}

/// A failing prefix fails the whole language list.
proof fn lemma_lang_list_fails(items: Seq<TomlNode>, i: int)
    requires
        0 <= i <= items.len(),
        spec_lang_list(items.take(i)) is None,
    ensures
        spec_lang_list(items) is None,
    decreases items.len() - i,
{
    if i == items.len() {
        assert(items.take(i) =~= items);
    } else {
        assert(items.take(i + 1).drop_last() =~= items.take(i));
        lemma_lang_list_fails(items, i + 1);
    }
}

/// Reads one language entry, exactly as [`spec_lang_entry`] describes it.
#[verifier::loop_isolation(false)]
fn extract_lang(n: &TomlNode) -> (r: Option<(String, Vec<String>)>)
    ensures
        spec_lang_entry(*n) matches Some(le) ==> (r matches Some(pair) && pair.0@ == le.0
            && pair.1@.map_values(|s: String| s@) == le.1),
        spec_lang_entry(*n) is None ==> r is None,
{
    let entries = match n {
        TomlNode::Tab(entries) => entries,
        _ => { return None },
    };
    let name: String = match crate::syntax::tab_get(entries, &"name".to_owned()) {
        Some(node) => match node {
            TomlNode::Str(s) => s.clone(),
            _ => { return None },
        },
        None => { return None },
    };
    let mut exts: Vec<String> = Vec::new();
    proof {
        assert(exts@.map_values(|s: String| s@) =~= Seq::<Seq<char>>::empty());
    }
    match crate::syntax::tab_get(entries, &"extensions".to_owned()) {
        None => {},
        Some(node) => match node {
            TomlNode::Arr(items) => {
                let mut k: usize = 0;
                proof {
                    assert(items@.take(0) =~= Seq::<TomlNode>::empty());
                }
                while k < items.len()
                    invariant
                        k <= items@.len(),
                        spec_str_list(items@.take(k as int)) == Some(
                            exts@.map_values(|s: String| s@),
                        ),
                    decreases items@.len() - k,
                {
                    proof {
                        assert(items@.take(k + 1).drop_last() =~= items@.take(k as int));
                        assert(items@.take(k + 1).last() == items@[k as int]);
                    }
                    let item = &items[k];
                    match item {
                        TomlNode::Str(s) => {
                            let ghost pre = exts@;
                            exts.push(s.clone());
                            proof {
                                assert(exts@.map_values(|s2: String| s2@) =~= pre.map_values(
                                    |s2: String| s2@,
                                ).push(s@));
                            }
                        },
                        _ => {
                            proof {
                                lemma_str_list_fails(items@, k + 1);
                            }
                            return None;
                        },
                    }
                    k = k + 1;
                }
                proof {
                    assert(items@.take(items@.len() as int) =~= items@);
                }
            },
            _ => { return None },
        },
    }
    Some((name, exts))
}

/// Parses the extension manifest source: a list of language entries, each a
/// name with its file extensions, exactly as [`spec_manifest`] describes.
/// `None` exactly on malformed text (the caller then degrades to the empty
/// manifest).  Extension keys are stored lowercased, in source order, so a
/// later language's claim on an extension wins.
#[verifier::loop_isolation(false)]
pub fn parse_manifest(text: &str) -> (r: Option<ManifestData>)
    ensures
        r.is_some() == spec_manifest(text@).is_some(),
        r matches Some(m) ==> ({
            let langs = spec_manifest(text@).unwrap();
            &&& m.languages@.map_values(|s: String| s@) == manifest_names(langs)
            &&& ext_entries(m) == manifest_ext_pairs(langs)
        }),
{
    let doc = crate::syntax::toml_decode(text);
    let entries: Vec<(String, TomlNode)> = match doc {
        Some(node) => match node {
            TomlNode::Tab(entries) => entries,
            _ => { return None },
        },
        None => { return None },
    };
    let mut m = ManifestData { ext_to_lang: Vec::new(), languages: Vec::new() };
    proof {
        assert(ext_entries(m) =~= Seq::<(Seq<u8>, Seq<char>)>::empty());
        assert(m.languages@.map_values(|s: String| s@) =~= Seq::<Seq<char>>::empty());
        assert(manifest_names(Seq::<(Seq<char>, Seq<Seq<char>>)>::empty()) =~= Seq::<
            Seq<char>,
        >::empty());
    }
    let arr = crate::syntax::tab_get(&entries, &"language".to_owned());
    let items: &Vec<TomlNode> = match arr {
        None => { return Some(m) },
        Some(node) => match node {
            TomlNode::Arr(items) => items,
            _ => { return None },
        },
    };
    let mut i: usize = 0;
    proof {
        assert(items@.take(0) =~= Seq::<TomlNode>::empty());
    }
    while i < items.len()
        invariant
            i <= items@.len(),
            spec_lang_list(items@.take(i as int)) matches Some(langs)
                && m.languages@.map_values(|s: String| s@) == manifest_names(langs)
                && ext_entries(m) == manifest_ext_pairs(langs),
        decreases items@.len() - i,
    {
        proof {
            assert(items@.take(i + 1).drop_last() =~= items@.take(i as int));
            assert(items@.take(i + 1).last() == items@[i as int]);
        }
        let ghost langs = spec_lang_list(items@.take(i as int)).unwrap();
        match extract_lang(&items[i]) {
            None => {
                proof {
                    lemma_lang_list_fails(items@, i + 1);
                }
                return None;
            },
            Some(pair) => {
                let (name, exts) = pair;
                let ghost le = spec_lang_entry(items@[i as int]).unwrap();
                let ghost pre_m = m;
                let mut k: usize = 0;
                proof {
                    assert(lang_ext_pairs(le).take(0) =~= Seq::<(Seq<u8>, Seq<char>)>::empty());
                    assert(ext_entries(m) =~= ext_entries(pre_m) + lang_ext_pairs(le).take(0));
                }
                while k < exts.len()
                    invariant
                        k <= exts@.len(),
                        exts@.map_values(|s: String| s@) == le.1,
                        name@ == le.0,
                        m.languages == pre_m.languages,
                        ext_entries(m) == ext_entries(pre_m) + lang_ext_pairs(le).take(k as int),
                    decreases exts@.len() - k,
                {
                    let ghost pm = m;
                    let key = lower_bytes_of(exts[k].as_str());
                    m.ext_to_lang.push((key, name.clone()));
                    proof {
                        assert(le.1[k as int] == exts@[k as int]@);
                        assert(ext_entries(m) =~= ext_entries(pm).push(
                            (lower_bytes(vstd::utf8::encode_utf8(le.1[k as int])), le.0),
                        ));
                        assert(lang_ext_pairs(le)[k as int] == (
                            lower_bytes(vstd::utf8::encode_utf8(le.1[k as int])),
                            le.0,
                        ));
                        assert(lang_ext_pairs(le).take(k + 1) =~= lang_ext_pairs(le).take(
                            k as int,
                        ).push(lang_ext_pairs(le)[k as int]));
                        assert(ext_entries(m) =~= ext_entries(pre_m) + lang_ext_pairs(le).take(
                            k + 1,
                        ));
                    }
                    k = k + 1;
                }
                let ghost pre2 = m;
                m.languages.push(name);
                proof {
                    assert(m.ext_to_lang == pre2.ext_to_lang);
                    assert(ext_entries(m) == ext_entries(pre2));
                    assert(lang_ext_pairs(le).take(exts@.len() as int) =~= lang_ext_pairs(le));
                    assert(items@.take(i + 1).drop_last() =~= items@.take(i as int));
                    assert(spec_lang_list(items@.take(i + 1)) == Some(langs.push(le)));
                    assert((langs.push(le)).drop_last() =~= langs);
                    assert(manifest_ext_pairs(langs.push(le)) == manifest_ext_pairs(langs)
                        + lang_ext_pairs(le));
                    assert(m.languages@.map_values(|s: String| s@) =~= pre2.languages@.map_values(
                        |s: String| s@,
                    ).push(le.0));
                    assert(manifest_names(langs.push(le)) =~= manifest_names(langs).push(le.0));
                }
            },
        }
        i = i + 1;
    }
    proof {
        assert(items@.take(items@.len() as int) =~= items@);
    }
    Some(m)
}

/// A language registry: the extension manifest plus the process-wide cache
/// of compiled syntax definitions, owned by the application's startup
/// context and passed to whatever needs language data.
pub struct LanguageRegistry {
    pub manifest: ManifestData,
    pub cache: Vec<(String, Syntax)>,
}

/// The cache as mathematical pairs.
pub open spec fn cache_entries(c: Seq<(String, Syntax)>) -> Seq<(Seq<char>, Syntax)> {
    c.map_values(|p: (String, Syntax)| (p.0@, p.1))
}

/// Cache lookup where the entry inserted last wins.
pub open spec fn spec_cache_lookup(entries: Seq<(Seq<char>, Syntax)>, lang: Seq<char>) -> Option<
    Syntax,
>
    decreases entries.len(),
{
    if entries.len() == 0 {
        None
    } else if entries.last().0 == lang {
        Some(entries.last().1)
    } else {
        spec_cache_lookup(entries.drop_last(), lang)
    }
}

impl LanguageRegistry {
    /// The cached definitions, keyed by language name.
    pub open spec fn cache_view(self) -> Seq<(Seq<char>, Syntax)> {
        cache_entries(self.cache@)
    }

    /// The registry invariant: only languages the manifest lists are ever
    /// cached, and every cached definition has its rules sorted.
    pub open spec fn wf(self) -> bool {
        forall|i: int|
            0 <= i < self.cache_view().len() ==> {
                &&& knows_language(self.manifest, (#[trigger] self.cache_view()[i]).0)
                &&& sorted_by_priority(self.cache_view()[i].1.rules@)
            }
    }

    /// A fresh registry over the given manifest, with an empty cache.
    pub fn new(manifest: ManifestData) -> (r: LanguageRegistry)
        ensures
            r.wf(),
            r.manifest == manifest,
            r.cache_view().len() == 0,
    {
        let r = LanguageRegistry { manifest, cache: Vec::new() };
        proof {
            assert(r.cache_view() =~= Seq::<(Seq<char>, Syntax)>::empty());
        }
        r
    }
}

/// The cached definition for a language, if one was stored.
fn cache_get(reg: &LanguageRegistry, language: &String) -> (r: Option<Syntax>)
    ensures
        r matches Some(s) ==> spec_cache_lookup(reg.cache_view(), language@) matches Some(c)
            && syntax_equiv(s, c),
        r is None ==> spec_cache_lookup(reg.cache_view(), language@) is None,
{
    let mut i: usize = reg.cache.len();
    proof {
        assert(reg.cache_view().take(i as int) =~= reg.cache_view());
    }
    while i > 0
        invariant
            i <= reg.cache@.len(),
            spec_cache_lookup(reg.cache_view(), language@) == spec_cache_lookup(
                reg.cache_view().take(i as int),
                language@,
            ),
        decreases i,
    {
        let ghost entries = reg.cache_view();
        proof {
            assert(entries.take(i as int).last() == entries[i - 1]);
            assert(entries.take(i as int).drop_last() =~= entries.take(i - 1));
            assert(entries[i - 1] == (reg.cache@[i - 1].0@, reg.cache@[i - 1].1));
        }
        if *(&reg.cache[i - 1].0) == *language {
            let s = reg.cache[i - 1].1.duplicate();
            return Some(s);
        }
        i = i - 1;
    }
    proof {
        assert(reg.cache_view().take(0) =~= Seq::<(Seq<char>, Syntax)>::empty());
    }
    None
}

/// Whether loading this language would need its definition source: true
/// exactly when it is not cached yet but the manifest knows it.  A caller
/// fetches the source text only in that case.
pub fn needs_source(reg: &LanguageRegistry, language: &str) -> (r: bool)
    ensures
        r == (language@ != "plain"@ && spec_cache_lookup(reg.cache_view(), language@) is None
            && knows_language(reg.manifest, language@)),
{
    let owned = language.to_owned();
    if owned == "plain".to_owned() {
        return false;
    }
    match cache_get(reg, &owned) {
        Some(_) => false,
        None => language_known(&reg.manifest, &owned),
    }
}

/// Loads (or serves from cache) the syntax definition for a language.
///
/// "plain" is the universal fallback and always loads with zero rules,
/// whatever the cache or the manifest hold.  A cached language is served as
/// stored, untouched.  A language the manifest does not know short-circuits
/// to the no-rules fallback without caching anything.  Otherwise the given
/// definition source is parsed -- an absent or malformed source degrades to
/// the fallback -- and the result is cached for the rest of the process.
pub fn load_syntax(reg: &mut LanguageRegistry, language: &str, source: Option<&str>) -> (r:
    Syntax)
    requires
        old(reg).wf(),
    ensures
        final(reg).wf(),
        final(reg).manifest == old(reg).manifest,
        sorted_by_priority(r.rules@),
        language@ == "plain"@ ==> {
            &&& r.rules@.len() == 0
            &&& r.default_color@ == spec_default_color()
            &&& *final(reg) == *old(reg)
        },
        language@ != "plain"@ ==> ({
            let hit = spec_cache_lookup(old(reg).cache_view(), language@);
            &&& hit matches Some(s) ==> syntax_equiv(r, s) && *final(reg) == *old(reg)
            &&& hit is None && !knows_language(old(reg).manifest, language@) ==> {
                &&& r.rules@.len() == 0
                &&& r.default_color@ == spec_default_color()
                &&& *final(reg) == *old(reg)
            }
            &&& hit is None && knows_language(old(reg).manifest, language@) ==> {
                &&& exists|c: Syntax|
                    final(reg).cache_view() == old(reg).cache_view().push((language@, c))
                        && syntax_equiv(r, c)
                &&& (source is None ==> r.rules@.len() == 0 && r.default_color@
                    == spec_default_color())
                &&& (source matches Some(text) ==> syntax_matches_source(r, text@))
            }
        }),
{
    let owned = language.to_owned();
    if owned == "plain".to_owned() {
        return fallback_syntax();
    }
    match cache_get(reg, &owned) {
        Some(s) => {
            proof {
                lemma_cache_lookup_member(reg.cache_view(), language@);
                let i = choose|i: int|
                    0 <= i < reg.cache_view().len() && #[trigger] reg.cache_view()[i] == (
                        language@,
                        spec_cache_lookup(reg.cache_view(), language@).unwrap(),
                    );
                assert(sorted_by_priority(reg.cache_view()[i].1.rules@));
            }
            return s;
        },
        None => {},
    }
    if !language_known(&reg.manifest, &owned) {
        return fallback_syntax();
    }
    let syn: Syntax = match source {
        Some(text) => match parse_sidel(text) {
            Some(s) => s,
            None => fallback_syntax(),
        },
        None => fallback_syntax(),
    };
    proof {
        match source {
            Some(text) => {
                assert(syntax_matches_source(syn, text@));
            },
            None => {},
        }
    }
    let r = syn.duplicate();
    let ghost pre = *reg;
    reg.cache.push((owned, syn));
    proof {
        let c = reg.cache@.last().1;
        assert(reg.cache_view() =~= pre.cache_view().push((language@, c)));
        assert(syntax_equiv(r, c));
        assert forall|i: int| 0 <= i < reg.cache_view().len() implies {
            &&& knows_language(reg.manifest, (#[trigger] reg.cache_view()[i]).0)
            &&& sorted_by_priority(reg.cache_view()[i].1.rules@)
        } by {
            if i < pre.cache_view().len() {
                assert(reg.cache_view()[i] == pre.cache_view()[i]);
            }
        }
    }
    r
}

/// A successful cache lookup returns one of the stored entries.
proof fn lemma_cache_lookup_member(entries: Seq<(Seq<char>, Syntax)>, lang: Seq<char>)
    requires
        spec_cache_lookup(entries, lang) matches Some(_),
    ensures
        exists|i: int|
            0 <= i < entries.len() && #[trigger] entries[i] == (
                lang,
                spec_cache_lookup(entries, lang).unwrap(),
            ),
    decreases entries.len(),
{
    if entries.last().0 == lang {
        assert(entries[entries.len() - 1] == (lang, spec_cache_lookup(entries, lang).unwrap()));
    } else {
        lemma_cache_lookup_member(entries.drop_last(), lang);
        let i = choose|i: int|
            0 <= i < entries.drop_last().len() && #[trigger] entries.drop_last()[i] == (
                lang,
                spec_cache_lookup(entries.drop_last(), lang).unwrap(),
            );
        assert(entries[i] == entries.drop_last()[i]);
    }
}

/// A language the manifest does not know is never in the cache of a
/// well-formed registry: loading it always yields the no-rules fallback,
/// regardless of cache state.
pub proof fn lemma_unknown_language_never_cached(reg: LanguageRegistry, lang: Seq<char>)
    requires
        reg.wf(),
        !knows_language(reg.manifest, lang),
    ensures
        spec_cache_lookup(reg.cache_view(), lang) is None,
{
    if spec_cache_lookup(reg.cache_view(), lang) matches Some(s) {
        lemma_cache_lookup_member(reg.cache_view(), lang);
        let i = choose|i: int|
            0 <= i < reg.cache_view().len() && #[trigger] reg.cache_view()[i] == (
                lang,
                spec_cache_lookup(reg.cache_view(), lang).unwrap(),
            );
        assert(knows_language(reg.manifest, reg.cache_view()[i].0));
        assert(false);
    }
}

} // verus!
