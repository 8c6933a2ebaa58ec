//! Documents author configuration: the declaration-file form
//! (`export default { … }`) reduced to its object text, and the
//! configuration normalized into a document route plan.

use vstd::prelude::*;
use crate::json::{Json, JsonValue};
use crate::text::{
    find_from, from_chars, has_prefix, is_ws, is_ws_exec, occurs_at, push_all, push_str, starts_with, to_chars, trim,
    trim_chars, trim_end_char, trim_end_char_exec, trim_start,
};

verus! {

/// The first occurrence of `p` in `s` at or after `k`.
pub open spec fn find_first(s: Seq<char>, p: Seq<char>, k: int) -> Option<int>
    decreases s.len() - k,
{
    if k < 0 || k + p.len() > s.len() {
        None
    } else if occurs_at(s, p, k) {
        Some(k)
    } else if k >= s.len() {
        None
    } else {
        find_first(s, p, k + 1)
    }
}

/// The first occurrence found is one, and none comes before it.
pub proof fn lemma_find_first(s: Seq<char>, p: Seq<char>, k: int)
    requires
        0 <= k,
    ensures
        find_first(s, p, k) matches Some(i) ==> k <= i && i + p.len() <= s.len() && occurs_at(s, p, i) && forall|j: int|
            k <= j < i ==> !occurs_at(s, p, j),
        find_first(s, p, k) is None ==> forall|j: int| k <= j ==> !occurs_at(s, p, j),
    decreases s.len() - k,
{
    if k + p.len() > s.len() {
    } else if occurs_at(s, p, k) {
    } else if k >= s.len() {
    } else {
        lemma_find_first(s, p, k + 1);
    }
}

/// `s` from `pos` with each block comment `/* … */` replaced by one space;
/// `None` when a block comment is not closed.
pub open spec fn strip_blocks(s: Seq<char>, pos: int) -> Option<Seq<char>>
    decreases s.len() - pos,
{
    if pos < 0 || pos > s.len() {
        None
    } else {
        match find_first(s, seq!['/', '*'], pos) {
            None => Some(s.skip(pos)),
            Some(st) => match find_first(s, seq!['*', '/'], st + 2) {
                None => None,
                Some(e) => {
                    proof {
                        lemma_find_first(s, seq!['/', '*'], pos);
                        if st + 2 >= 0 {
                            lemma_find_first(s, seq!['*', '/'], st + 2);
                        }
                    }
                    match strip_blocks(s, e + 2) {
                        None => None,
                        Some(t) => Some(s.subrange(pos, st) + " "@ + t),
                    }
                },
            },
        }
    }
}

fn find_first_exec(s: &[char], p: &[char], k: usize) -> (r: Option<usize>)
    requires
        p@.len() > 0,
    ensures
        match r {
            Some(i) => find_first(s@, p@, k as int) == Some(i as int),
            None => find_first(s@, p@, k as int) is None,
        },
{
    proof {
        lemma_find_first(s@, p@, k as int);
    }
    let r = find_from(s, p, k);
    proof {
        match r {
            Some(i) => {
                if let Some(j) = find_first(s@, p@, k as int) {
                    if j < i {
                        assert(!occurs_at(s@, p@, j));
                    }
                    if i < j {
                        assert(!occurs_at(s@, p@, i as int));
                    }
                }
            },
            None => {
                if let Some(j) = find_first(s@, p@, k as int) {
                    assert(!occurs_at(s@, p@, j));
                }
            },
        }
    }
    r
}

/// `s` with each block comment replaced by one space, or `None` when one is
/// not closed.
fn strip_block_comments(s: &[char]) -> (r: Option<Vec<char>>)
    ensures
        match r {
            Some(v) => strip_blocks(s@, 0) == Some(v@),
            None => strip_blocks(s@, 0) is None,
        },
{
    let open: Vec<char> = vec!['/', '*'];
    let close: Vec<char> = vec!['*', '/'];
    let mut out: Vec<char> = Vec::new();
    let mut pos: usize = 0;
    proof {
        assert(s@.subrange(0, 0) =~= Seq::<char>::empty());
    }
    loop
        invariant
            pos <= s.len(),
            open@ == seq!['/', '*'],
            close@ == seq!['*', '/'],
            strip_blocks(s@, 0) == match strip_blocks(s@, pos as int) {
                None => None,
                Some(t) => Some(out@ + t),
            },
        decreases s.len() - pos,
    {
        match find_first_exec(s, open.as_slice(), pos) {
            None => {
                let mut i = pos;
                let ghost start = out@;
                while i < s.len()
                    invariant
                        pos <= i <= s.len(),
                        out@ == start + s@.subrange(pos as int, i as int),
                    decreases s.len() - i,
                {
                    out.push(s[i]);
                    proof {
                        assert(s@.subrange(pos as int, i + 1) =~= s@.subrange(pos as int, i as int).push(s@[i as int]));
                    }
                    i = i + 1;
                }
                proof {
                    assert(s@.subrange(pos as int, s@.len() as int) =~= s@.skip(pos as int));
                }
                return Some(out);
            },
            Some(st) => {
                proof {
                    lemma_find_first(s@, seq!['/', '*'], pos as int);
                }
                match find_first_exec(s, close.as_slice(), st + 2) {
                    None => {
                        return None;
                    },
                    Some(e) => {
                        proof {
                            lemma_find_first(s@, seq!['*', '/'], st + 2);
                        }
                        let ghost start = out@;
                        let mut i = pos;
                        while i < st
                            invariant
                                pos <= i <= st,
                                st <= s.len(),
                                out@ == start + s@.subrange(pos as int, i as int),
                            decreases st - i,
                        {
                            out.push(s[i]);
                            proof {
                                assert(s@.subrange(pos as int, i + 1) =~= s@.subrange(pos as int, i as int).push(s@[i as int]));
                            }
                            i = i + 1;
                        }
                        push_str(&mut out, " ");
                        proof {
                            assert(strip_blocks(s@, pos as int) == match strip_blocks(s@, e + 2) {
                                None => None,
                                Some(t) => Some(s@.subrange(pos as int, st as int) + " "@ + t),
                            });
                            if let Some(t) = strip_blocks(s@, e + 2) {
                                assert(start + (s@.subrange(pos as int, st as int) + " "@ + t) =~= out@ + t);
                            }
                        }
                        pos = e + 2;
                    },
                }
            },
        }
    }
}

/// A line as the cleaned text keeps it: dropped when its first non-blank
/// characters are `//`, else followed by a newline.
pub open spec fn kept_line(line: Seq<char>) -> Seq<char> {
    if has_prefix(trim_start(line), seq!['/', '/']) {
        Seq::empty()
    } else {
        line + seq!['\n']
    }
}

/// A line without the `\r` of a `\r\n` ending.
pub open spec fn line_body(raw: Seq<char>) -> Seq<char> {
    if raw.len() > 0 && raw.last() == '\r' {
        raw.drop_last()
    } else {
        raw
    }
}

/// The lines of `s` from `pos` (`str::lines`: split at `\n` or `\r\n`, no
/// empty line after a final ending), each kept as `kept_line` says.
pub open spec fn clean_lines(s: Seq<char>, pos: int) -> Seq<char>
    decreases s.len() - pos,
{
    if pos < 0 || pos >= s.len() {
        Seq::empty()
    } else {
        match find_first(s, seq!['\n'], pos) {
            Some(i) => {
                proof {
                    lemma_find_first(s, seq!['\n'], pos);
                }
                kept_line(line_body(s.subrange(pos, i))) + clean_lines(s, i + 1)
            },
            None => kept_line(s.skip(pos)),
        }
    }
}

fn keep_line(line: &[char], out: &mut Vec<char>)
    ensures
        final(out)@ == old(out)@ + kept_line(line@),
{
    let t = crate::text::trim_start_chars(line);
    let slashes: Vec<char> = vec!['/', '/'];
    if !starts_with(t.as_slice(), slashes.as_slice()) {
        push_all(out, line);
        out.push('\n');
        proof {
            assert(out@ =~= old(out)@ + kept_line(line@));
        }
    } else {
        proof {
            assert(out@ =~= old(out)@ + kept_line(line@));
        }
    }
}

fn clean_lines_exec(s: &[char]) -> (r: Vec<char>)
    ensures
        r@ == clean_lines(s@, 0),
{
    let nl: Vec<char> = vec!['\n'];
    let mut out: Vec<char> = Vec::new();
    let mut pos: usize = 0;
    while pos < s.len()
        invariant
            pos <= s.len(),
            nl@ == seq!['\n'],
            clean_lines(s@, 0) == out@ + clean_lines(s@, pos as int),
        decreases s.len() - pos,
    {
        match find_first_exec(s, nl.as_slice(), pos) {
            Some(i) => {
                proof {
                    lemma_find_first(s@, seq!['\n'], pos as int);
                }
                let mut raw: Vec<char> = Vec::new();
                let mut k = pos;
                while k < i
                    invariant
                        pos <= k <= i,
                        i < s.len(),
                        raw@ == s@.subrange(pos as int, k as int),
                    decreases i - k,
                {
                    raw.push(s[k]);
                    proof {
                        assert(s@.subrange(pos as int, k + 1) =~= s@.subrange(pos as int, k as int).push(s@[k as int]));
                    }
                    k = k + 1;
                }
                if raw.len() > 0 && raw[raw.len() - 1] == '\r' {
                    raw.pop();
                }
                proof {
                    assert(raw@ =~= line_body(s@.subrange(pos as int, i as int)));
                }
                let ghost before = out@;
                keep_line(raw.as_slice(), &mut out);
                proof {
                    assert(before + clean_lines(s@, pos as int) =~= out@ + clean_lines(s@, i + 1));
                }
                pos = i + 1;
            },
            None => {
                let mut rest: Vec<char> = Vec::new();
                let mut k = pos;
                while k < s.len()
                    invariant
                        pos <= k <= s.len(),
                        rest@ == s@.subrange(pos as int, k as int),
                    decreases s.len() - k,
                {
                    rest.push(s[k]);
                    proof {
                        assert(s@.subrange(pos as int, k + 1) =~= s@.subrange(pos as int, k as int).push(s@[k as int]));
                    }
                    k = k + 1;
                }
                proof {
                    assert(rest@ =~= s@.skip(pos as int));
                }
                let ghost before = out@;
                keep_line(rest.as_slice(), &mut out);
                proof {
                    assert(clean_lines(s@, s@.len() as int) =~= Seq::<char>::empty());
                    assert(out@ + clean_lines(s@, s@.len() as int) =~= before + clean_lines(s@, pos as int));
                }
                pos = s.len();
            },
        }
    }
    proof {
        assert(clean_lines(s@, pos as int) =~= Seq::<char>::empty());
        assert(out@ + Seq::<char>::empty() =~= out@);
    }
    out
}

/// The refusal of a declaration that is not `export default { … }`.
pub open spec fn not_declaration() -> Seq<char> {
    "expected `export default { \u{2026} }` (JSON-compatible declaration only)"@
}

/// The object text of a declaration file: block comments replaced by a
/// space, `//` comment lines dropped, then what follows `export default`,
/// trimmed and without trailing semicolons.
pub open spec fn declaration_body(raw: Seq<char>) -> Result<Seq<char>, Seq<char>> {
    match strip_blocks(raw, 0) {
        None => Err("unclosed block comment in documents config"@),
        Some(s) => {
            let t = trim(clean_lines(s, 0));
            if has_prefix(t, "export"@) {
                let rest = trim_start(t.skip("export"@.len() as int));
                if has_prefix(rest, "default"@) {
                    Ok(trim(trim_end_char(trim_start(rest.skip("default"@.len() as int)), ';')))
                } else {
                    Err(not_declaration())
                }
            } else {
                Err(not_declaration())
            }
        },
    }
}

fn skip_chars(s: &[char], k: usize) -> (r: Vec<char>)
    requires
        k <= s.len(),
    ensures
        r@ == s@.skip(k as int),
{
    let mut r: Vec<char> = Vec::new();
    let mut i = k;
    while i < s.len()
        invariant
            k <= i <= s.len(),
            r@ == s@.subrange(k as int, i as int),
        decreases s.len() - i,
    {
        r.push(s[i]);
        proof {
            assert(s@.subrange(k as int, i + 1) =~= s@.subrange(k as int, i as int).push(s@[i as int]));
        }
        i = i + 1;
    }
    proof {
        assert(s@.subrange(k as int, s@.len() as int) =~= s@.skip(k as int));
    }
    r
}

/// Reduce a declaration-only author file (`export default { … };`) to its
/// object text; comments are removed first.
pub fn coerce_declaration_export_default(raw: &str) -> (r: Result<String, String>)
    ensures
        match r {
            Ok(t) => declaration_body(raw@) == Ok::<Seq<char>, Seq<char>>(t@),
            Err(m) => declaration_body(raw@) == Err::<Seq<char>, Seq<char>>(m@),
        },
{
    let chars = to_chars(raw);
    let stripped = match strip_block_comments(chars.as_slice()) {
        Some(v) => v,
        None => {
            return Err(String::from_str("unclosed block comment in documents config"));
        },
    };
    let cleaned = clean_lines_exec(stripped.as_slice());
    let t = trim_chars(cleaned.as_slice());
    let export = to_chars("export");
    if !starts_with(t.as_slice(), export.as_slice()) {
        return Err(String::from_str("expected `export default { \u{2026} }` (JSON-compatible declaration only)"));
    }
    let after = skip_chars(t.as_slice(), export.len());
    let rest = crate::text::trim_start_chars(after.as_slice());
    let default = to_chars("default");
    if !starts_with(rest.as_slice(), default.as_slice()) {
        return Err(String::from_str("expected `export default { \u{2026} }` (JSON-compatible declaration only)"));
    }
    let body = skip_chars(rest.as_slice(), default.len());
    let a = crate::text::trim_start_chars(body.as_slice());
    let b = trim_end_char_exec(a.as_slice(), ';');
    let c = trim_chars(b.as_slice());
    Ok(from_chars(c.as_slice()))
}

/// The text of an author configuration to read as JSON5: a `.json5` or
/// `.json` file as it is, a `.ts` or `.js` declaration reduced to its object.
#[derive(Debug, Clone)]
pub enum ConfigText {
    Json5(String),
    Declaration(String),
}

/// What `author_config_text` gives, as plain values: `(true, text)` for a
/// declaration, `(false, text)` for JSON5, or the refusal.
pub open spec fn config_text(source: Seq<char>, file_name: Seq<char>) -> Result<(bool, Seq<char>), Seq<char>> {
    if crate::text::has_suffix(file_name, ".json5"@) || crate::text::has_suffix(file_name, ".json"@) {
        Ok((false, source))
    } else if crate::text::has_suffix(file_name, ".ts"@) || crate::text::has_suffix(file_name, ".js"@) {
        match declaration_body(source) {
            Ok(t) => Ok((true, t)),
            Err(m) => Err(m),
        }
    } else {
        Err("unsupported documents config filename: "@ + file_name)
    }
}

/// Select how an author configuration file is read, by its name.
pub fn author_config_text(source: &str, file_name: &str) -> (r: Result<ConfigText, String>)
    ensures
        match r {
            Ok(ConfigText::Json5(t)) => config_text(source@, file_name@) == Ok::<(bool, Seq<char>), Seq<char>>((false, t@)),
            Ok(ConfigText::Declaration(t)) => config_text(source@, file_name@) == Ok::<(bool, Seq<char>), Seq<char>>((true, t@)),
            Err(m) => config_text(source@, file_name@) == Err::<(bool, Seq<char>), Seq<char>>(m@),
        },
{
    let name = to_chars(file_name);
    let json5 = to_chars(".json5");
    let json = to_chars(".json");
    let ts = to_chars(".ts");
    let js = to_chars(".js");
    if crate::text::ends_with(name.as_slice(), json5.as_slice()) || crate::text::ends_with(name.as_slice(), json.as_slice()) {
        return Ok(ConfigText::Json5(String::from_str(source)));
    }
    if crate::text::ends_with(name.as_slice(), ts.as_slice()) || crate::text::ends_with(name.as_slice(), js.as_slice()) {
        return match coerce_declaration_export_default(source) {
            Ok(t) => Ok(ConfigText::Declaration(t)),
            Err(m) => Err(m),
        };
    }
    let mut m = to_chars("unsupported documents config filename: ");
    push_str(&mut m, file_name);
    Err(from_chars(m.as_slice()))
}

/// A locale label as an author writes it: a text, or an object with an
/// optional label.
#[derive(Debug, Clone)]
pub enum LocaleLabelWire {
    Label(String),
    Object { label: Option<String> },
}

/// A collection as an author writes it.
#[derive(Debug, Clone)]
pub struct CollectionWire {
    pub source: Option<String>,
    pub mount: Option<String>,
}

/// A documents author configuration. `locales` and `collections` are maps:
/// their keys come in increasing order, each once.
#[derive(Debug)]
pub struct DocumentConfigFile {
    pub default_locale: Option<String>,
    pub locales: Vec<(String, LocaleLabelWire)>,
    pub collections: Vec<(String, CollectionWire)>,
    /// Forbidden when `true`: a silent whole-page fallback.
    pub fallback: Option<JsonValue>,
}

/// One collection of documents.
#[derive(Debug, Clone)]
pub struct DocumentCollectionPlan {
    pub id: String,
    pub source_root: String,
    pub route_base: String,
}

/// Where a collection is mounted.
#[derive(Debug, Clone)]
pub struct DocumentMountPlan {
    pub collection_id: String,
    pub route_base: String,
    /// `standalone` at `/`, else `integrated`.
    pub mode: String,
}

/// What a documents diagnostic is about.
#[derive(Debug, Clone, Copy, PartialEq, Eq, Structural)]
pub enum DocumentDiagCode {
    ConfigMissing,
    ConfigInvalid,
    DefaultLocale,
    FallbackSilent,
}

/// One documents diagnostic.
#[derive(Debug, Clone)]
pub struct DocumentDiagnostic {
    pub path: String,
    /// `error` or `warning`.
    pub severity: String,
    pub code: DocumentDiagCode,
    pub detail: String,
}

/// The document route plan.
#[derive(Debug, Clone)]
pub struct DocumentRoutePlan {
    pub source_path: Option<String>,
    pub default_locale: Option<String>,
    /// Locale id to label, by increasing id.
    pub locale_labels: Vec<(String, String)>,
    pub collections: Vec<DocumentCollectionPlan>,
    pub mounts: Vec<DocumentMountPlan>,
    pub silent_fallback_requested: bool,
    pub diagnostics: Vec<DocumentDiagnostic>,
}

impl DocumentRoutePlan {
    /// Whether a diagnostic is an error.
    pub fn has_errors(&self) -> (r: bool)
        ensures
            r <==> exists|i: int| 0 <= i < self.diagnostics@.len() && #[trigger] self.diagnostics@[i].severity@ == "error"@,
    {
        let mut i: usize = 0;
        while i < self.diagnostics.len()
            invariant
                i <= self.diagnostics.len(),
                forall|k: int| 0 <= k < i ==> #[trigger] self.diagnostics@[k].severity@ != "error"@,
            decreases self.diagnostics.len() - i,
        {
            let a = to_chars(self.diagnostics[i].severity.as_str());
            let b = to_chars("error");
            if crate::text::chars_eq(a.as_slice(), b.as_slice()) {
                return true;
            }
            i = i + 1;
        }
        false
    }
}

/// The label of a locale: the text, the object's label, or the id.
pub open spec fn label_text(id: Seq<char>, w: LocaleLabelWire) -> Seq<char> {
    match w {
        LocaleLabelWire::Label(s) => s@,
        LocaleLabelWire::Object { label } => match label {
            Some(l) => l@,
            None => id,
        },
    }
}

/// A non-empty option, else `default`.
pub open spec fn nonempty_or(o: Option<String>, default: Seq<char>) -> Seq<char> {
    match o {
        Some(s) => if s@.len() > 0 {
            s@
        } else {
            default
        },
        None => default,
    }
}

/// A collection as plain values: (id, source root, route base).
pub open spec fn collection_row(id: Seq<char>, c: CollectionWire) -> (Seq<char>, Seq<char>, Seq<char>) {
    (id, nonempty_or(c.source, "."@), nonempty_or(c.mount, "/docs"@))
}

/// The mount mode of a route base.
pub open spec fn mount_mode(route_base: Seq<char>) -> Seq<char> {
    if route_base == "/"@ {
        "standalone"@
    } else {
        "integrated"@
    }
}

/// The collections of a configuration as (id, source root, route base), the
/// default collection when there is none.
pub open spec fn plan_collections(cs: Seq<(String, CollectionWire)>) -> Seq<(Seq<char>, Seq<char>, Seq<char>)> {
    if cs.len() == 0 {
        seq![("default"@, "."@, "/docs"@)]
    } else {
        cs.map_values(|e: (String, CollectionWire)| collection_row(e.0@, e.1))
    }
}

/// The diagnostics of a configuration: an undeclared default locale (when
/// locales are declared), then a silent fallback.
pub open spec fn config_diags(file: DocumentConfigFile, source_path: Seq<char>) -> Seq<(Seq<char>, Seq<char>, DocumentDiagCode, Seq<char>)> {
    let d = nonempty_or(file.default_locale, Seq::empty());
    let ids = file.locales@.map_values(|e: (String, LocaleLabelWire)| e.0@);
    (if d.len() > 0 && ids.len() > 0 && !ids.contains(d) {
        seq![(source_path, "error"@, DocumentDiagCode::DefaultLocale, "defaultLocale "@ + d + " missing from locales"@)]
    } else {
        Seq::empty()
    }) + (if file.fallback matches Some(JsonValue::Bool(true)) {
        seq![
            (
                source_path,
                "error"@,
                DocumentDiagCode::FallbackSilent,
                "silent whole-page fallback is forbidden; allow only explicit nav/metadata or per-page fallback"@,
            ),
        ]
    } else {
        Seq::empty()
    })
}

/// Diagnostics as plain values.
pub open spec fn doc_diags_view(ds: Seq<DocumentDiagnostic>) -> Seq<(Seq<char>, Seq<char>, DocumentDiagCode, Seq<char>)> {
    ds.map_values(|d: DocumentDiagnostic| (d.path@, d.severity@, d.code, d.detail@))
}

/// Collections as plain values.
pub open spec fn collections_view(cs: Seq<DocumentCollectionPlan>) -> Seq<(Seq<char>, Seq<char>, Seq<char>)> {
    cs.map_values(|c: DocumentCollectionPlan| (c.id@, c.source_root@, c.route_base@))
}

/// Mounts as plain values.
pub open spec fn mounts_view(ms: Seq<DocumentMountPlan>) -> Seq<(Seq<char>, Seq<char>, Seq<char>)> {
    ms.map_values(|m: DocumentMountPlan| (m.collection_id@, m.route_base@, m.mode@))
}

/// The mount of each collection row.
pub open spec fn plan_mounts(rows: Seq<(Seq<char>, Seq<char>, Seq<char>)>) -> Seq<(Seq<char>, Seq<char>, Seq<char>)> {
    rows.map_values(|r: (Seq<char>, Seq<char>, Seq<char>)| (r.0, r.2, mount_mode(r.2)))
}

fn nonempty_or_exec(o: &Option<String>, default: &str) -> (r: String)
    ensures
        r@ == nonempty_or(*o, default@),
{
    match o {
        Some(s) => if s.as_str().is_empty() {
            String::from_str(default)
        } else {
            s.clone()
        },
        None => String::from_str(default),
    }
}

fn push_collection(
    collections: &mut Vec<DocumentCollectionPlan>,
    mounts: &mut Vec<DocumentMountPlan>,
    id: String,
    source_root: String,
    route_base: String,
)
    ensures
        collections_view(final(collections)@) == collections_view(old(collections)@).push((id@, source_root@, route_base@)),
        mounts_view(final(mounts)@) == mounts_view(old(mounts)@).push((id@, route_base@, mount_mode(route_base@))),
{
    let rb = to_chars(route_base.as_str());
    let slash = to_chars("/");
    let mode = if crate::text::chars_eq(rb.as_slice(), slash.as_slice()) {
        String::from_str("standalone")
    } else {
        String::from_str("integrated")
    };
    let m = DocumentMountPlan { collection_id: id.clone(), route_base: route_base.clone(), mode };
    mounts.push(m);
    let c = DocumentCollectionPlan { id, source_root, route_base };
    collections.push(c);
    proof {
        assert(collections_view(collections@) =~= collections_view(old(collections)@).push((c.id@, c.source_root@, c.route_base@)));
        assert(mounts_view(mounts@) =~= mounts_view(old(mounts)@).push((m.collection_id@, m.route_base@, m.mode@)));
    }
}

/// The plan of a documents configuration: labels of the declared locales,
/// the default locale when set, each collection (source root `.` and mount
/// `/docs` when unset; the default collection when there is none) with its
/// mount (`standalone` at `/`), and the diagnostics of `config_diags`.
pub fn normalize_document_config(file: DocumentConfigFile, source_path: String) -> (r: DocumentRoutePlan)
    ensures
        r.source_path matches Some(p) && p@ == source_path@,
        match r.default_locale {
            Some(d) => d@.len() > 0 && d@ == nonempty_or(file.default_locale, Seq::empty()),
            None => nonempty_or(file.default_locale, Seq::empty()).len() == 0,
        },
        r.locale_labels@.map_values(|e: (String, String)| (e.0@, e.1@)) == file.locales@.map_values(
            |e: (String, LocaleLabelWire)| (e.0@, label_text(e.0@, e.1)),
        ),
        collections_view(r.collections@) == plan_collections(file.collections@),
        mounts_view(r.mounts@) == plan_mounts(plan_collections(file.collections@)),
        r.silent_fallback_requested == (file.fallback matches Some(JsonValue::Bool(true))),
        doc_diags_view(r.diagnostics@) == config_diags(file, source_path@),
{
    let mut diagnostics: Vec<DocumentDiagnostic> = Vec::new();
    let mut locale_labels: Vec<(String, String)> = Vec::new();
    let mut i: usize = 0;
    while i < file.locales.len()
        invariant
            i <= file.locales.len(),
            locale_labels@.len() == i,
            forall|k: int| 0 <= k < i ==> (#[trigger] locale_labels@[k]).0@ == file.locales@[k].0@ && locale_labels@[k].1@ == label_text(
                file.locales@[k].0@,
                file.locales@[k].1,
            ),
        decreases file.locales.len() - i,
    {
        let id = &file.locales[i].0;
        let text = match &file.locales[i].1 {
            LocaleLabelWire::Label(s) => s.clone(),
            LocaleLabelWire::Object { label } => match label {
                Some(l) => l.clone(),
                None => id.clone(),
            },
        };
        locale_labels.push((id.clone(), text));
        i = i + 1;
    }
    proof {
        assert(locale_labels@.map_values(|e: (String, String)| (e.0@, e.1@)) =~= file.locales@.map_values(
            |e: (String, LocaleLabelWire)| (e.0@, label_text(e.0@, e.1)),
        ));
    }
    let d = nonempty_or_exec(&file.default_locale, "");
    let ghost ids = file.locales@.map_values(|e: (String, LocaleLabelWire)| e.0@);
    let default_locale = if d.as_str().is_empty() {
        None
    } else {
        Some(d.clone())
    };
    proof {
        assert(""@ =~= Seq::<char>::empty()) by {
            reveal_strlit("");
        }
    }
    if !d.as_str().is_empty() && file.locales.len() > 0 {
        let dc = to_chars(d.as_str());
        let mut found = false;
        let mut k: usize = 0;
        while k < file.locales.len()
            invariant
                k <= file.locales.len(),
                dc@ == d@,
                ids == file.locales@.map_values(|e: (String, LocaleLabelWire)| e.0@),
                found <==> exists|q: int| 0 <= q < k && ids[q] == d@,
            decreases file.locales.len() - k,
        {
            let c = to_chars(file.locales[k].0.as_str());
            if crate::text::chars_eq(c.as_slice(), dc.as_slice()) {
                found = true;
            }
            proof {
                assert(ids[k as int] == file.locales@[k as int].0@);
            }
            k = k + 1;
        }
        if !found {
            let mut detail = to_chars("defaultLocale ");
            push_str(&mut detail, d.as_str());
            push_str(&mut detail, " missing from locales");
            diagnostics.push(
                DocumentDiagnostic {
                    path: source_path.clone(),
                    severity: String::from_str("error"),
                    code: DocumentDiagCode::DefaultLocale,
                    detail: from_chars(detail.as_slice()),
                },
            );
        }
    }
    let ghost first = doc_diags_view(diagnostics@);
    let silent = match &file.fallback {
        Some(JsonValue::Bool(b)) => *b,
        _ => false,
    };
    if silent {
        diagnostics.push(
            DocumentDiagnostic {
                path: source_path.clone(),
                severity: String::from_str("error"),
                code: DocumentDiagCode::FallbackSilent,
                detail: String::from_str(
                    "silent whole-page fallback is forbidden; allow only explicit nav/metadata or per-page fallback",
                ),
            },
        );
    }
    proof {
        assert(doc_diags_view(diagnostics@) =~= config_diags(file, source_path@));
    }
    let mut collections: Vec<DocumentCollectionPlan> = Vec::new();
    let mut mounts: Vec<DocumentMountPlan> = Vec::new();
    let ghost rows = file.collections@.map_values(|e: (String, CollectionWire)| collection_row(e.0@, e.1));
    let mut j: usize = 0;
    while j < file.collections.len()
        invariant
            j <= file.collections.len(),
            rows == file.collections@.map_values(|e: (String, CollectionWire)| collection_row(e.0@, e.1)),
            collections_view(collections@) == rows.take(j as int),
            mounts_view(mounts@) == plan_mounts(rows.take(j as int)),
        decreases file.collections.len() - j,
    {
        let id = file.collections[j].0.clone();
        let source_root = nonempty_or_exec(&file.collections[j].1.source, ".");
        let route_base = nonempty_or_exec(&file.collections[j].1.mount, "/docs");
        push_collection(&mut collections, &mut mounts, id, source_root, route_base);
        proof {
            assert(rows.take(j + 1) =~= rows.take(j as int).push(rows[j as int]));
            assert(plan_mounts(rows.take(j + 1)) =~= plan_mounts(rows.take(j as int)).push(
                (rows[j as int].0, rows[j as int].2, mount_mode(rows[j as int].2)),
            ));
        }
        j = j + 1;
    }
    proof {
        assert(rows.take(file.collections@.len() as int) =~= rows);
    }
    if collections.len() == 0 {
        push_collection(&mut collections, &mut mounts, String::from_str("default"), String::from_str("."), String::from_str("/docs"));
        proof {
            assert(collections_view(collections@) =~= plan_collections(file.collections@));
            assert(mounts_view(mounts@) =~= plan_mounts(plan_collections(file.collections@)));
        }
    }
    DocumentRoutePlan {
        source_path: Some(source_path),
        default_locale,
        locale_labels,
        collections,
        mounts,
        silent_fallback_requested: silent,
        diagnostics,
    }
}

/// Preferred author file name under `documents/`.
pub const DOCUMENT_CONFIG_JSON5: &'static str = "documents.config.json5";

/// JSON author file name.
pub const DOCUMENT_CONFIG_JSON: &'static str = "documents.config.json";

/// Declaration-only TypeScript author file name.
pub const DOCUMENT_CONFIG_TS: &'static str = "documents.config.ts";

/// Declaration-only JavaScript author file name.
pub const DOCUMENT_CONFIG_JS: &'static str = "documents.config.js";

/// The plan of a configuration that could not be read or decoded: no
/// locales, no collections, one error with `detail`.
pub fn config_invalid_plan(source_path: String, detail: String) -> (r: DocumentRoutePlan)
    ensures
        r.source_path matches Some(p) && p@ == source_path@,
        r.default_locale is None,
        r.locale_labels@.len() == 0,
        r.collections@.len() == 0,
        r.mounts@.len() == 0,
        !r.silent_fallback_requested,
        doc_diags_view(r.diagnostics@) == seq![(source_path@, "error"@, DocumentDiagCode::ConfigInvalid, detail@)],
{
    let d = DocumentDiagnostic {
        path: source_path.clone(),
        severity: String::from_str("error"),
        code: DocumentDiagCode::ConfigInvalid,
        detail,
    };
    let diagnostics = vec![d];
    proof {
        assert(doc_diags_view(diagnostics@) =~= seq![(d.path@, d.severity@, d.code, d.detail@)]);
    }
    DocumentRoutePlan {
        source_path: Some(source_path),
        default_locale: None,
        locale_labels: Vec::new(),
        collections: Vec::new(),
        mounts: Vec::new(),
        silent_fallback_requested: false,
        diagnostics,
    }
}

/// The plan when no configuration file exists: the default collection and
/// mount, and a warning at `documents/documents.config.json5`.
pub fn config_missing_plan() -> (r: DocumentRoutePlan)
    ensures
        r.source_path matches Some(p) && p@ == "documents/"@ + DOCUMENT_CONFIG_JSON5@,
        r.default_locale is None,
        r.locale_labels@.len() == 0,
        collections_view(r.collections@) == plan_collections(Seq::empty()),
        mounts_view(r.mounts@) == plan_mounts(plan_collections(Seq::empty())),
        !r.silent_fallback_requested,
        doc_diags_view(r.diagnostics@) == seq![
            (
                "documents/"@ + DOCUMENT_CONFIG_JSON5@,
                "warning"@,
                DocumentDiagCode::ConfigMissing,
                "documents.config.json|json5|ts|js missing under /documents"@,
            ),
        ],
{
    let mut rel = to_chars("documents/");
    push_str(&mut rel, DOCUMENT_CONFIG_JSON5);
    let path = from_chars(rel.as_slice());
    let d = DocumentDiagnostic {
        path: path.clone(),
        severity: String::from_str("warning"),
        code: DocumentDiagCode::ConfigMissing,
        detail: String::from_str("documents.config.json|json5|ts|js missing under /documents"),
    };
    let diagnostics = vec![d];
    proof {
        assert(doc_diags_view(diagnostics@) =~= seq![(d.path@, d.severity@, d.code, d.detail@)]);
    }
    let mut collections: Vec<DocumentCollectionPlan> = Vec::new();
    let mut mounts: Vec<DocumentMountPlan> = Vec::new();
    push_collection(&mut collections, &mut mounts, String::from_str("default"), String::from_str("."), String::from_str("/docs"));
    proof {
        assert(collections_view(collections@) =~= plan_collections(Seq::empty()));
        assert(mounts_view(mounts@) =~= plan_mounts(plan_collections(Seq::empty())));
    }
    DocumentRoutePlan {
        source_path: Some(path),
        default_locale: None,
        locale_labels: Vec::new(),
        collections,
        mounts,
        silent_fallback_requested: false,
        diagnostics,
    }
}

} // verus!
