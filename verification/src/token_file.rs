//! Design token files read into theme leaves: a native theme document
//! (`entries` of `{ key: { path }, value }`) or a flat `namespace -> token ->
//! value` object.

use vstd::prelude::*;
use crate::designs::{leaf_view, leaf_views, StyleTokenLeaf};
use crate::json::{json_view, json_views, lemma_json_views, lemma_member_views, member, member_views, Json, JsonValue};
use crate::order::texts;
use crate::text::{from_chars, join, push_all, push_str, to_chars};

verus! {

/// The CSS text of a flat token value: a string as it is, a number by its
/// JSON text.
pub open spec fn flat_css(v: Json) -> Option<Seq<char>> {
    match v {
        Json::Str(s) => Some(s),
        Json::Number(t) => Some(t),
        _ => None,
    }
}

/// The CSS text of a native theme value: a string as it is, else `data.css`
/// when that is a string, else `data` when that is a string.
pub open spec fn native_css(v: Option<Json>) -> Option<Seq<char>> {
    match v {
        None => None,
        Some(Json::Str(s)) => Some(s),
        Some(x) => match member(x, "data"@) {
            Some(d) => match member(d, "css"@) {
                Some(Json::Str(c)) => Some(c),
                _ => match d {
                    Json::Str(s) => Some(s),
                    _ => None,
                },
            },
            None => None,
        },
    }
}

/// The strings among `a`, in order.
pub open spec fn strings_of(a: Seq<Json>) -> Seq<Seq<char>>
    decreases a.len(),
{
    if a.len() == 0 {
        Seq::empty()
    } else {
        let p = strings_of(a.drop_last());
        match a.last() {
            Json::Str(s) => p.push(s),
            _ => p,
        }
    }
}

/// The key path of a native entry: the strings of `key.path`.
pub open spec fn entry_path(item: Json) -> Seq<Seq<char>> {
    match member(item, "key"@) {
        Some(k) => match member(k, "path"@) {
            Some(Json::Array(a)) => strings_of(a),
            _ => Seq::empty(),
        },
        None => Seq::empty(),
    }
}

/// The leaves of the first `n` native entries; an entry without a key path
/// is skipped, one whose value has no CSS text fails.
pub open spec fn entries_leaves(items: Seq<Json>, n: int) -> Result<Seq<(Seq<Seq<char>>, Seq<char>)>, Seq<char>>
    decreases n,
{
    if n <= 0 {
        Ok(Seq::empty())
    } else {
        match entries_leaves(items, n - 1) {
            Err(e) => Err(e),
            Ok(p) => {
                let path = entry_path(items[n - 1]);
                if path.len() == 0 {
                    Ok(p)
                } else {
                    match native_css(member(items[n - 1], "value"@)) {
                        Some(css) => Ok(p.push((path, css))),
                        None => Err("unsupported native theme value for "@ + join(path, "."@)),
                    }
                }
            },
        }
    }
}

/// The leaves of the first `n` tokens of namespace `ns`, appended to `acc`.
pub open spec fn ns_leaves(
    acc: Seq<(Seq<Seq<char>>, Seq<char>)>,
    ns: Seq<char>,
    tokens: Seq<(Seq<char>, Json)>,
    n: int,
) -> Result<Seq<(Seq<Seq<char>>, Seq<char>)>, Seq<char>>
    decreases n,
{
    if n <= 0 {
        Ok(acc)
    } else {
        match ns_leaves(acc, ns, tokens, n - 1) {
            Err(e) => Err(e),
            Ok(p) => match flat_css(tokens[n - 1].1) {
                Some(css) => Ok(p.push((seq![ns, tokens[n - 1].0], css))),
                None => Err("unsupported value for `"@ + ns + "."@ + tokens[n - 1].0 + "`"@),
            },
        }
    }
}

/// The leaves of the first `n` namespaces of a flat token object; a
/// namespace that is no object is skipped.
pub open spec fn flat_leaves(m: Seq<(Seq<char>, Json)>, n: int) -> Result<Seq<(Seq<Seq<char>>, Seq<char>)>, Seq<char>>
    decreases n,
{
    if n <= 0 {
        Ok(Seq::empty())
    } else {
        match flat_leaves(m, n - 1) {
            Err(e) => Err(e),
            Ok(p) => match m[n - 1].1 {
                Json::Object(tokens) => ns_leaves(p, m[n - 1].0, tokens, tokens.len() as int),
                _ => Ok(p),
            },
        }
    }
}

/// The document has an `entries` array.
pub open spec fn has_entries(doc: Json) -> bool {
    match member(doc, "entries"@) {
        Some(Json::Array(_)) => true,
        _ => false,
    }
}

/// The leaves of a token document: its native `entries` when it has an
/// `entries` array, else its flat namespaces in member order (key order for
/// a document read from JSON text); a root that is no object fails.
pub open spec fn token_doc_leaves(doc: Json) -> Result<Seq<(Seq<Seq<char>>, Seq<char>)>, Seq<char>> {
    match member(doc, "entries"@) {
        Some(Json::Array(items)) => entries_leaves(items, items.len() as int),
        _ => match doc {
            Json::Object(m) => flat_leaves(m, m.len() as int),
            _ => Err("expected object root"@),
        },
    }
}

fn native_css_exec(v: Option<&JsonValue>) -> (r: Option<String>)
    ensures
        match r {
            Some(s) => native_css(
                match v {
                    Some(x) => Some(x@),
                    None => None,
                },
            ) == Some(s@),
            None => native_css(
                match v {
                    Some(x) => Some(x@),
                    None => None,
                },
            ) is None,
        },
{
    match v {
        None => None,
        Some(x) => {
            if let Some(s) = x.as_str() {
                return Some(String::from_str(s));
            }
            match x.get("data") {
                Some(d) => {
                    match d.get("css") {
                        Some(c) => {
                            if let Some(s) = c.as_str() {
                                return Some(String::from_str(s));
                            }
                        },
                        None => {},
                    }
                    match d.as_str() {
                        Some(s) => Some(String::from_str(s)),
                        None => None,
                    }
                },
                None => None,
            }
        },
    }
}

fn flat_css_exec(v: &JsonValue) -> (r: Option<String>)
    ensures
        match r {
            Some(s) => flat_css(v@) == Some(s@),
            None => flat_css(v@) is None,
        },
{
    match v {
        JsonValue::Str(s) => Some(s.clone()),
        JsonValue::Number(t) => Some(t.clone()),
        _ => None,
    }
}

fn entry_path_exec(item: &JsonValue) -> (r: Vec<String>)
    ensures
        texts(r@) == entry_path(item@),
{
    let mut out: Vec<String> = Vec::new();
    match item.get("key") {
        Some(k) => match k.get("path") {
            Some(p) => match p.as_array() {
                Some(a) => {
                    proof {
                        lemma_json_views(a@);
                    }
                    let ghost av = json_views(a@);
                    let mut i: usize = 0;
                    while i < a.len()
                        invariant
                            i <= a.len(),
                            av == json_views(a@),
                            av.len() == a@.len(),
                            forall|j: int| 0 <= j < a@.len() ==> #[trigger] av[j] == json_view(a@[j]),
                            texts(out@) == strings_of(av.take(i as int)),
                        decreases a.len() - i,
                    {
                        proof {
                            assert(av.take(i + 1).drop_last() =~= av.take(i as int));
                            assert(av[i as int] == a@[i as int]@);
                        }
                        match &a[i] {
                            JsonValue::Str(s) => {
                                let ghost before = out@;
                                out.push(s.clone());
                                proof {
                                    assert(texts(out@) =~= texts(before).push(s@));
                                }
                            },
                            _ => {},
                        }
                        i = i + 1;
                    }
                    proof {
                        assert(av.take(av.len() as int) =~= av);
                    }
                },
                None => {},
            },
            None => {},
        },
        None => {},
    }
    out
}

fn push_leaf(out: &mut Vec<StyleTokenLeaf>, path: Vec<String>, value: String)
    ensures
        leaf_views(final(out)@) == leaf_views(old(out)@).push((texts(path@), value@)),
{
    let ghost before = out@;
    let l = StyleTokenLeaf { path, value };
    out.push(l);
    proof {
        assert(leaf_views(out@) =~= leaf_views(before).push(leaf_view(l)));
    }
}

/// The theme leaves of a design token document (see `token_doc_leaves`),
/// or the message of the first value that has no CSS text.
pub fn token_leaves(doc: &JsonValue) -> (r: Result<Vec<StyleTokenLeaf>, String>)
    ensures
        match r {
            Ok(v) => token_doc_leaves(doc@) == Ok::<Seq<(Seq<Seq<char>>, Seq<char>)>, Seq<char>>(leaf_views(v@)),
            Err(e) => token_doc_leaves(doc@) == Err::<Seq<(Seq<Seq<char>>, Seq<char>)>, Seq<char>>(e@),
        },
{
    let mut out: Vec<StyleTokenLeaf> = Vec::new();
    proof {
        assert(leaf_views(out@) =~= Seq::<(Seq<Seq<char>>, Seq<char>)>::empty());
    }
    if let Some(e) = doc.get("entries") {
        if let Some(items) = e.as_array() {
            proof {
                lemma_json_views(items@);
            }
            let ghost iv = json_views(items@);
            let mut i: usize = 0;
            while i < items.len()
                invariant
                    i <= items.len(),
                    iv == json_views(items@),
                    iv.len() == items@.len(),
                    member(doc@, "entries"@) == Some(Json::Array(iv)),
                    forall|j: int| 0 <= j < items@.len() ==> #[trigger] iv[j] == json_view(items@[j]),
                    entries_leaves(iv, i as int) == Ok::<Seq<(Seq<Seq<char>>, Seq<char>)>, Seq<char>>(leaf_views(out@)),
                decreases items.len() - i,
            {
                let item = &items[i];
                proof {
                    assert(iv[i as int] == item@);
                }
                let path = entry_path_exec(item);
                if path.len() > 0 {
                    match native_css_exec(item.get("value")) {
                        Some(css) => {
                            push_leaf(&mut out, path, css);
                        },
                        None => {
                            let sep = to_chars(".");
                            let mut m = to_chars("unsupported native theme value for ");
                            crate::text::push_join(&mut m, path.as_slice(), sep.as_slice());
                            let ghost e = m@;
                            proof {
                                assert(entries_leaves(iv, i + 1) == Err::<Seq<(Seq<Seq<char>>, Seq<char>)>, Seq<char>>(e));
                                lemma_entries_err(iv, i + 1, iv.len() as int, e);
                            }
                            return Err(from_chars(m.as_slice()));
                        },
                    }
                }
                i = i + 1;
            }
            proof {
                assert(iv.len() == items@.len());
            }
            return Ok(out);
        }
    }
    match doc {
        JsonValue::Object(m) => {
            proof {
                lemma_member_views(m@);
            }
            let ghost mv = member_views(m@);
            let mut i: usize = 0;
            while i < m.len()
                invariant
                    i <= m.len(),
                    *doc == JsonValue::Object(*m),
                    !has_entries(doc@),
                    doc@ == Json::Object(mv),
                    mv == member_views(m@),
                    mv.len() == m@.len(),
                    forall|j: int| 0 <= j < m@.len() ==> #[trigger] mv[j] == (m@[j].0@, json_view(m@[j].1)),
                    flat_leaves(mv, i as int) == Ok::<Seq<(Seq<Seq<char>>, Seq<char>)>, Seq<char>>(leaf_views(out@)),
                decreases m.len() - i,
            {
                let ns = &m[i].0;
                proof {
                    assert(mv[i as int] == (ns@, json_view(m@[i as int].1)));
                }
                match &m[i].1 {
                    JsonValue::Object(tokens) => {
                        proof {
                            lemma_member_views(tokens@);
                        }
                        let ghost tv = member_views(tokens@);
                        let ghost acc = leaf_views(out@);
                        proof {
                            assert(json_view(m@[i as int].1) == Json::Object(tv));
                        }
                        let mut k: usize = 0;
                        while k < tokens.len()
                            invariant
                                k <= tokens.len(),
                                i < m@.len(),
                                !has_entries(doc@),
                                doc@ == Json::Object(mv),
                                mv == member_views(m@),
                                mv.len() == m@.len(),
                                mv[i as int] == (ns@, Json::Object(tv)),
                                flat_leaves(mv, i as int) == Ok::<Seq<(Seq<Seq<char>>, Seq<char>)>, Seq<char>>(acc),
                                tv == member_views(tokens@),
                                tv.len() == tokens@.len(),
                                forall|j: int| 0 <= j < tokens@.len() ==> #[trigger] tv[j] == (tokens@[j].0@, json_view(tokens@[j].1)),
                                ns_leaves(acc, ns@, tv, k as int) == Ok::<Seq<(Seq<Seq<char>>, Seq<char>)>, Seq<char>>(leaf_views(out@)),
                            decreases tokens.len() - k,
                        {
                            let token = &tokens[k].0;
                            proof {
                                assert(tv[k as int] == (token@, json_view(tokens@[k as int].1)));
                            }
                            match flat_css_exec(&tokens[k].1) {
                                Some(css) => {
                                    let path = vec![ns.clone(), token.clone()];
                                    proof {
                                        assert(texts(path@) =~= seq![ns@, token@]);
                                    }
                                    push_leaf(&mut out, path, css);
                                },
                                None => {
                                    let mut msg = to_chars("unsupported value for `");
                                    push_str(&mut msg, ns.as_str());
                                    push_str(&mut msg, ".");
                                    push_str(&mut msg, token.as_str());
                                    push_str(&mut msg, "`");
                                    proof {
                                        assert(flat_leaves(mv, i + 1) == ns_leaves(acc, ns@, tv, tv.len() as int));
                                        lemma_ns_leaves_err(acc, ns@, tv, k as int, tv.len() as int);
                                    }
                                    let ghost e = msg@;
                                    proof {
                                        lemma_flat_leaves_err(mv, i as int + 1, mv.len() as int, e);
                                    }
                                    return Err(from_chars(msg.as_slice()));
                                },
                            }
                            k = k + 1;
                        }
                    },
                    _ => {},
                }
                i = i + 1;
            }
            Ok(out)
        },
        _ => Err(String::from_str("expected object root")),
    }
}

proof fn lemma_ns_leaves_err(
    acc: Seq<(Seq<Seq<char>>, Seq<char>)>,
    ns: Seq<char>,
    tokens: Seq<(Seq<char>, Json)>,
    k: int,
    n: int,
)
    requires
        0 <= k < n <= tokens.len(),
        ns_leaves(acc, ns, tokens, k) is Ok,
        flat_css(tokens[k].1) is None,
    ensures
        ns_leaves(acc, ns, tokens, n) == Err::<Seq<(Seq<Seq<char>>, Seq<char>)>, Seq<char>>(
            "unsupported value for `"@ + ns + "."@ + tokens[k].0 + "`"@,
        ),
    decreases n,
{
    if n > k + 1 {
        lemma_ns_leaves_err(acc, ns, tokens, k, n - 1);
    }
}

proof fn lemma_entries_err(items: Seq<Json>, i: int, n: int, e: Seq<char>)
    requires
        0 < i <= n <= items.len(),
        entries_leaves(items, i) == Err::<Seq<(Seq<Seq<char>>, Seq<char>)>, Seq<char>>(e),
    ensures
        entries_leaves(items, n) == Err::<Seq<(Seq<Seq<char>>, Seq<char>)>, Seq<char>>(e),
    decreases n,
{
    if n > i {
        lemma_entries_err(items, i, n - 1, e);
    }
}

proof fn lemma_flat_leaves_err(m: Seq<(Seq<char>, Json)>, i: int, n: int, e: Seq<char>)
    requires
        0 < i <= n <= m.len(),
        flat_leaves(m, i) == Err::<Seq<(Seq<Seq<char>>, Seq<char>)>, Seq<char>>(e),
    ensures
        flat_leaves(m, n) == Err::<Seq<(Seq<Seq<char>>, Seq<char>)>, Seq<char>>(e),
    decreases n,
{
    if n > i {
        lemma_flat_leaves_err(m, i, n - 1, e);
    }
}

/// The warning for an overlay theme file whose id is the default theme's:
/// the overlay is still applied.
pub fn overlay_collision(path: &str, id: &str, default_id: &str) -> (r: Option<crate::diagnostic::ReportedDiagnostic>)
    ensures
        match r {
            Some(d) => id@ == default_id@ && d.path@ == path@ && d.severity == crate::diagnostic::Severity::Warning
                && d.message@ == "theme id `"@ + id@ + "` collides with default theme id; overlay still applied"@,
            None => id@ != default_id@,
        },
{
    let a = to_chars(id);
    let b = to_chars(default_id);
    if crate::text::chars_eq(a.as_slice(), b.as_slice()) {
        let mut m = to_chars("theme id `");
        push_str(&mut m, id);
        push_str(&mut m, "` collides with default theme id; overlay still applied");
        Some(crate::diagnostic::ReportedDiagnostic::warning(String::from_str(path), from_chars(m.as_slice())))
    } else {
        None
    }
}

/// The theme leaves of a token file's text: a text that is no JSON fails
/// with `json: ` and the parser's message.
pub fn token_leaves_from_text(text: &str) -> (r: Result<Vec<StyleTokenLeaf>, String>)
    ensures
        match crate::json::json_of_text(text@) {
            None => r is Err && r->Err_0@ == "json: "@ + crate::json::json_error_of(text@),
            Some(doc) => match r {
                Ok(v) => token_doc_leaves(doc) == Ok::<Seq<(Seq<Seq<char>>, Seq<char>)>, Seq<char>>(leaf_views(v@)),
                Err(e) => token_doc_leaves(doc) == Err::<Seq<(Seq<Seq<char>>, Seq<char>)>, Seq<char>>(e@),
            },
        },
{
    match crate::json::parse_json_text(text) {
        Ok(doc) => token_leaves(&doc),
        Err(e) => {
            let mut m = to_chars("json: ");
            push_str(&mut m, e.as_str());
            Err(from_chars(m.as_slice()))
        },
    }
}

/// What `designs/theme.json` says: the default theme id, the activation
/// attribute, the scheme preferences and the diagnostics about it.
#[derive(Debug, Clone)]
pub struct ThemeMeta {
    pub default_id: String,
    pub activation_attr: String,
    pub prefers: Vec<(String, String)>,
    pub diagnostics: Vec<crate::diagnostic::ReportedDiagnostic>,
}

/// A diagnostic as plain values.
pub open spec fn reported_view(d: crate::diagnostic::ReportedDiagnostic) -> (Seq<char>, crate::diagnostic::Severity, Seq<char>) {
    (d.path@, d.severity, d.message@)
}

/// The scheme preferences among the first `n` members of
/// `prefersColorScheme` (string targets), and a warning at `path` for each
/// other one.
pub open spec fn scheme_prefs(path: Seq<char>, m: Seq<(Seq<char>, Json)>, n: int) -> (
    Seq<(Seq<char>, Seq<char>)>,
    Seq<(Seq<char>, crate::diagnostic::Severity, Seq<char>)>,
)
    decreases n,
{
    if n <= 0 {
        (Seq::empty(), Seq::empty())
    } else {
        let p = scheme_prefs(path, m, n - 1);
        match m[n - 1].1 {
            Json::Str(t) => (p.0.push((m[n - 1].0, t)), p.1),
            _ => (
                p.0,
                p.1.push(
                    (
                        path,
                        crate::diagnostic::Severity::Warning,
                        "prefersColorScheme."@ + m[n - 1].0 + " must be a theme id string"@,
                    ),
                ),
            ),
        }
    }
}

/// What a parsed `theme.json` (or `None` for a text that is no JSON) gives:
/// `default` and `activationAttr` when they are strings, else the defaults;
/// the string members of the `prefersColorScheme` object; an error for a
/// text that is no JSON.
pub open spec fn theme_meta_of(path: Seq<char>, doc: Option<Json>) -> (
    Seq<char>,
    Seq<char>,
    Seq<(Seq<char>, Seq<char>)>,
    Seq<(Seq<char>, crate::diagnostic::Severity, Seq<char>)>,
) {
    match doc {
        None => (
            crate::designs::DEFAULT_THEME_ID@,
            crate::designs::DEFAULT_ACTIVATION_ATTR@,
            Seq::empty(),
            seq![(path, crate::diagnostic::Severity::Error, "invalid theme.json"@)],
        ),
        Some(v) => {
            let prefs = match member(v, "prefersColorScheme"@) {
                Some(Json::Object(m)) => scheme_prefs(path, m, m.len() as int),
                _ => (Seq::empty(), Seq::empty()),
            };
            (
                crate::json::str_field(v, "default"@, crate::designs::DEFAULT_THEME_ID@),
                crate::json::str_field(v, "activationAttr"@, crate::designs::DEFAULT_ACTIVATION_ATTR@),
                prefs.0,
                prefs.1,
            )
        },
    }
}

/// A theme meta as plain values.
pub open spec fn theme_meta_view(t: ThemeMeta) -> (
    Seq<char>,
    Seq<char>,
    Seq<(Seq<char>, Seq<char>)>,
    Seq<(Seq<char>, crate::diagnostic::Severity, Seq<char>)>,
) {
    (
        t.default_id@,
        t.activation_attr@,
        t.prefers@.map_values(|p: (String, String)| (p.0@, p.1@)),
        t.diagnostics@.map_values(|d: crate::diagnostic::ReportedDiagnostic| reported_view(d)),
    )
}

fn str_member_or(v: &JsonValue, k: &str, default: &str) -> (r: String)
    ensures
        r@ == crate::json::str_field(v@, k@, default@),
{
    match v.get(k) {
        Some(JsonValue::Str(s)) => s.clone(),
        _ => String::from_str(default),
    }
}

/// What the text of `designs/theme.json` at `path` says.
pub fn theme_meta_from_text(path: &str, text: &str) -> (r: ThemeMeta)
    ensures
        theme_meta_view(r) == theme_meta_of(path@, crate::json::json_of_text(text@)),
{
    let mut diagnostics: Vec<crate::diagnostic::ReportedDiagnostic> = Vec::new();
    let mut prefers: Vec<(String, String)> = Vec::new();
    let doc = match crate::json::parse_json_text(text) {
        Ok(d) => d,
        Err(_) => {
            diagnostics.push(crate::diagnostic::ReportedDiagnostic::error(String::from_str(path), String::from_str("invalid theme.json")));
            let r = ThemeMeta {
                default_id: String::from_str(crate::designs::DEFAULT_THEME_ID),
                activation_attr: String::from_str(crate::designs::DEFAULT_ACTIVATION_ATTR),
                prefers,
                diagnostics,
            };
            proof {
                assert(theme_meta_view(r).2 =~= Seq::<(Seq<char>, Seq<char>)>::empty());
                assert(theme_meta_view(r).3 =~= seq![(path@, crate::diagnostic::Severity::Error, "invalid theme.json"@)]);
            }
            return r;
        },
    };
    let default_id = str_member_or(&doc, "default", crate::designs::DEFAULT_THEME_ID);
    let activation_attr = str_member_or(&doc, "activationAttr", crate::designs::DEFAULT_ACTIVATION_ATTR);
    match doc.get("prefersColorScheme") {
        Some(JsonValue::Object(m)) => {
            proof {
                lemma_member_views(m@);
            }
            let ghost mv = member_views(m@);
            let mut i: usize = 0;
            while i < m.len()
                invariant
                    i <= m.len(),
                    mv == member_views(m@),
                    mv.len() == m@.len(),
                    forall|j: int| 0 <= j < m@.len() ==> #[trigger] mv[j] == (m@[j].0@, json_view(m@[j].1)),
                    prefers@.map_values(|p: (String, String)| (p.0@, p.1@)) == scheme_prefs(path@, mv, i as int).0,
                    diagnostics@.map_values(|d: crate::diagnostic::ReportedDiagnostic| reported_view(d)) == scheme_prefs(path@, mv, i as int).1,
                decreases m.len() - i,
            {
                proof {
                    assert(mv[i as int] == (m@[i as int].0@, json_view(m@[i as int].1)));
                }
                let ghost pb = prefers@;
                let ghost db = diagnostics@;
                match &m[i].1 {
                    JsonValue::Str(t) => {
                        prefers.push((m[i].0.clone(), t.clone()));
                        proof {
                            assert(prefers@.map_values(|p: (String, String)| (p.0@, p.1@)) =~= pb.map_values(
                                |p: (String, String)| (p.0@, p.1@),
                            ).push((m@[i as int].0@, t@)));
                        }
                    },
                    _ => {
                        let mut msg = to_chars("prefersColorScheme.");
                        push_str(&mut msg, m[i].0.as_str());
                        push_str(&mut msg, " must be a theme id string");
                        let d = crate::diagnostic::ReportedDiagnostic::warning(String::from_str(path), from_chars(msg.as_slice()));
                        diagnostics.push(d);
                        proof {
                            assert(diagnostics@.map_values(|d: crate::diagnostic::ReportedDiagnostic| reported_view(d)) =~= db.map_values(
                                |d: crate::diagnostic::ReportedDiagnostic| reported_view(d),
                            ).push(reported_view(d)));
                        }
                    },
                }
                i = i + 1;
            }
        },
        _ => {
            proof {
                assert(prefers@.map_values(|p: (String, String)| (p.0@, p.1@)) =~= Seq::<(Seq<char>, Seq<char>)>::empty());
                assert(diagnostics@.map_values(|d: crate::diagnostic::ReportedDiagnostic| reported_view(d)) =~= Seq::<
                    (Seq<char>, crate::diagnostic::Severity, Seq<char>),
                >::empty());
            }
        },
    }
    ThemeMeta { default_id, activation_attr, prefers, diagnostics }
}

} // verus!
