//! The units of a `vmz-deployment.json` text as the deployment checks read
//! them: objects with a string `chunkId`, their kind, dependencies,
//! capabilities, server module, client calls and resume entries.

use vstd::prelude::*;
use crate::dx_x4::{opt_view, DepUnit};
use crate::json::{json_of_text, json_view, json_views, lemma_json_views, member, parse_json_text, str_field, Json, JsonValue};
use crate::order::texts;
use crate::token_file::strings_of;

verus! {

/// A unit as plain values: chunk id, kind, dependencies, capabilities,
/// server module, client call methods, resume entries (component, strategy).
pub open spec fn dep_unit_view(u: DepUnit) -> (
    Seq<char>,
    Seq<char>,
    Seq<Seq<char>>,
    Seq<Seq<char>>,
    Option<Seq<char>>,
    Seq<Seq<char>>,
    Seq<(Seq<char>, Seq<char>)>,
) {
    (
        u.chunk_id@,
        u.kind@,
        texts(u.depends_on@),
        texts(u.capabilities@),
        opt_view(u.server_module_id),
        texts(u.client_calls@),
        u.resume_entries@.map_values(|p: (String, String)| (p.0@, p.1@)),
    )
}

/// Optional units as plain values.
pub open spec fn opt_units_view(r: Option<Vec<DepUnit>>) -> Option<
    Seq<(Seq<char>, Seq<char>, Seq<Seq<char>>, Seq<Seq<char>>, Option<Seq<char>>, Seq<Seq<char>>, Seq<(Seq<char>, Seq<char>)>)>,
> {
    match r {
        Some(v) => Some(v@.map_values(|u: DepUnit| dep_unit_view(u))),
        None => None,
    }
}

/// The strings of an array member (none for another value).
pub open spec fn string_items(v: Option<Json>) -> Seq<Seq<char>> {
    match v {
        Some(Json::Array(a)) => strings_of(a),
        _ => Seq::empty(),
    }
}

/// The `method` strings of the first `n` client calls.
pub open spec fn method_items(a: Seq<Json>, n: int) -> Seq<Seq<char>>
    decreases n,
{
    if n <= 0 {
        Seq::empty()
    } else {
        let p = method_items(a, n - 1);
        match member(a[n - 1], "method"@) {
            Some(Json::Str(s)) => p.push(s),
            _ => p,
        }
    }
}

/// The (component, strategy) pairs of the first `n` resume entries that
/// have both as strings.
pub open spec fn resume_items(a: Seq<Json>, n: int) -> Seq<(Seq<char>, Seq<char>)>
    decreases n,
{
    if n <= 0 {
        Seq::empty()
    } else {
        let p = resume_items(a, n - 1);
        match (member(a[n - 1], "component"@), member(a[n - 1], "strategy"@)) {
            (Some(Json::Str(c)), Some(Json::Str(s))) => p.push((c, s)),
            _ => p,
        }
    }
}

/// The unit an item describes: an object with a string `chunkId`.
pub open spec fn unit_of(item: Json) -> Option<
    (Seq<char>, Seq<char>, Seq<Seq<char>>, Seq<Seq<char>>, Option<Seq<char>>, Seq<Seq<char>>, Seq<(Seq<char>, Seq<char>)>),
> {
    match item {
        Json::Object(_) => match member(item, "chunkId"@) {
            Some(Json::Str(c)) => Some(
                (
                    c,
                    str_field(item, "kind"@, Seq::empty()),
                    string_items(member(item, "dependsOn"@)),
                    string_items(member(item, "capabilities"@)),
                    match member(item, "serverModuleId"@) {
                        Some(Json::Str(s)) => Some(s),
                        _ => None,
                    },
                    match member(item, "clientCalls"@) {
                        Some(Json::Array(a)) => method_items(a, a.len() as int),
                        _ => Seq::empty(),
                    },
                    match member(item, "resumeEntries"@) {
                        Some(Json::Array(a)) => resume_items(a, a.len() as int),
                        _ => Seq::empty(),
                    },
                ),
            ),
            _ => None,
        },
        _ => None,
    }
}

/// The units of the first `n` items.
pub open spec fn units_of_items(items: Seq<Json>, n: int) -> Seq<
    (Seq<char>, Seq<char>, Seq<Seq<char>>, Seq<Seq<char>>, Option<Seq<char>>, Seq<Seq<char>>, Seq<(Seq<char>, Seq<char>)>),
>
    decreases n,
{
    if n <= 0 {
        Seq::empty()
    } else {
        match unit_of(items[n - 1]) {
            Some(u) => units_of_items(items, n - 1).push(u),
            None => units_of_items(items, n - 1),
        }
    }
}

/// The units of a parsed deployment document: `None` without one, or when
/// its `units` is no array.
pub open spec fn units_of_doc(doc: Option<Json>) -> Option<
    Seq<(Seq<char>, Seq<char>, Seq<Seq<char>>, Seq<Seq<char>>, Option<Seq<char>>, Seq<Seq<char>>, Seq<(Seq<char>, Seq<char>)>)>,
> {
    match doc {
        Some(v) => match member(v, "units"@) {
            Some(Json::Array(items)) => Some(units_of_items(items, items.len() as int)),
            _ => None,
        },
        None => None,
    }
}

pub(crate) fn string_items_exec(v: Option<&JsonValue>) -> (r: Vec<String>)
    ensures
        texts(r@) == string_items(
            match v {
                Some(x) => Some(x@),
                None => None,
            },
        ),
{
    let mut out: Vec<String> = Vec::new();
    match v {
        Some(JsonValue::Array(a)) => {
            proof {
                lemma_json_views(a@);
            }
            let ghost av = json_views(a@);
            let mut i: usize = 0;
            while i < a.len()
                invariant
                    i <= a.len(),
                    av == json_views(a@),
                    av.len() == a@.len(),
                    forall|j: int| 0 <= j < a@.len() ==> #[trigger] av[j] == json_view(a@[j]),
                    texts(out@) == strings_of(av.take(i as int)),
                decreases a.len() - i,
            {
                proof {
                    assert(av.take(i + 1).drop_last() =~= av.take(i as int));
                    assert(av[i as int] == a@[i as int]@);
                }
                match &a[i] {
                    JsonValue::Str(s) => {
                        let ghost before = out@;
                        out.push(s.clone());
                        proof {
                            assert(texts(out@) =~= texts(before).push(s@));
                        }
                    },
                    _ => {},
                }
                i = i + 1;
            }
            proof {
                assert(av.take(av.len() as int) =~= av);
            }
        },
        _ => {},
    }
    out
}

fn method_items_exec(a: &Vec<JsonValue>) -> (r: Vec<String>)
    ensures
        texts(r@) == method_items(json_views(a@), a@.len() as int),
{
    proof {
        lemma_json_views(a@);
    }
    let ghost av = json_views(a@);
    let mut out: Vec<String> = Vec::new();
    let mut i: usize = 0;
    while i < a.len()
        invariant
            i <= a.len(),
            av == json_views(a@),
            av.len() == a@.len(),
            forall|j: int| 0 <= j < a@.len() ==> #[trigger] av[j] == json_view(a@[j]),
            texts(out@) == method_items(av, i as int),
        decreases a.len() - i,
    {
        proof {
            assert(av[i as int] == a@[i as int]@);
        }
        match a[i].get("method") {
            Some(JsonValue::Str(s)) => {
                let ghost before = out@;
                out.push(s.clone());
                proof {
                    assert(texts(out@) =~= texts(before).push(s@));
                }
            },
            _ => {},
        }
        i = i + 1;
    }
    out
}

fn resume_items_exec(a: &Vec<JsonValue>) -> (r: Vec<(String, String)>)
    ensures
        r@.map_values(|p: (String, String)| (p.0@, p.1@)) == resume_items(json_views(a@), a@.len() as int),
{
    proof {
        lemma_json_views(a@);
    }
    let ghost av = json_views(a@);
    let mut out: Vec<(String, String)> = Vec::new();
    let mut i: usize = 0;
    while i < a.len()
        invariant
            i <= a.len(),
            av == json_views(a@),
            av.len() == a@.len(),
            forall|j: int| 0 <= j < a@.len() ==> #[trigger] av[j] == json_view(a@[j]),
            out@.map_values(|p: (String, String)| (p.0@, p.1@)) == resume_items(av, i as int),
        decreases a.len() - i,
    {
        proof {
            assert(av[i as int] == a@[i as int]@);
        }
        match (a[i].get("component"), a[i].get("strategy")) {
            (Some(JsonValue::Str(c)), Some(JsonValue::Str(s))) => {
                let ghost before = out@;
                out.push((c.clone(), s.clone()));
                proof {
                    assert(out@.map_values(|p: (String, String)| (p.0@, p.1@)) =~= before.map_values(
                        |p: (String, String)| (p.0@, p.1@),
                    ).push((c@, s@)));
                }
            },
            _ => {},
        }
        i = i + 1;
    }
    out
}

fn unit_from_item(item: &JsonValue) -> (r: Option<DepUnit>)
    ensures
        match r {
            Some(u) => unit_of(item@) == Some(dep_unit_view(u)),
            None => unit_of(item@) is None,
        },
{
    match item {
        JsonValue::Object(_) => {},
        _ => {
            return None;
        },
    }
    let chunk_id = match item.get("chunkId") {
        Some(JsonValue::Str(c)) => c.clone(),
        _ => {
            return None;
        },
    };
    let kind = match item.get("kind") {
        Some(JsonValue::Str(k)) => k.clone(),
        _ => String::new(),
    };
    let server_module_id = match item.get("serverModuleId") {
        Some(JsonValue::Str(s)) => Some(s.clone()),
        _ => None,
    };
    let client_calls = match item.get("clientCalls") {
        Some(JsonValue::Array(a)) => {
            proof {
                lemma_json_views(a@);
            }
            method_items_exec(a)
        },
        _ => Vec::new(),
    };
    proof {
        assert(texts(client_calls@) == (match member(item@, "clientCalls"@) {
            Some(Json::Array(a)) => method_items(a, a.len() as int),
            _ => Seq::empty(),
        }));
    }
    let resume_entries = match item.get("resumeEntries") {
        Some(JsonValue::Array(a)) => {
            proof {
                lemma_json_views(a@);
            }
            resume_items_exec(a)
        },
        _ => Vec::new(),
    };
    proof {
        assert(resume_entries@.map_values(|p: (String, String)| (p.0@, p.1@)) == (match member(item@, "resumeEntries"@) {
            Some(Json::Array(a)) => resume_items(a, a.len() as int),
            _ => Seq::empty(),
        }));
    }
    let u = DepUnit {
        chunk_id,
        kind,
        depends_on: string_items_exec(item.get("dependsOn")),
        capabilities: string_items_exec(item.get("capabilities")),
        server_module_id,
        client_calls,
        resume_entries,
    };
    proof {
        assert(dep_unit_view(u) == unit_of(item@)->0);
    }
    Some(u)
}

/// The units of a `vmz-deployment.json` text; `None` when the text is no
/// JSON or its `units` is no array.
pub fn deployment_units_from_text(text: &str) -> (r: Option<Vec<DepUnit>>)
    ensures
        opt_units_view(r) == units_of_doc(json_of_text(text@)),
{
    let doc = match parse_json_text(text) {
        Ok(d) => d,
        Err(_) => {
            return None;
        },
    };
    let items = match doc.get("units") {
        Some(JsonValue::Array(a)) => a,
        _ => {
            return None;
        },
    };
    proof {
        lemma_json_views(items@);
    }
    let ghost iv = json_views(items@);
    let mut out: Vec<DepUnit> = Vec::new();
    let mut i: usize = 0;
    while i < items.len()
        invariant
            i <= items.len(),
            iv == json_views(items@),
            iv.len() == items@.len(),
            forall|j: int| 0 <= j < items@.len() ==> #[trigger] iv[j] == json_view(items@[j]),
            out@.map_values(|u: DepUnit| dep_unit_view(u)) == units_of_items(iv, i as int),
        decreases items.len() - i,
    {
        proof {
            assert(iv[i as int] == items@[i as int]@);
        }
        match unit_from_item(&items[i]) {
            Some(u) => {
                let ghost before = out@;
                out.push(u);
                proof {
                    assert(out@.map_values(|x: DepUnit| dep_unit_view(x)) =~= before.map_values(|x: DepUnit| dep_unit_view(x)).push(
                        dep_unit_view(u),
                    ));
                }
            },
            None => {},
        }
        i = i + 1;
    }
    Some(out)
}

} // verus!
