//! Test selection from graph -> test edges: the tests and manifests whose
//! program chunk meets an affected chunk (or every one for a full rebuild).

use vstd::prelude::*;
use crate::order::{insert_sorted_unique, strictly_sorted, texts};
use crate::text::{contains, contains_seq, from_chars, push_all, push_str, to_chars};
use crate::wechat_pack::{decimal, decimal_exec};

verus! {

/// A test edge as plain values: (chunk id, test id, manifest path).
pub open spec fn edge_view(e: (String, String, String)) -> (Seq<char>, Seq<char>, Seq<char>) {
    (e.0@, e.1@, e.2@)
}

/// Edge `chunk` is selected: a full rebuild, or an affected chunk equal to
/// it, inside it, or holding it.
pub open spec fn edge_hit(chunk: Seq<char>, affected: Seq<Seq<char>>, full: bool) -> bool {
    ||| full
    ||| affected.contains(chunk)
    ||| exists|k: int| 0 <= k < affected.len() && (contains_seq(chunk, #[trigger] affected[k]) || contains_seq(affected[k], chunk))
}

/// The test ids of the selected edges.
pub open spec fn selected_tests(edges: Seq<(String, String, String)>, affected: Seq<Seq<char>>, full: bool) -> Set<Seq<char>> {
    Set::new(|t: Seq<char>| exists|i: int| 0 <= i < edges.len() && #[trigger] edges[i].1@ == t && edge_hit(edges[i].0@, affected, full))
}

/// The manifest paths of the selected edges.
pub open spec fn selected_manifests(edges: Seq<(String, String, String)>, affected: Seq<Seq<char>>, full: bool) -> Set<Seq<char>> {
    Set::new(|m: Seq<char>| exists|i: int| 0 <= i < edges.len() && #[trigger] edges[i].2@ == m && edge_hit(edges[i].0@, affected, full))
}

/// The reason text of a selection.
pub open spec fn selection_reason(n_tests: nat, n_edges: nat, n_affected: nat, full: bool) -> Seq<char> {
    if n_affected == 0 && full {
        "full rebuild — all graph→test edges selected"@
    } else if n_tests == 0 {
        "graph→test edges indexed; no manifests matched affected chunks"@
    } else {
        "graph→test edges: "@ + decimal(n_tests) + " test(s) selected from "@ + decimal(n_edges) + " edge(s) for "@
            + decimal(n_affected) + " affected chunk(s)"@
    }
}

/// A test selection.
#[derive(Debug, Clone)]
pub struct TestSelection {
    pub reason: String,
    pub test_ids: Vec<String>,
    pub affected_chunk_ids: Vec<String>,
    pub manifest_files: Vec<String>,
    /// `ready` | `preview`
    pub status: String,
}

fn hit_exec(chunk: &String, affected: &[String], full: bool) -> (r: bool)
    ensures
        r == edge_hit(chunk@, texts(affected@), full),
{
    if full {
        return true;
    }
    let c = to_chars(chunk.as_str());
    let ghost ta = texts(affected@);
    let mut k: usize = 0;
    while k < affected.len()
        invariant
            k <= affected.len(),
            ta == texts(affected@),
            c@ == chunk@,
            forall|q: int| 0 <= q < k ==> ta[q] != chunk@ && !contains_seq(chunk@, #[trigger] ta[q]) && !contains_seq(ta[q], chunk@),
        decreases affected.len() - k,
    {
        let a = to_chars(affected[k].as_str());
        proof {
            assert(ta[k as int] == a@);
        }
        if contains(c.as_slice(), a.as_slice()) || contains(a.as_slice(), c.as_slice()) {
            return true;
        }
        proof {
            if a@ == c@ {
                assert(crate::text::occurs_at(c@, a@, 0)) by {
                    assert(c@.subrange(0, a@.len() as int) =~= c@);
                }
            }
        }
        k = k + 1;
    }
    proof {
        assert(!ta.contains(chunk@)) by {
            if ta.contains(chunk@) {
                let q = choose|q: int| 0 <= q < ta.len() && ta[q] == chunk@;
                assert(ta[q] != chunk@);
            }
        }
    }
    false
}

/// Select the tests and manifests of the edges `(chunk id, test id,
/// manifest path)` whose chunk meets an affected chunk, or of every edge for
/// a full rebuild; `None` when nothing is affected and the rebuild is not
/// full. Test ids and manifests come sorted, each once.
pub fn select_tests(edges: &[(String, String, String)], affected: &[String], full: bool) -> (r: Option<TestSelection>)
    requires
        edges.len() <= u64::MAX,
        affected.len() <= u64::MAX,
    ensures
        match r {
            None => affected.len() == 0 && !full,
            Some(d) => {
                &&& !(affected.len() == 0 && !full)
                &&& strictly_sorted(texts(d.test_ids@))
                &&& texts(d.test_ids@).to_set() == selected_tests(edges@, texts(affected@), full)
                &&& strictly_sorted(texts(d.manifest_files@))
                &&& texts(d.manifest_files@).to_set() == selected_manifests(edges@, texts(affected@), full)
                &&& texts(d.affected_chunk_ids@) == texts(affected@)
                &&& d.reason@ == selection_reason(d.test_ids@.len(), edges@.len(), affected@.len(), full)
                &&& d.status@ == if d.test_ids@.len() == 0 && !full {
                    "preview"@
                } else {
                    "ready"@
                }
            },
        },
{
    if affected.len() == 0 && !full {
        return None;
    }
    let ghost ta = texts(affected@);
    let mut tests: Vec<String> = Vec::new();
    let mut manifests: Vec<String> = Vec::new();
    let mut i: usize = 0;
    while i < edges.len()
        invariant
            i <= edges.len(),
            ta == texts(affected@),
            strictly_sorted(texts(tests@)),
            strictly_sorted(texts(manifests@)),
            texts(tests@).to_set() == selected_tests(edges@.take(i as int), ta, full),
            texts(manifests@).to_set() == selected_manifests(edges@.take(i as int), ta, full),
        decreases edges.len() - i,
    {
        let e = &edges[i];
        let hit = hit_exec(&e.0, affected, full);
        let ghost pre_t = texts(tests@).to_set();
        let ghost pre_m = texts(manifests@).to_set();
        let ghost es = edges@.take(i + 1);
        proof {
            assert(edges@.take(i + 1)[i as int] == *e);
        }
        if hit {
            insert_sorted_unique(&mut tests, e.1.clone());
            insert_sorted_unique(&mut manifests, e.2.clone());
        }
        proof {
            let old_es = edges@.take(i as int);
            assert forall|t: Seq<char>| #[trigger] selected_tests(es, ta, full).contains(t) <==> (
                if hit { pre_t.insert(e.1@) } else { pre_t }).contains(t) by {
                if selected_tests(es, ta, full).contains(t) {
                    let k = choose|k: int| 0 <= k < es.len() && #[trigger] es[k].1@ == t && edge_hit(es[k].0@, ta, full);
                    if k < i {
                        assert(old_es[k] == es[k]);
                        assert(selected_tests(old_es, ta, full).contains(t));
                    }
                }
                if pre_t.contains(t) {
                    let k = choose|k: int| 0 <= k < old_es.len() && #[trigger] old_es[k].1@ == t && edge_hit(old_es[k].0@, ta, full);
                    assert(es[k] == old_es[k]);
                }
                if hit && t == e.1@ {
                    assert(es[i as int].1@ == t);
                }
            }
            assert forall|m: Seq<char>| #[trigger] selected_manifests(es, ta, full).contains(m) <==> (
                if hit { pre_m.insert(e.2@) } else { pre_m }).contains(m) by {
                if selected_manifests(es, ta, full).contains(m) {
                    let k = choose|k: int| 0 <= k < es.len() && #[trigger] es[k].2@ == m && edge_hit(es[k].0@, ta, full);
                    if k < i {
                        assert(old_es[k] == es[k]);
                        assert(selected_manifests(old_es, ta, full).contains(m));
                    }
                }
                if pre_m.contains(m) {
                    let k = choose|k: int| 0 <= k < old_es.len() && #[trigger] old_es[k].2@ == m && edge_hit(old_es[k].0@, ta, full);
                    assert(es[k] == old_es[k]);
                }
                if hit && m == e.2@ {
                    assert(es[i as int].2@ == m);
                }
            }
            assert(selected_tests(es, ta, full) =~= texts(tests@).to_set());
            assert(selected_manifests(es, ta, full) =~= texts(manifests@).to_set());
        }
        i = i + 1;
    }
    proof {
        assert(edges@.take(edges@.len() as int) =~= edges@);
    }
    let reason = if affected.len() == 0 && full {
        String::from_str("full rebuild — all graph→test edges selected")
    } else if tests.len() == 0 {
        String::from_str("graph→test edges indexed; no manifests matched affected chunks")
    } else {
        let mut m = to_chars("graph→test edges: ");
        let a = decimal_exec(tests.len() as u64);
        push_all(&mut m, a.as_slice());
        push_str(&mut m, " test(s) selected from ");
        let b = decimal_exec(edges.len() as u64);
        push_all(&mut m, b.as_slice());
        push_str(&mut m, " edge(s) for ");
        let c = decimal_exec(affected.len() as u64);
        push_all(&mut m, c.as_slice());
        push_str(&mut m, " affected chunk(s)");
        from_chars(m.as_slice())
    };
    let status = if tests.len() == 0 && !full {
        String::from_str("preview")
    } else {
        String::from_str("ready")
    };
    let copied = crate::designs::clone_strings(affected);
    Some(TestSelection { reason, test_ids: tests, affected_chunk_ids: copied, manifest_files: manifests, status })
}

/// The edge a parsed test manifest gives: its `id` (else the file name),
/// its `program.chunkId`, and its path; none without a chunk id.
pub open spec fn test_edge_of(name: Seq<char>, rel: Seq<char>, doc: Option<crate::json::Json>) -> Option<
    (Seq<char>, Seq<char>, Seq<char>),
> {
    match doc {
        Some(v) => {
            let id = crate::json::str_field(v, "id"@, name);
            let chunk = match crate::json::member(v, "program"@) {
                Some(p) => crate::json::str_field(p, "chunkId"@, Seq::empty()),
                None => Seq::empty(),
            };
            if chunk.len() == 0 {
                None
            } else {
                Some((chunk, id, rel))
            }
        },
        None => None,
    }
}

/// The edge `(chunk id, test id, manifest path)` of a test manifest text
/// named `name` at `rel`; none when it is no JSON or names no chunk.
pub fn test_edge_from_text(name: &str, rel: &str, text: &str) -> (r: Option<(String, String, String)>)
    ensures
        match r {
            Some(e) => test_edge_of(name@, rel@, crate::json::json_of_text(text@)) == Some(edge_view(e)),
            None => test_edge_of(name@, rel@, crate::json::json_of_text(text@)) is None,
        },
{
    let doc = match crate::json::parse_json_text(text) {
        Ok(d) => d,
        Err(_) => {
            return None;
        },
    };
    let id = match doc.get("id") {
        Some(crate::json::JsonValue::Str(s)) => s.clone(),
        _ => String::from_str(name),
    };
    let chunk = match doc.get("program") {
        Some(p) => match p.get("chunkId") {
            Some(crate::json::JsonValue::Str(s)) => s.clone(),
            _ => String::new(),
        },
        None => String::new(),
    };
    let c = to_chars(chunk.as_str());
    if c.len() == 0 {
        None
    } else {
        Some((chunk, id, String::from_str(rel)))
    }
}

} // verus!
