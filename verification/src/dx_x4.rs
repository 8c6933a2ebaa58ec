//! Deployment schema proofs over the units of a deployment: boundary
//! validators (route / resume / rpc / action), client/server leakage,
//! capability targets and the dead graph (chunks no page or app reaches).

use vstd::prelude::*;
use crate::dep_graph::{closed_under_edges, edge_closure, lemma_closed_same_texts, same_edge_texts, seed_set};
use crate::designs::clone_strings;
use crate::order::{insert_sorted_unique, lemma_ins_sorted_at, lemma_stable_sort_push, lex_lt, stable_sort, strictly_sorted, text_order, texts, texts_contain};
use crate::text::{chars_eq, from_chars, push_str, to_chars};

verus! {

pub const BOUNDARY_VALIDATOR_SCHEMA: &'static str = "vmz.dx.boundary_validator.v0";
pub const LEAKAGE_SCHEMA: &'static str = "vmz.dx.leakage.v0";
pub const CAPABILITY_TARGET_SCHEMA: &'static str = "vmz.dx.capability_target.v0";
pub const DEAD_GRAPH_SCHEMA: &'static str = "vmz.dx.dead_graph.v0";
pub const X4_CHECK_SCHEMA: &'static str = "vmz.dx.x4_check.v0";

/// One deployment unit as the proofs read it.
#[derive(Debug, Clone)]
pub struct DepUnit {
    pub chunk_id: String,
    pub kind: String,
    pub depends_on: Vec<String>,
    pub capabilities: Vec<String>,
    pub server_module_id: Option<String>,
    pub client_calls: Vec<String>,
    /// (component, strategy)
    pub resume_entries: Vec<(String, String)>,
}

/// One boundary validator.
#[derive(Debug, Clone)]
pub struct BoundaryValidatorEntry {
    /// `route` | `resume` | `rpc` | `action`
    pub kind: String,
    pub id: String,
    pub chunk_id: String,
    pub detail: Option<String>,
}

/// The boundary validators of a deployment.
#[derive(Debug, Clone)]
pub struct BoundaryValidatorDocument {
    pub schema: String,
    pub validators: Vec<BoundaryValidatorEntry>,
    /// `ready` | `empty`
    pub status: String,
}

/// The view of a validator: (kind, id, chunk id, detail).
pub open spec fn validator_view(v: BoundaryValidatorEntry) -> (Seq<char>, Seq<char>, Seq<char>, Option<Seq<char>>) {
    (v.kind@, v.id@, v.chunk_id@, match v.detail {
        Some(d) => Some(d@),
        None => None,
    })
}

/// `a:b`
pub open spec fn colon(a: Seq<char>, b: Seq<char>) -> Seq<char> {
    a + seq![':'] + b
}

/// The validators of one unit, in order: its route (pages), resume
/// entries, rpc calls and actions.
pub open spec fn unit_validators(u: DepUnit) -> Seq<(Seq<char>, Seq<char>, Seq<char>, Option<Seq<char>>)> {
    let c = u.chunk_id@;
    (if u.kind@ == "page"@ {
        seq![("route"@, c, c, Some("page"@))]
    } else {
        Seq::empty()
    }) + u.resume_entries@.map_values(
        |r: (String, String)| ("resume"@, colon(c, r.0@), c, Some(r.1@)),
    ) + u.client_calls@.map_values(|m: String| ("rpc"@, colon(c, m@), c, Some(m@))) + u.capabilities@.map_values(
        |a: String| ("action"@, colon(c, a@), c, Some(a@)),
    )
}

/// The validators of all units, in unit order.
pub open spec fn all_validators(units: Seq<DepUnit>) -> Seq<(Seq<char>, Seq<char>, Seq<char>, Option<Seq<char>>)>
    decreases units.len(),
{
    if units.len() == 0 {
        Seq::empty()
    } else {
        all_validators(units.drop_last()) + unit_validators(units.last())
    }
}

/// Two texts in order: first by `a`, then by `b`.
pub open spec fn pair_lt(a1: Seq<char>, a2: Seq<char>, b1: Seq<char>, b2: Seq<char>) -> bool {
    lex_lt(a1, b1) || (a1 == b1 && lex_lt(a2, b2))
}

/// Validators ordered by (kind, id).
pub open spec fn validator_lt() -> spec_fn(
    (Seq<char>, Seq<char>, Seq<char>, Option<Seq<char>>),
    (Seq<char>, Seq<char>, Seq<char>, Option<Seq<char>>),
) -> bool {
    |x: (Seq<char>, Seq<char>, Seq<char>, Option<Seq<char>>), y: (Seq<char>, Seq<char>, Seq<char>, Option<Seq<char>>)|
        pair_lt(x.0, x.1, y.0, y.1)
}

fn pair_lt_exec(a1: &String, a2: &String, b1: &String, b2: &String) -> (r: bool)
    ensures
        r == pair_lt(a1@, a2@, b1@, b2@),
{
    let x1 = to_chars(a1.as_str());
    let y1 = to_chars(b1.as_str());
    let c = crate::order::lex_order(x1.as_slice(), y1.as_slice());
    if c < 0 {
        return true;
    }
    if c > 0 {
        proof {
            crate::order::lemma_lex_asym(b1@, a1@);
        }
        return false;
    }
    let x2 = to_chars(a2.as_str());
    let y2 = to_chars(b2.as_str());
    crate::order::lex_order(x2.as_slice(), y2.as_slice()) < 0
}

fn colon_exec(a: &String, b: &String) -> (r: String)
    ensures
        r@ == colon(a@, b@),
{
    let mut v = to_chars(a.as_str());
    v.push(':');
    push_str(&mut v, b.as_str());
    from_chars(v.as_slice())
}

fn insert_validator(out: &mut Vec<BoundaryValidatorEntry>, e: BoundaryValidatorEntry)
    ensures
        final(out)@.map_values(|v: BoundaryValidatorEntry| validator_view(v)) == crate::order::ins_sorted(
            old(out)@.map_values(|v: BoundaryValidatorEntry| validator_view(v)),
            validator_view(e),
            validator_lt(),
        ),
{
    let ghost t = out@.map_values(|v: BoundaryValidatorEntry| validator_view(v));
    let mut p: usize = 0;
    while p < out.len() && !pair_lt_exec(&e.kind, &e.id, &out[p].kind, &out[p].id)
        invariant
            p <= out.len(),
            t == out@.map_values(|v: BoundaryValidatorEntry| validator_view(v)),
            forall|k: int| 0 <= k < p ==> !(validator_lt())(validator_view(e), #[trigger] t[k]),
        decreases out.len() - p,
    {
        proof {
            assert(t[p as int] == validator_view(out@[p as int]));
        }
        p = p + 1;
    }
    proof {
        if p < out.len() {
            assert(t[p as int] == validator_view(out@[p as int]));
        }
        lemma_ins_sorted_at(t, validator_view(e), validator_lt(), p as int);
    }
    let ghost ev = validator_view(e);
    out.insert(p, e);
    proof {
        assert(out@.map_values(|v: BoundaryValidatorEntry| validator_view(v)) =~= t.take(p as int) + seq![ev] + t.skip(p as int));
    }
}



fn some_string(s: &String) -> (r: Option<String>)
    ensures
        r matches Some(x) && x@ == s@,
{
    Some(s.clone())
}

/// `r` is the boundary validators of the deployment `units` (`None`: no deployment).
pub open spec fn boundary_doc(units: Option<Seq<DepUnit>>, r: BoundaryValidatorDocument) -> bool {
    &&& r.schema@ == BOUNDARY_VALIDATOR_SCHEMA@
    &&& match units {
        None => r.validators.len() == 0 && r.status@ == "empty"@,
        Some(us) => {
            &&& r.validators@.map_values(|v: BoundaryValidatorEntry| validator_view(v)) == stable_sort(
                all_validators(us),
                validator_lt(),
            )
            &&& r.status@ == if r.validators.len() == 0 {
                "empty"@
            } else {
                "ready"@
            }
        },
    }
}

/// Route / resume / rpc / action boundary entries of a deployment, sorted by
/// (kind, id); `None` when there is no deployment.
pub fn plan_boundary_validators(units: Option<&Vec<DepUnit>>) -> (r: BoundaryValidatorDocument)
    ensures
        boundary_doc(units_view(units), r),
{
    let units = match units {
        None => {
            return BoundaryValidatorDocument {
                schema: String::from_str(BOUNDARY_VALIDATOR_SCHEMA),
                validators: Vec::new(),
                status: String::from_str("empty"),
            };
        },
        Some(us) => us,
    };
    let mut validators: Vec<BoundaryValidatorEntry> = Vec::new();
    let ghost mut raw: Seq<(Seq<char>, Seq<char>, Seq<char>, Option<Seq<char>>)> = Seq::empty();
    let mut i: usize = 0;
    proof {
        assert(units@.take(0) =~= Seq::<DepUnit>::empty());
        assert(validators@.map_values(|v: BoundaryValidatorEntry| validator_view(v)) =~= stable_sort(raw, validator_lt()));
    }
    while i < units.len()
        invariant
            i <= units.len(),
            raw == all_validators(units@.take(i as int)),
            validators@.map_values(|v: BoundaryValidatorEntry| validator_view(v)) == stable_sort(raw, validator_lt()),
        decreases units.len() - i,
    {
        let u = &units[i];
        let ghost start = raw;
        let ghost c = u.chunk_id@;
        let page = to_chars("page");
        let kind = to_chars(u.kind.as_str());
        if chars_eq(kind.as_slice(), page.as_slice()) {
            let e = BoundaryValidatorEntry {
                kind: String::from_str("route"),
                id: u.chunk_id.clone(),
                chunk_id: u.chunk_id.clone(),
                detail: Some(String::from_str("page")),
            };
            proof {
                lemma_stable_sort_push(raw, validator_view(e), validator_lt());
                raw = raw.push(validator_view(e));
            }
            insert_validator(&mut validators, e);
        }
        let ghost after_route = raw;
        let mut k: usize = 0;
        while k < u.resume_entries.len()
            invariant
                k <= u.resume_entries.len(),
                raw == after_route + u.resume_entries@.take(k as int).map_values(
                    |r: (String, String)| ("resume"@, colon(c, r.0@), c, Some(r.1@)),
                ),
                c == u.chunk_id@,
                validators@.map_values(|v: BoundaryValidatorEntry| validator_view(v)) == stable_sort(raw, validator_lt()),
            decreases u.resume_entries.len() - k,
        {
            let e = BoundaryValidatorEntry {
                kind: String::from_str("resume"),
                id: colon_exec(&u.chunk_id, &u.resume_entries[k].0),
                chunk_id: u.chunk_id.clone(),
                detail: some_string(&u.resume_entries[k].1),
            };
            proof {
                lemma_stable_sort_push(raw, validator_view(e), validator_lt());
                raw = raw.push(validator_view(e));
                assert(u.resume_entries@.take(k + 1) =~= u.resume_entries@.take(k as int).push(u.resume_entries@[k as int]));
                assert(raw =~= after_route + u.resume_entries@.take(k + 1).map_values(
                    |r: (String, String)| ("resume"@, colon(c, r.0@), c, Some(r.1@)),
                ));
            }
            insert_validator(&mut validators, e);
            k = k + 1;
        }
        proof {
            assert(u.resume_entries@.take(u.resume_entries.len() as int) =~= u.resume_entries@);
        }
        let ghost after_resume = raw;
        let mut k: usize = 0;
        while k < u.client_calls.len()
            invariant
                k <= u.client_calls.len(),
                raw == after_resume + u.client_calls@.take(k as int).map_values(|m: String| ("rpc"@, colon(c, m@), c, Some(m@))),
                c == u.chunk_id@,
                validators@.map_values(|v: BoundaryValidatorEntry| validator_view(v)) == stable_sort(raw, validator_lt()),
            decreases u.client_calls.len() - k,
        {
            let e = BoundaryValidatorEntry {
                kind: String::from_str("rpc"),
                id: colon_exec(&u.chunk_id, &u.client_calls[k]),
                chunk_id: u.chunk_id.clone(),
                detail: some_string(&u.client_calls[k]),
            };
            proof {
                lemma_stable_sort_push(raw, validator_view(e), validator_lt());
                raw = raw.push(validator_view(e));
                assert(u.client_calls@.take(k + 1) =~= u.client_calls@.take(k as int).push(u.client_calls@[k as int]));
                assert(raw =~= after_resume + u.client_calls@.take(k + 1).map_values(|m: String| ("rpc"@, colon(c, m@), c, Some(m@))));
            }
            insert_validator(&mut validators, e);
            k = k + 1;
        }
        proof {
            assert(u.client_calls@.take(u.client_calls.len() as int) =~= u.client_calls@);
        }
        let ghost after_rpc = raw;
        let mut k: usize = 0;
        while k < u.capabilities.len()
            invariant
                k <= u.capabilities.len(),
                raw == after_rpc + u.capabilities@.take(k as int).map_values(|a: String| ("action"@, colon(c, a@), c, Some(a@))),
                c == u.chunk_id@,
                validators@.map_values(|v: BoundaryValidatorEntry| validator_view(v)) == stable_sort(raw, validator_lt()),
            decreases u.capabilities.len() - k,
        {
            let e = BoundaryValidatorEntry {
                kind: String::from_str("action"),
                id: colon_exec(&u.chunk_id, &u.capabilities[k]),
                chunk_id: u.chunk_id.clone(),
                detail: some_string(&u.capabilities[k]),
            };
            proof {
                lemma_stable_sort_push(raw, validator_view(e), validator_lt());
                raw = raw.push(validator_view(e));
                assert(u.capabilities@.take(k + 1) =~= u.capabilities@.take(k as int).push(u.capabilities@[k as int]));
                assert(raw =~= after_rpc + u.capabilities@.take(k + 1).map_values(|a: String| ("action"@, colon(c, a@), c, Some(a@))));
            }
            insert_validator(&mut validators, e);
            k = k + 1;
        }
        proof {
            assert(u.capabilities@.take(u.capabilities.len() as int) =~= u.capabilities@);
            assert(units@.take(i + 1).drop_last() =~= units@.take(i as int));
            assert(units@.take(i + 1).last() == *u);
            assert(raw =~= all_validators(units@.take(i + 1)));
        }
        i = i + 1;
    }
    proof {
        assert(units@.take(units.len() as int) =~= units@);
    }
    let status = if validators.len() == 0 {
        String::from_str("empty")
    } else {
        String::from_str("ready")
    };
    BoundaryValidatorDocument { schema: String::from_str(BOUNDARY_VALIDATOR_SCHEMA), validators, status }
}

/// One leakage finding.
#[derive(Debug, Clone)]
pub struct LeakageFinding {
    /// `capability_without_server` | `unknown_client_call`
    pub kind: String,
    pub chunk_id: String,
    pub message: String,
    pub capability: Option<String>,
    pub method: Option<String>,
}

/// The leakage findings of a deployment.
#[derive(Debug, Clone)]
pub struct LeakageDocument {
    pub schema: String,
    pub findings: Vec<LeakageFinding>,
    /// `ready` (clean) | `failed` (findings) | `empty` (no deployment)
    pub status: String,
}

/// The text of an optional string.
pub open spec fn opt_view(o: Option<String>) -> Option<Seq<char>> {
    match o {
        Some(s) => Some(s@),
        None => None,
    }
}

/// A finding as plain values.
pub open spec fn finding_view(f: LeakageFinding) -> (Seq<char>, Seq<char>, Seq<char>, Option<Seq<char>>, Option<Seq<char>>) {
    (f.kind@, f.chunk_id@, f.message@, opt_view(f.capability), opt_view(f.method))
}

/// Some unit declares capability `m`.
pub open spec fn declared_capability(units: Seq<DepUnit>, m: Seq<char>) -> bool {
    exists|i: int, j: int| 0 <= i < units.len() && 0 <= j < units[i].capabilities.len() && (#[trigger] units[i].capabilities@[j])@ == m
}

/// `capability `cap` on `chunk` has no serverModuleId`
pub open spec fn no_server_message(cap: Seq<char>, chunk: Seq<char>) -> Seq<char> {
    "capability `"@ + cap + "` on `"@ + chunk + "` has no serverModuleId"@
}

/// `clientCall `m` on `chunk` does not resolve to any capability`
pub open spec fn unknown_call_message(m: Seq<char>, chunk: Seq<char>) -> Seq<char> {
    "clientCall `"@ + m + "` on `"@ + chunk + "` does not resolve to any capability"@
}

/// Findings for the client calls of one unit that no unit declares.
pub open spec fn unknown_calls(units: Seq<DepUnit>, c: Seq<char>, calls: Seq<String>) -> Seq<(Seq<char>, Seq<char>, Seq<char>, Option<Seq<char>>, Option<Seq<char>>)>
    decreases calls.len(),
{
    if calls.len() == 0 {
        Seq::empty()
    } else {
        let rest = unknown_calls(units, c, calls.drop_last());
        let m = calls.last()@;
        if declared_capability(units, m) {
            rest
        } else {
            rest.push(("unknown_client_call"@, c, unknown_call_message(m, c), None, Some(m)))
        }
    }
}

/// The findings of one unit, in order.
pub open spec fn unit_findings(units: Seq<DepUnit>, u: DepUnit) -> Seq<(Seq<char>, Seq<char>, Seq<char>, Option<Seq<char>>, Option<Seq<char>>)> {
    let c = u.chunk_id@;
    (if u.capabilities.len() > 0 && u.server_module_id is None {
        u.capabilities@.map_values(
            |a: String| ("capability_without_server"@, c, no_server_message(a@, c), Some(a@), None::<Seq<char>>),
        )
    } else {
        Seq::empty()
    }) + unknown_calls(units, c, u.client_calls@)
}

/// The findings of `us` (units of the deployment `units`), in unit order.
pub open spec fn all_findings(units: Seq<DepUnit>, us: Seq<DepUnit>) -> Seq<(Seq<char>, Seq<char>, Seq<char>, Option<Seq<char>>, Option<Seq<char>>)>
    decreases us.len(),
{
    if us.len() == 0 {
        Seq::empty()
    } else {
        all_findings(units, us.drop_last()) + unit_findings(units, us.last())
    }
}

/// Findings ordered by (kind, chunk id, message).
pub open spec fn finding_lt() -> spec_fn(
    (Seq<char>, Seq<char>, Seq<char>, Option<Seq<char>>, Option<Seq<char>>),
    (Seq<char>, Seq<char>, Seq<char>, Option<Seq<char>>, Option<Seq<char>>),
) -> bool {
    |x: (Seq<char>, Seq<char>, Seq<char>, Option<Seq<char>>, Option<Seq<char>>), y: (Seq<char>, Seq<char>, Seq<char>, Option<Seq<char>>, Option<Seq<char>>)|
        lex_lt(x.0, y.0) || (x.0 == y.0 && pair_lt(x.1, x.2, y.1, y.2))
}

fn finding_lt_exec(a: &LeakageFinding, b: &LeakageFinding) -> (r: bool)
    ensures
        r == (finding_lt())(finding_view(*a), finding_view(*b)),
{
    let x = to_chars(a.kind.as_str());
    let y = to_chars(b.kind.as_str());
    let c = crate::order::lex_order(x.as_slice(), y.as_slice());
    if c < 0 {
        return true;
    }
    if c > 0 {
        proof {
            crate::order::lemma_lex_asym(b.kind@, a.kind@);
        }
        return false;
    }
    pair_lt_exec(&a.chunk_id, &a.message, &b.chunk_id, &b.message)
}

fn insert_finding(out: &mut Vec<LeakageFinding>, e: LeakageFinding, raw: Ghost<Seq<(Seq<char>, Seq<char>, Seq<char>, Option<Seq<char>>, Option<Seq<char>>)>>)
    requires
        old(out)@.map_values(|v: LeakageFinding| finding_view(v)) == stable_sort(raw@, finding_lt()),
    ensures
        final(out)@.map_values(|v: LeakageFinding| finding_view(v)) == stable_sort(raw@.push(finding_view(e)), finding_lt()),
{
    let ghost t = out@.map_values(|v: LeakageFinding| finding_view(v));
    let mut p: usize = 0;
    while p < out.len() && !finding_lt_exec(&e, &out[p])
        invariant
            p <= out.len(),
            t == out@.map_values(|v: LeakageFinding| finding_view(v)),
            forall|k: int| 0 <= k < p ==> !(finding_lt())(finding_view(e), #[trigger] t[k]),
        decreases out.len() - p,
    {
        proof {
            assert(t[p as int] == finding_view(out@[p as int]));
        }
        p = p + 1;
    }
    proof {
        if p < out.len() {
            assert(t[p as int] == finding_view(out@[p as int]));
        }
        lemma_ins_sorted_at(t, finding_view(e), finding_lt(), p as int);
        lemma_stable_sort_push(raw@, finding_view(e), finding_lt());
    }
    let ghost ev = finding_view(e);
    out.insert(p, e);
    proof {
        assert(out@.map_values(|v: LeakageFinding| finding_view(v)) =~= t.take(p as int) + seq![ev] + t.skip(p as int));
    }
}

fn all_capabilities(units: &Vec<DepUnit>) -> (r: Vec<String>)
    ensures
        forall|m: Seq<char>| texts(r@).contains(m) <==> declared_capability(units@, m),
{
    let mut r: Vec<String> = Vec::new();
    let mut i: usize = 0;
    while i < units.len()
        invariant
            i <= units.len(),
            forall|m: Seq<char>| texts(r@).contains(m) <==> declared_capability(units@.take(i as int), m),
        decreases units.len() - i,
    {
        let mut j: usize = 0;
        while j < units[i].capabilities.len()
            invariant
                i < units.len(),
                j <= units@[i as int].capabilities.len(),
                forall|m: Seq<char>| texts(r@).contains(m) <==> (declared_capability(units@.take(i as int), m) || exists|k: int|
                    0 <= k < j && (#[trigger] units@[i as int].capabilities@[k])@ == m),
            decreases units@[i as int].capabilities.len() - j,
        {
            let ghost before = texts(r@);
            let cap = units[i].capabilities[j].clone();
            let ghost cv = cap@;
            r.push(cap);
            proof {
                assert(texts(r@) =~= before.push(cv));
                crate::order::lemma_push_contains(before, cv);
                assert forall|m: Seq<char>| texts(r@).contains(m) implies (declared_capability(units@.take(i as int), m) || exists|k: int|
                    0 <= k < j + 1 && (#[trigger] units@[i as int].capabilities@[k])@ == m) by {
                    if m != cv {
                        let w = choose|w: int| 0 <= w < texts(r@).len() && texts(r@)[w] == m;
                        assert(before[w] == m);
                        assert(before.contains(m));
                    } else {
                        assert(units@[i as int].capabilities@[j as int]@ == m);
                    }
                }
            }
            j = j + 1;
        }
        proof {
            let t1 = units@.take(i + 1);
            assert forall|m: Seq<char>| texts(r@).contains(m) <==> declared_capability(t1, m) by {
                if declared_capability(t1, m) {
                    let (a, b) = choose|a: int, b: int| 0 <= a < t1.len() && 0 <= b < t1[a].capabilities.len() && (#[trigger] t1[a].capabilities@[b])@ == m;
                    if a < i {
                        assert(units@.take(i as int)[a].capabilities@[b]@ == m);
                    } else {
                        assert(units@[i as int].capabilities@[b]@ == m);
                    }
                }
                if declared_capability(units@.take(i as int), m) {
                    let (a, b) = choose|a: int, b: int| 0 <= a < i && 0 <= b < units@.take(i as int)[a].capabilities.len() && (#[trigger] units@.take(i as int)[a].capabilities@[b])@ == m;
                    assert(t1[a].capabilities@[b]@ == m);
                }
                if exists|k: int| 0 <= k < units@[i as int].capabilities.len() && (#[trigger] units@[i as int].capabilities@[k])@ == m {
                    let k = choose|k: int| 0 <= k < units@[i as int].capabilities.len() && (#[trigger] units@[i as int].capabilities@[k])@ == m;
                    assert(t1[i as int].capabilities@[k]@ == m);
                }
            }
        }
        i = i + 1;
    }
    proof {
        assert(units@.take(units.len() as int) =~= units@);
    }
    r
}

fn contains_text(v: &Vec<String>, x: &String) -> (r: bool)
    ensures
        r == texts(v@).contains(x@),
{
    let xv = to_chars(x.as_str());
    crate::order::texts_contain(v, xv.as_slice())
}

/// `r` is the leakage findings of the deployment `units` (`None`: no deployment).
pub open spec fn leakage_doc(units: Option<Seq<DepUnit>>, r: LeakageDocument) -> bool {
    &&& r.schema@ == LEAKAGE_SCHEMA@
    &&& match units {
        None => r.findings.len() == 0 && r.status@ == "empty"@,
        Some(us) => {
            &&& r.findings@.map_values(|v: LeakageFinding| finding_view(v)) == stable_sort(
                all_findings(us, us),
                finding_lt(),
            )
            &&& r.status@ == if r.findings.len() == 0 {
                "ready"@
            } else {
                "failed"@
            }
        },
    }
}

/// Capabilities without a server module, and client calls that resolve to
/// no capability, sorted by (kind, chunk id, message); `None` when there is
/// no deployment.
pub fn plan_leakage(units: Option<&Vec<DepUnit>>) -> (r: LeakageDocument)
    ensures
        leakage_doc(units_view(units), r),
{
    let units = match units {
        None => {
            return LeakageDocument {
                schema: String::from_str(LEAKAGE_SCHEMA),
                findings: Vec::new(),
                status: String::from_str("empty"),
            };
        },
        Some(us) => us,
    };
    let caps = all_capabilities(units);
    let mut findings: Vec<LeakageFinding> = Vec::new();
    let ghost mut raw: Seq<(Seq<char>, Seq<char>, Seq<char>, Option<Seq<char>>, Option<Seq<char>>)> = Seq::empty();
    let mut i: usize = 0;
    proof {
        assert(units@.take(0) =~= Seq::<DepUnit>::empty());
        assert(findings@.map_values(|v: LeakageFinding| finding_view(v)) =~= stable_sort(raw, finding_lt()));
    }
    while i < units.len()
        invariant
            i <= units.len(),
            forall|m: Seq<char>| texts(caps@).contains(m) <==> declared_capability(units@, m),
            raw == all_findings(units@, units@.take(i as int)),
            findings@.map_values(|v: LeakageFinding| finding_view(v)) == stable_sort(raw, finding_lt()),
        decreases units.len() - i,
    {
        let u = &units[i];
        let ghost c = u.chunk_id@;
        let ghost start = raw;
        let flag = u.capabilities.len() > 0 && u.server_module_id.is_none();
        if flag {
            let mut k: usize = 0;
            while k < u.capabilities.len()
                invariant
                    k <= u.capabilities.len(),
                    c == u.chunk_id@,
                    raw == start + u.capabilities@.take(k as int).map_values(
                        |a: String| ("capability_without_server"@, c, no_server_message(a@, c), Some(a@), None::<Seq<char>>),
                    ),
                    findings@.map_values(|v: LeakageFinding| finding_view(v)) == stable_sort(raw, finding_lt()),
                decreases u.capabilities.len() - k,
            {
                let cap = &u.capabilities[k];
                let mut m = to_chars("capability `");
                push_str(&mut m, cap.as_str());
                push_str(&mut m, "` on `");
                push_str(&mut m, u.chunk_id.as_str());
                push_str(&mut m, "` has no serverModuleId");
                let f = LeakageFinding {
                    kind: String::from_str("capability_without_server"),
                    chunk_id: u.chunk_id.clone(),
                    message: from_chars(m.as_slice()),
                    capability: some_string(cap),
                    method: None,
                };
                insert_finding(&mut findings, f, Ghost(raw));
                proof {
                    raw = raw.push(finding_view(f));
                    assert(u.capabilities@.take(k + 1) =~= u.capabilities@.take(k as int).push(u.capabilities@[k as int]));
                    assert(raw =~= start + u.capabilities@.take(k + 1).map_values(
                        |a: String| ("capability_without_server"@, c, no_server_message(a@, c), Some(a@), None::<Seq<char>>),
                    ));
                }
                k = k + 1;
            }
            proof {
                assert(u.capabilities@.take(u.capabilities.len() as int) =~= u.capabilities@);
            }
        }
        let ghost mid = raw;
        proof {
            assert(u.client_calls@.take(0) =~= Seq::<String>::empty());
            if !flag {
                assert(mid =~= start + Seq::<(Seq<char>, Seq<char>, Seq<char>, Option<Seq<char>>, Option<Seq<char>>)>::empty());
            }
        }
        let mut k: usize = 0;
        while k < u.client_calls.len()
            invariant
                k <= u.client_calls.len(),
                c == u.chunk_id@,
                forall|m: Seq<char>| texts(caps@).contains(m) <==> declared_capability(units@, m),
                raw == mid + unknown_calls(units@, c, u.client_calls@.take(k as int)),
                findings@.map_values(|v: LeakageFinding| finding_view(v)) == stable_sort(raw, finding_lt()),
            decreases u.client_calls.len() - k,
        {
            let method = &u.client_calls[k];
            proof {
                assert(u.client_calls@.take(k + 1).drop_last() =~= u.client_calls@.take(k as int));
                assert(u.client_calls@.take(k + 1).last() == *method);
            }
            if !contains_text(&caps, method) {
                let mut m = to_chars("clientCall `");
                push_str(&mut m, method.as_str());
                push_str(&mut m, "` on `");
                push_str(&mut m, u.chunk_id.as_str());
                push_str(&mut m, "` does not resolve to any capability");
                let f = LeakageFinding {
                    kind: String::from_str("unknown_client_call"),
                    chunk_id: u.chunk_id.clone(),
                    message: from_chars(m.as_slice()),
                    capability: None,
                    method: some_string(method),
                };
                insert_finding(&mut findings, f, Ghost(raw));
                proof {
                    raw = raw.push(finding_view(f));
                }
            }
            k = k + 1;
        }
        proof {
            assert(u.client_calls@.take(u.client_calls.len() as int) =~= u.client_calls@);
            assert(units@.take(i + 1).drop_last() =~= units@.take(i as int));
            assert(units@.take(i + 1).last() == *u);
            assert(raw =~= all_findings(units@, units@.take(i + 1)));
        }
        i = i + 1;
    }
    proof {
        assert(units@.take(units.len() as int) =~= units@);
    }
    let status = if findings.len() == 0 {
        String::from_str("ready")
    } else {
        String::from_str("failed")
    };
    LeakageDocument { schema: String::from_str(LEAKAGE_SCHEMA), findings, status }
}

/// Where one capability runs.
#[derive(Debug, Clone)]
pub struct CapabilityTargetEntry {
    pub capability: String,
    pub chunk_id: String,
    /// `node` when the chunk has a server module, else `unbound`
    pub target: String,
    pub server_module_id: Option<String>,
}

/// A capability mapped to more than one target.
#[derive(Debug, Clone)]
pub struct CapabilityTargetConflict {
    pub capability: String,
    pub targets: Vec<String>,
    pub chunk_ids: Vec<String>,
}

/// Capability targets of a deployment.
#[derive(Debug, Clone)]
pub struct CapabilityTargetDocument {
    pub schema: String,
    pub targets: Vec<CapabilityTargetEntry>,
    pub conflicts: Vec<CapabilityTargetConflict>,
    /// `ready` | `failed` | `empty`
    pub status: String,
}

/// A target as plain values: (capability, chunk id, target, server module).
pub open spec fn target_view(t: CapabilityTargetEntry) -> (Seq<char>, Seq<char>, Seq<char>, Option<Seq<char>>) {
    (t.capability@, t.chunk_id@, t.target@, opt_view(t.server_module_id))
}

/// The target of a unit: `node` with a server module, else `unbound`.
pub open spec fn unit_target(u: DepUnit) -> Seq<char> {
    if u.server_module_id is Some {
        "node"@
    } else {
        "unbound"@
    }
}

/// The targets of all capabilities, in unit order.
pub open spec fn all_targets(us: Seq<DepUnit>) -> Seq<(Seq<char>, Seq<char>, Seq<char>, Option<Seq<char>>)>
    decreases us.len(),
{
    if us.len() == 0 {
        Seq::empty()
    } else {
        let u = us.last();
        all_targets(us.drop_last()) + u.capabilities@.map_values(
            |a: String| (a@, u.chunk_id@, unit_target(u), opt_view(u.server_module_id)),
        )
    }
}

/// Targets ordered by (capability, chunk id).
pub open spec fn target_lt() -> spec_fn(
    (Seq<char>, Seq<char>, Seq<char>, Option<Seq<char>>),
    (Seq<char>, Seq<char>, Seq<char>, Option<Seq<char>>),
) -> bool {
    |x: (Seq<char>, Seq<char>, Seq<char>, Option<Seq<char>>), y: (Seq<char>, Seq<char>, Seq<char>, Option<Seq<char>>)|
        pair_lt(x.0, x.1, y.0, y.1)
}

/// The targets that capability `cap` is mapped to.
pub open spec fn cap_targets(ts: Seq<(Seq<char>, Seq<char>, Seq<char>, Option<Seq<char>>)>, cap: Seq<char>) -> Set<Seq<char>> {
    Set::new(|t: Seq<char>| exists|i: int| 0 <= i < ts.len() && (#[trigger] ts[i]).0 == cap && ts[i].2 == t)
}

/// The chunks that declare capability `cap`.
pub open spec fn cap_chunks(ts: Seq<(Seq<char>, Seq<char>, Seq<char>, Option<Seq<char>>)>, cap: Seq<char>) -> Set<Seq<char>> {
    Set::new(|c: Seq<char>| exists|i: int| 0 <= i < ts.len() && (#[trigger] ts[i]).0 == cap && ts[i].1 == c)
}

/// Capability `cap` is mapped to two different targets.
pub open spec fn in_conflict(ts: Seq<(Seq<char>, Seq<char>, Seq<char>, Option<Seq<char>>)>, cap: Seq<char>) -> bool {
    exists|i: int, j: int|
        0 <= i < ts.len() && 0 <= j < ts.len() && (#[trigger] ts[i]).0 == cap && (#[trigger] ts[j]).0 == cap && ts[i].2 != ts[j].2
}

/// The conflicts of a target list: one per capability mapped to two
/// targets, in capability order, each with its targets and chunks sorted.
pub open spec fn conflicts_of(
    ts: Seq<(Seq<char>, Seq<char>, Seq<char>, Option<Seq<char>>)>,
    cs: Seq<CapabilityTargetConflict>,
) -> bool {
    &&& strictly_sorted(cs.map_values(|c: CapabilityTargetConflict| c.capability@))
    &&& forall|cap: Seq<char>| cs.map_values(|c: CapabilityTargetConflict| c.capability@).contains(cap) <==> in_conflict(ts, cap)
    &&& forall|k: int| 0 <= k < cs.len() ==> {
        let c = #[trigger] cs[k];
        &&& strictly_sorted(texts(c.targets@))
        &&& texts(c.targets@).to_set() == cap_targets(ts, c.capability@)
        &&& strictly_sorted(texts(c.chunk_ids@))
        &&& texts(c.chunk_ids@).to_set() == cap_chunks(ts, c.capability@)
    }
}


fn insert_target(out: &mut Vec<CapabilityTargetEntry>, e: CapabilityTargetEntry, raw: Ghost<Seq<(Seq<char>, Seq<char>, Seq<char>, Option<Seq<char>>)>>)
    requires
        old(out)@.map_values(|v: CapabilityTargetEntry| target_view(v)) == stable_sort(raw@, target_lt()),
    ensures
        final(out)@.map_values(|v: CapabilityTargetEntry| target_view(v)) == stable_sort(raw@.push(target_view(e)), target_lt()),
{
    let ghost t = out@.map_values(|v: CapabilityTargetEntry| target_view(v));
    let mut p: usize = 0;
    while p < out.len() && !pair_lt_exec(&e.capability, &e.chunk_id, &out[p].capability, &out[p].chunk_id)
        invariant
            p <= out.len(),
            t == out@.map_values(|v: CapabilityTargetEntry| target_view(v)),
            forall|k: int| 0 <= k < p ==> !(target_lt())(target_view(e), #[trigger] t[k]),
        decreases out.len() - p,
    {
        proof {
            assert(t[p as int] == target_view(out@[p as int]));
        }
        p = p + 1;
    }
    proof {
        if p < out.len() {
            assert(t[p as int] == target_view(out@[p as int]));
        }
        lemma_ins_sorted_at(t, target_view(e), target_lt(), p as int);
        lemma_stable_sort_push(raw@, target_view(e), target_lt());
    }
    let ghost ev = target_view(e);
    out.insert(p, e);
    proof {
        assert(out@.map_values(|v: CapabilityTargetEntry| target_view(v)) =~= t.take(p as int) + seq![ev] + t.skip(p as int));
    }
}

fn clone_opt(o: &Option<String>) -> (r: Option<String>)
    ensures
        opt_view(r) == opt_view(*o),
{
    match o {
        Some(s) => Some(s.clone()),
        None => None,
    }
}

/// A strictly sorted text list with more than one element holds two
/// different texts, and one holding two different texts has more than one.
proof fn lemma_sorted_two(v: Seq<Seq<char>>)
    requires
        strictly_sorted(v),
    ensures
        v.len() > 1 <==> exists|a: Seq<char>, b: Seq<char>| v.to_set().contains(a) && v.to_set().contains(b) && a != b,
{
    if v.len() > 1 {
        assert(lex_lt(v[0], v[1]));
        crate::order::lemma_lex_asym(v[0], v[1]);
        assert(v.to_set().contains(v[0]) && v.to_set().contains(v[1]));
    } else {
        if exists|a: Seq<char>, b: Seq<char>| v.to_set().contains(a) && v.to_set().contains(b) && a != b {
            let (a, b) = choose|a: Seq<char>, b: Seq<char>| v.to_set().contains(a) && v.to_set().contains(b) && a != b;
            let i = choose|i: int| 0 <= i < v.len() && v[i] == a;
            let j = choose|j: int| 0 <= j < v.len() && v[j] == b;
        }
    }
}

/// `r` is the capability targets of the deployment `units` (`None`: no deployment).
pub open spec fn targets_doc(units: Option<Seq<DepUnit>>, r: CapabilityTargetDocument) -> bool {
    &&& r.schema@ == CAPABILITY_TARGET_SCHEMA@
    &&& match units {
        None => r.targets.len() == 0 && r.conflicts.len() == 0 && r.status@ == "empty"@,
        Some(us) => {
            &&& r.targets@.map_values(|v: CapabilityTargetEntry| target_view(v)) == stable_sort(all_targets(us), target_lt())
            &&& conflicts_of(r.targets@.map_values(|v: CapabilityTargetEntry| target_view(v)), r.conflicts@)
            &&& r.status@ == if r.targets.len() == 0 && r.conflicts.len() == 0 {
                "empty"@
            } else if r.conflicts.len() == 0 {
                "ready"@
            } else {
                "failed"@
            }
        },
    }
}

/// Capability -> target (`node` with a server module, else `unbound`),
/// sorted by (capability, chunk id), and the capabilities mapped to two
/// targets; `None` when there is no deployment.
pub fn plan_capability_targets(units: Option<&Vec<DepUnit>>) -> (r: CapabilityTargetDocument)
    ensures
        targets_doc(units_view(units), r),
{
    let units = match units {
        None => {
            return CapabilityTargetDocument {
                schema: String::from_str(CAPABILITY_TARGET_SCHEMA),
                targets: Vec::new(),
                conflicts: Vec::new(),
                status: String::from_str("empty"),
            };
        },
        Some(us) => us,
    };
    let mut targets: Vec<CapabilityTargetEntry> = Vec::new();
    let ghost mut raw: Seq<(Seq<char>, Seq<char>, Seq<char>, Option<Seq<char>>)> = Seq::empty();
    let mut i: usize = 0;
    proof {
        assert(units@.take(0) =~= Seq::<DepUnit>::empty());
        assert(targets@.map_values(|v: CapabilityTargetEntry| target_view(v)) =~= stable_sort(raw, target_lt()));
    }
    while i < units.len()
        invariant
            i <= units.len(),
            raw == all_targets(units@.take(i as int)),
            targets@.map_values(|v: CapabilityTargetEntry| target_view(v)) == stable_sort(raw, target_lt()),
        decreases units.len() - i,
    {
        let u = &units[i];
        let ghost start = raw;
        let mut k: usize = 0;
        while k < u.capabilities.len()
            invariant
                k <= u.capabilities.len(),
                raw == start + u.capabilities@.take(k as int).map_values(
                    |a: String| (a@, u.chunk_id@, unit_target(*u), opt_view(u.server_module_id)),
                ),
                targets@.map_values(|v: CapabilityTargetEntry| target_view(v)) == stable_sort(raw, target_lt()),
            decreases u.capabilities.len() - k,
        {
            let target = if u.server_module_id.is_some() {
                String::from_str("node")
            } else {
                String::from_str("unbound")
            };
            let e = CapabilityTargetEntry {
                capability: u.capabilities[k].clone(),
                chunk_id: u.chunk_id.clone(),
                target,
                server_module_id: clone_opt(&u.server_module_id),
            };
            insert_target(&mut targets, e, Ghost(raw));
            proof {
                raw = raw.push(target_view(e));
                assert(u.capabilities@.take(k + 1) =~= u.capabilities@.take(k as int).push(u.capabilities@[k as int]));
                assert(raw =~= start + u.capabilities@.take(k + 1).map_values(
                    |a: String| (a@, u.chunk_id@, unit_target(*u), opt_view(u.server_module_id)),
                ));
            }
            k = k + 1;
        }
        proof {
            assert(u.capabilities@.take(u.capabilities.len() as int) =~= u.capabilities@);
            assert(units@.take(i + 1).drop_last() =~= units@.take(i as int));
            assert(units@.take(i + 1).last() == *u);
            assert(raw =~= all_targets(units@.take(i + 1)));
        }
        i = i + 1;
    }
    proof {
        assert(units@.take(units.len() as int) =~= units@);
    }
    let ghost ts = targets@.map_values(|v: CapabilityTargetEntry| target_view(v));
    // distinct capabilities, sorted
    let mut caps: Vec<String> = Vec::new();
    let mut k: usize = 0;
    while k < targets.len()
        invariant
            k <= targets.len(),
            ts == targets@.map_values(|v: CapabilityTargetEntry| target_view(v)),
            strictly_sorted(texts(caps@)),
            forall|c: Seq<char>| texts(caps@).to_set().contains(c) <==> exists|j: int| 0 <= j < k && (#[trigger] ts[j]).0 == c,
        decreases targets.len() - k,
    {
        let ghost before = texts(caps@).to_set();
        insert_sorted_unique(&mut caps, targets[k].capability.clone());
        proof {
            assert(ts[k as int].0 == targets@[k as int].capability@);
            assert forall|c: Seq<char>| texts(caps@).to_set().contains(c) <==> exists|j: int| 0 <= j < k + 1 && (#[trigger] ts[j]).0 == c by {
                if c == ts[k as int].0 {
                    assert(texts(caps@).to_set().contains(c));
                } else if texts(caps@).to_set().contains(c) {
                    assert(before.contains(c));
                }
            }
        }
        k = k + 1;
    }
    let mut conflicts: Vec<CapabilityTargetConflict> = Vec::new();
    let mut ci: usize = 0;
    while ci < caps.len()
        invariant
            ci <= caps.len(),
            ts == targets@.map_values(|v: CapabilityTargetEntry| target_view(v)),
            strictly_sorted(texts(caps@)),
            forall|c: Seq<char>| texts(caps@).to_set().contains(c) <==> exists|j: int| 0 <= j < ts.len() && (#[trigger] ts[j]).0 == c,
            strictly_sorted(conflicts@.map_values(|c: CapabilityTargetConflict| c.capability@)),
            forall|cap: Seq<char>| conflicts@.map_values(|c: CapabilityTargetConflict| c.capability@).contains(cap) <==> (in_conflict(ts, cap)
                && exists|j: int| 0 <= j < ci && texts(caps@)[j] == cap),
            forall|m: int| 0 <= m < conflicts.len() ==> exists|j: int| 0 <= j < ci && #[trigger] conflicts@[m].capability@ == texts(caps@)[j],
            forall|m: int| 0 <= m < conflicts.len() ==> {
                let c = #[trigger] conflicts@[m];
                &&& strictly_sorted(texts(c.targets@))
                &&& texts(c.targets@).to_set() == cap_targets(ts, c.capability@)
                &&& strictly_sorted(texts(c.chunk_ids@))
                &&& texts(c.chunk_ids@).to_set() == cap_chunks(ts, c.capability@)
            },
        decreases caps.len() - ci,
    {
        let cap = &caps[ci];
        let capv = to_chars(cap.as_str());
        let mut tnames: Vec<String> = Vec::new();
        let mut chunks: Vec<String> = Vec::new();
        let mut k: usize = 0;
        while k < targets.len()
            invariant
                k <= targets.len(),
                ts == targets@.map_values(|v: CapabilityTargetEntry| target_view(v)),
                capv@ == cap@,
                strictly_sorted(texts(tnames@)),
                strictly_sorted(texts(chunks@)),
                forall|t: Seq<char>| texts(tnames@).to_set().contains(t) <==> exists|j: int| 0 <= j < k && (#[trigger] ts[j]).0 == cap@ && ts[j].2 == t,
                forall|t: Seq<char>| texts(chunks@).to_set().contains(t) <==> exists|j: int| 0 <= j < k && (#[trigger] ts[j]).0 == cap@ && ts[j].1 == t,
            decreases targets.len() - k,
        {
            let cv = to_chars(targets[k].capability.as_str());
            let ghost b1 = texts(tnames@).to_set();
            let ghost b2 = texts(chunks@).to_set();
            proof {
                assert(ts[k as int] == target_view(targets@[k as int]));
            }
            if chars_eq(cv.as_slice(), capv.as_slice()) {
                insert_sorted_unique(&mut tnames, targets[k].target.clone());
                insert_sorted_unique(&mut chunks, targets[k].chunk_id.clone());
            }
            proof {
                assert forall|t: Seq<char>| texts(tnames@).to_set().contains(t) <==> exists|j: int| 0 <= j < k + 1 && (#[trigger] ts[j]).0 == cap@ && ts[j].2 == t by {
                    if texts(tnames@).to_set().contains(t) && !b1.contains(t) {
                        assert(ts[k as int].0 == cap@ && ts[k as int].2 == t);
                    }
                    if exists|j: int| 0 <= j < k + 1 && (#[trigger] ts[j]).0 == cap@ && ts[j].2 == t {
                        let j = choose|j: int| 0 <= j < k + 1 && (#[trigger] ts[j]).0 == cap@ && ts[j].2 == t;
                        if j < k {
                            assert(b1.contains(t));
                        }
                    }
                }
                assert forall|t: Seq<char>| texts(chunks@).to_set().contains(t) <==> exists|j: int| 0 <= j < k + 1 && (#[trigger] ts[j]).0 == cap@ && ts[j].1 == t by {
                    if texts(chunks@).to_set().contains(t) && !b2.contains(t) {
                        assert(ts[k as int].0 == cap@ && ts[k as int].1 == t);
                    }
                    if exists|j: int| 0 <= j < k + 1 && (#[trigger] ts[j]).0 == cap@ && ts[j].1 == t {
                        let j = choose|j: int| 0 <= j < k + 1 && (#[trigger] ts[j]).0 == cap@ && ts[j].1 == t;
                        if j < k {
                            assert(b2.contains(t));
                        }
                    }
                }
            }
            k = k + 1;
        }
        proof {
            assert(texts(tnames@).to_set() =~= cap_targets(ts, cap@));
            assert(texts(chunks@).to_set() =~= cap_chunks(ts, cap@));
            lemma_sorted_two(texts(tnames@));
            assert(in_conflict(ts, cap@) <==> tnames.len() > 1) by {
                if in_conflict(ts, cap@) {
                    let (a, b) = choose|a: int, b: int| 0 <= a < ts.len() && 0 <= b < ts.len() && (#[trigger] ts[a]).0 == cap@
                        && (#[trigger] ts[b]).0 == cap@ && ts[a].2 != ts[b].2;
                    assert(cap_targets(ts, cap@).contains(ts[a].2));
                    assert(cap_targets(ts, cap@).contains(ts[b].2));
                }
                if tnames.len() > 1 {
                    let (x, y) = choose|x: Seq<char>, y: Seq<char>| texts(tnames@).to_set().contains(x) && texts(tnames@).to_set().contains(y) && x != y;
                    assert(cap_targets(ts, cap@).contains(x));
                    assert(cap_targets(ts, cap@).contains(y));
                    let a = choose|a: int| 0 <= a < ts.len() && (#[trigger] ts[a]).0 == cap@ && ts[a].2 == x;
                    let b = choose|b: int| 0 <= b < ts.len() && (#[trigger] ts[b]).0 == cap@ && ts[b].2 == y;
                }
            }
        }
        let ghost before = conflicts@.map_values(|c: CapabilityTargetConflict| c.capability@);
        let ghost before_c = conflicts@;
        if tnames.len() > 1 {
            conflicts.push(CapabilityTargetConflict { capability: cap.clone(), targets: tnames, chunk_ids: chunks });
            proof {
                let now = conflicts@.map_values(|c: CapabilityTargetConflict| c.capability@);
                assert(now =~= before.push(cap@));
                assert forall|a: int, b: int| 0 <= a < b < now.len() implies lex_lt(now[a], now[b]) by {
                    if b == now.len() - 1 {
                        let j = choose|j: int| 0 <= j < ci && #[trigger] conflicts@[a].capability@ == texts(caps@)[j];
                        assert(now[a] == conflicts@[a].capability@);
                        assert(texts(caps@)[ci as int] == cap@);
                    }
                }
                assert forall|m: int| 0 <= m < conflicts.len() implies exists|j: int| 0 <= j < ci + 1 && #[trigger] conflicts@[m].capability@ == texts(caps@)[j] by {
                    if m == conflicts.len() - 1 {
                        assert(conflicts@[m].capability@ == texts(caps@)[ci as int]);
                    } else {
                        assert(conflicts@[m] == before_c[m]);
                    }
                }
            }
        }
        proof {
            let now = conflicts@.map_values(|c: CapabilityTargetConflict| c.capability@);
            assert(texts(caps@)[ci as int] == cap@);
            assert forall|capx: Seq<char>| now.contains(capx) <==> (in_conflict(ts, capx) && exists|j: int|
                0 <= j < ci + 1 && texts(caps@)[j] == capx) by {
                if now.contains(capx) {
                    let w = choose|w: int| 0 <= w < now.len() && now[w] == capx;
                    if w < before.len() {
                        assert(before[w] == capx);
                        assert(before.contains(capx));
                    }
                }
                if in_conflict(ts, capx) && exists|j: int| 0 <= j < ci + 1 && texts(caps@)[j] == capx {
                    let j = choose|j: int| 0 <= j < ci + 1 && texts(caps@)[j] == capx;
                    if j < ci {
                        assert(before.contains(capx));
                        let w = choose|w: int| 0 <= w < before.len() && before[w] == capx;
                        assert(now[w] == capx);
                    } else {
                        assert(now[now.len() - 1] == capx);
                    }
                }
            }
        }
        ci = ci + 1;
    }
    proof {
        let cs = conflicts@.map_values(|c: CapabilityTargetConflict| c.capability@);
        assert forall|cap: Seq<char>| cs.contains(cap) <==> in_conflict(ts, cap) by {
            if in_conflict(ts, cap) {
                let (a, b) = choose|a: int, b: int| 0 <= a < ts.len() && 0 <= b < ts.len() && (#[trigger] ts[a]).0 == cap
                    && (#[trigger] ts[b]).0 == cap && ts[a].2 != ts[b].2;
                assert(texts(caps@).to_set().contains(cap));
                let j = choose|j: int| 0 <= j < texts(caps@).len() && texts(caps@)[j] == cap;
            }
        }
    }
    let status = if targets.len() == 0 && conflicts.len() == 0 {
        String::from_str("empty")
    } else if conflicts.len() == 0 {
        String::from_str("ready")
    } else {
        String::from_str("failed")
    };
    CapabilityTargetDocument { schema: String::from_str(CAPABILITY_TARGET_SCHEMA), targets, conflicts, status }
}

/// The deployment units, as values.
pub open spec fn units_view(units: Option<&Vec<DepUnit>>) -> Option<Seq<DepUnit>> {
    match units {
        Some(us) => Some(us@),
        None => None,
    }
}

/// The dead graph of a deployment.
#[derive(Debug, Clone)]
pub struct DeadGraphDocument {
    pub schema: String,
    pub roots: Vec<String>,
    pub reachable: Vec<String>,
    /// Chunks that no page or app reaches.
    pub dead_chunks: Vec<String>,
    /// `chunk:capability` for each capability of a dead chunk.
    pub unreferenced_capabilities: Vec<String>,
    /// `ready` | `empty`
    pub status: String,
}

/// Pages and apps are where the dead graph starts.
pub open spec fn is_root_kind(kind: Seq<char>) -> bool {
    kind == "page"@ || kind == "app"@
}

/// The chunk ids of the page and app units.
pub open spec fn root_ids(us: Seq<DepUnit>) -> Set<Seq<char>> {
    Set::new(|c: Seq<char>| exists|i: int| 0 <= i < us.len() && #[trigger] us[i].chunk_id@ == c && is_root_kind(us[i].kind@))
}

/// Each unit's chunk id with its `dependsOn` list.
pub open spec fn unit_edges(us: Seq<DepUnit>) -> Seq<(String, Vec<String>)> {
    us.map_values(|u: DepUnit| (u.chunk_id, u.depends_on))
}

/// The chunk ids of the units outside `reach`, in unit order.
pub open spec fn dead_ids(us: Seq<DepUnit>, reach: Set<Seq<char>>) -> Seq<Seq<char>>
    decreases us.len(),
{
    if us.len() == 0 {
        Seq::empty()
    } else {
        dead_ids(us.drop_last(), reach) + if reach.contains(us.last().chunk_id@) {
            Seq::empty()
        } else {
            seq![us.last().chunk_id@]
        }
    }
}

/// Texts in lexicographic order.
pub open spec fn text_lt() -> spec_fn(Seq<char>, Seq<char>) -> bool {
    |a: Seq<char>, b: Seq<char>| lex_lt(a, b)
}

/// `chunk:capability` for each capability of a unit outside `reach`.
pub open spec fn unreferenced(us: Seq<DepUnit>, reach: Set<Seq<char>>) -> Set<Seq<char>> {
    Set::new(
        |t: Seq<char>|
            exists|i: int, j: int|
                0 <= i < us.len() && 0 <= j < us[i].capabilities.len() && !reach.contains(us[i].chunk_id@) && t
                    == #[trigger] colon(us[i].chunk_id@, us[i].capabilities@[j]@),
    )
}

spec fn colon_of(u: &DepUnit, k: int) -> Seq<char> {
    colon(u.chunk_id@, u.capabilities@[k]@)
}

fn is_root_kind_exec(kind: &String) -> (r: bool)
    ensures
        r == is_root_kind(kind@),
{
    let k = to_chars(kind.as_str());
    let page = to_chars("page");
    let app = to_chars("app");
    chars_eq(k.as_slice(), page.as_slice()) || chars_eq(k.as_slice(), app.as_slice())
}

fn build_edges(units: &Vec<DepUnit>) -> (r: Vec<(String, Vec<String>)>)
    ensures
        same_edge_texts(r@, unit_edges(units@)),
{
    let mut r: Vec<(String, Vec<String>)> = Vec::new();
    let mut i: usize = 0;
    while i < units.len()
        invariant
            i <= units.len(),
            r.len() == i,
            forall|k: int| 0 <= k < i ==> (#[trigger] r@[k]).0@ == units@[k].chunk_id@ && r@[k].1@ == units@[k].depends_on@,
        decreases units.len() - i,
    {
        r.push((units[i].chunk_id.clone(), clone_strings(units[i].depends_on.as_slice())));
        i = i + 1;
    }
    proof {
        assert forall|k: int| 0 <= k < r@.len() implies (#[trigger] r@[k]).0@ == unit_edges(units@)[k].0@ && r@[k].1@
            == unit_edges(units@)[k].1@ by {
            assert(unit_edges(units@)[k] == (units@[k].chunk_id, units@[k].depends_on));
        }
    }
    r
}

fn insert_text(out: &mut Vec<String>, e: String)
    ensures
        texts(final(out)@) == crate::order::ins_sorted(texts(old(out)@), e@, text_lt()),
{
    let ghost t = texts(out@);
    let mut p: usize = 0;
    while p < out.len() && !(text_order(&e, &out[p]) < 0)
        invariant
            p <= out.len(),
            t == texts(out@),
            forall|k: int| 0 <= k < p ==> !(text_lt())(e@, #[trigger] t[k]),
        decreases out.len() - p,
    {
        p = p + 1;
    }
    proof {
        lemma_ins_sorted_at(t, e@, text_lt(), p as int);
    }
    let ghost ev = e@;
    out.insert(p, e);
    proof {
        assert(texts(out@) =~= t.take(p as int) + seq![ev] + t.skip(p as int));
    }
}

/// `r` is the dead graph of the deployment `units` (`None`: no deployment).
pub open spec fn dead_graph_doc(units: Option<Seq<DepUnit>>, r: DeadGraphDocument) -> bool {
    &&& r.schema@ == DEAD_GRAPH_SCHEMA@
    &&& match units {
        None => r.roots.len() == 0 && r.reachable.len() == 0 && r.dead_chunks.len() == 0
            && r.unreferenced_capabilities.len() == 0 && r.status@ == "empty"@,
        Some(us) => {
            let reach = texts(r.reachable@).to_set();
            &&& strictly_sorted(texts(r.roots@))
            &&& texts(r.roots@).to_set() == root_ids(us)
            &&& strictly_sorted(texts(r.reachable@))
            &&& root_ids(us).subset_of(reach)
            &&& closed_under_edges(unit_edges(us), reach)
            &&& forall|s: Set<Seq<char>>|
                root_ids(us).subset_of(s) && closed_under_edges(unit_edges(us), s) ==> #[trigger] reach.subset_of(s)
            &&& texts(r.dead_chunks@) == stable_sort(dead_ids(us, reach), text_lt())
            &&& strictly_sorted(texts(r.unreferenced_capabilities@))
            &&& texts(r.unreferenced_capabilities@).to_set() == unreferenced(us, reach)
            &&& r.status@ == if us.len() == 0 {
                "empty"@
            } else {
                "ready"@
            }
        },
    }
}

/// From the page and app units along `dependsOn`: the roots, the chunks
/// reached (the least set holding the roots and the dependencies of each
/// member that has a unit), the chunks of the units not reached (sorted)
/// and their capabilities as `chunk:capability`; `None` when there is no
/// deployment.
pub fn plan_dead_graph(units: Option<&Vec<DepUnit>>) -> (r: DeadGraphDocument)
    ensures
        dead_graph_doc(units_view(units), r),
{
    let units = match units {
        None => {
            return DeadGraphDocument {
                schema: String::from_str(DEAD_GRAPH_SCHEMA),
                roots: Vec::new(),
                reachable: Vec::new(),
                dead_chunks: Vec::new(),
                unreferenced_capabilities: Vec::new(),
                status: String::from_str("empty"),
            };
        },
        Some(us) => us,
    };
    let mut roots: Vec<String> = Vec::new();
    let mut i: usize = 0;
    while i < units.len()
        invariant
            i <= units.len(),
            strictly_sorted(texts(roots@)),
            forall|c: Seq<char>| texts(roots@).to_set().contains(c) <==> exists|j: int|
                0 <= j < i && #[trigger] units@[j].chunk_id@ == c && is_root_kind(units@[j].kind@),
        decreases units.len() - i,
    {
        let ghost before = texts(roots@).to_set();
        if is_root_kind_exec(&units[i].kind) {
            insert_sorted_unique(&mut roots, units[i].chunk_id.clone());
        }
        proof {
            assert forall|c: Seq<char>| texts(roots@).to_set().contains(c) <==> exists|j: int|
                0 <= j < i + 1 && #[trigger] units@[j].chunk_id@ == c && is_root_kind(units@[j].kind@) by {
                if exists|j: int| 0 <= j < i + 1 && #[trigger] units@[j].chunk_id@ == c && is_root_kind(units@[j].kind@) {
                    let j = choose|j: int| 0 <= j < i + 1 && #[trigger] units@[j].chunk_id@ == c && is_root_kind(units@[j].kind@);
                    if j < i {
                        assert(before.contains(c));
                    }
                }
            }
        }
        i = i + 1;
    }
    proof {
        assert(texts(roots@).to_set() =~= root_ids(units@));
        assert(seed_set(roots@) =~= root_ids(units@)) by {
            assert forall|c: Seq<char>| seed_set(roots@).contains(c) implies root_ids(units@).contains(c) by {
                let j = choose|j: int| 0 <= j < roots@.len() && #[trigger] roots@[j]@ == c;
                assert(texts(roots@)[j] == c);
                assert(texts(roots@).to_set().contains(c));
            }
            assert forall|c: Seq<char>| root_ids(units@).contains(c) implies seed_set(roots@).contains(c) by {
                assert(texts(roots@).to_set().contains(c));
                let j = choose|j: int| 0 <= j < texts(roots@).len() && texts(roots@)[j] == c;
                assert(roots@[j]@ == c);
            }
        }
    }
    let edges = build_edges(units);
    let reachable = edge_closure(&edges, roots.as_slice());
    let ghost reach = texts(reachable@).to_set();
    proof {
        lemma_closed_same_texts(edges@, unit_edges(units@), reach);
        assert forall|s: Set<Seq<char>>|
            root_ids(units@).subset_of(s) && closed_under_edges(unit_edges(units@), s) implies #[trigger] reach.subset_of(s) by {
            lemma_closed_same_texts(edges@, unit_edges(units@), s);
        }
    }
    let mut dead: Vec<String> = Vec::new();
    let mut i: usize = 0;
    proof {
        assert(units@.take(0) =~= Seq::<DepUnit>::empty());
    }
    while i < units.len()
        invariant
            i <= units.len(),
            reach == texts(reachable@).to_set(),
            texts(dead@) == stable_sort(dead_ids(units@.take(i as int), reach), text_lt()),
        decreases units.len() - i,
    {
        let c = to_chars(units[i].chunk_id.as_str());
        let ghost prev = dead_ids(units@.take(i as int), reach);
        proof {
            assert(units@.take(i + 1).drop_last() =~= units@.take(i as int));
            assert(units@.take(i + 1).last() == units@[i as int]);
        }
        if !texts_contain(&reachable, c.as_slice()) {
            let ghost cv = c@;
            insert_text(&mut dead, units[i].chunk_id.clone());
            proof {
                assert(!reach.contains(cv));
                assert(dead_ids(units@.take(i + 1), reach) =~= prev.push(cv));
                lemma_stable_sort_push(prev, cv, text_lt());
            }
        } else {
            proof {
                assert(reach.contains(c@));
                assert(dead_ids(units@.take(i + 1), reach) =~= prev);
            }
        }
        i = i + 1;
    }
    proof {
        assert(units@.take(units.len() as int) =~= units@);
    }
    let mut unref: Vec<String> = Vec::new();
    let mut i: usize = 0;
    while i < units.len()
        invariant
            i <= units.len(),
            reach == texts(reachable@).to_set(),
            strictly_sorted(texts(unref@)),
            forall|t: Seq<char>| texts(unref@).to_set().contains(t) <==> exists|a: int, b: int|
                0 <= a < i && 0 <= b < units@[a].capabilities.len() && !reach.contains(units@[a].chunk_id@) && t
                    == #[trigger] colon(units@[a].chunk_id@, units@[a].capabilities@[b]@),
        decreases units.len() - i,
    {
        let u = &units[i];
        let c = to_chars(u.chunk_id.as_str());
        let live = texts_contain(&reachable, c.as_slice());
        let ghost at_unit = texts(unref@).to_set();
        let mut k: usize = 0;
        while k < u.capabilities.len()
            invariant
                k <= u.capabilities.len(),
                live == reach.contains(u.chunk_id@),
                strictly_sorted(texts(unref@)),
                forall|t: Seq<char>| #![trigger texts(unref@).to_set().contains(t)] texts(unref@).to_set().contains(t) <==> (at_unit.contains(t) || (!live && exists|b: int|
                    0 <= b < k && t == #[trigger] colon(u.chunk_id@, u.capabilities@[b]@))),
            decreases u.capabilities.len() - k,
        {
            let ghost before = texts(unref@).to_set();
            if !live {
                insert_sorted_unique(&mut unref, colon_exec(&u.chunk_id, &u.capabilities[k]));
            }
            proof {
                if !live {
                    assert(texts(unref@).to_set() == before.insert(colon_of(u, k as int)));
                } else {
                    assert(texts(unref@).to_set() == before);
                }
            }
            proof {
                assert forall|t: Seq<char>| #![trigger texts(unref@).to_set().contains(t)] texts(unref@).to_set().contains(t) <==> (at_unit.contains(t) || (!live
                    && exists|b: int| 0 <= b < k + 1 && t == #[trigger] colon(u.chunk_id@, u.capabilities@[b]@))) by {
                    if !live && exists|b: int| 0 <= b < k + 1 && t == #[trigger] colon(u.chunk_id@, u.capabilities@[b]@) {
                        let b = choose|b: int| 0 <= b < k + 1 && t == #[trigger] colon(u.chunk_id@, u.capabilities@[b]@);
                        if b < k {
                            assert(exists|b2: int| 0 <= b2 < k && t == #[trigger] colon(u.chunk_id@, u.capabilities@[b2]@));
                            assert(before.contains(t));
                        } else {
                            assert(t == colon_of(u, k as int));
                        }
                    }
                    if texts(unref@).to_set().contains(t) && !before.contains(t) {
                        assert(!live && t == colon_of(u, k as int));
                    }
                }
            }
            k = k + 1;
        }
        proof {
            assert forall|t: Seq<char>| texts(unref@).to_set().contains(t) <==> exists|a: int, b: int|
                0 <= a < i + 1 && 0 <= b < units@[a].capabilities.len() && !reach.contains(units@[a].chunk_id@) && t
                    == #[trigger] colon(units@[a].chunk_id@, units@[a].capabilities@[b]@) by {
                if texts(unref@).to_set().contains(t) && !at_unit.contains(t) {
                    let b = choose|b: int| 0 <= b < k && t == #[trigger] colon(u.chunk_id@, u.capabilities@[b]@);
                    assert(t == colon(units@[i as int].chunk_id@, units@[i as int].capabilities@[b]@));
                }
                if exists|a: int, b: int|
                    0 <= a < i + 1 && 0 <= b < units@[a].capabilities.len() && !reach.contains(units@[a].chunk_id@) && t
                        == #[trigger] colon(units@[a].chunk_id@, units@[a].capabilities@[b]@) {
                    let (a, b) = choose|a: int, b: int|
                        0 <= a < i + 1 && 0 <= b < units@[a].capabilities.len() && !reach.contains(units@[a].chunk_id@) && t
                            == #[trigger] colon(units@[a].chunk_id@, units@[a].capabilities@[b]@);
                    if a == i {
                        assert(t == colon(u.chunk_id@, u.capabilities@[b]@));
                    } else {
                        assert(at_unit.contains(t));
                    }
                }
            }
        }
        i = i + 1;
    }
    proof {
        assert(texts(unref@).to_set() =~= unreferenced(units@, reach));
    }
    let status = if units.len() == 0 {
        String::from_str("empty")
    } else {
        String::from_str("ready")
    };
    DeadGraphDocument {
        schema: String::from_str(DEAD_GRAPH_SCHEMA),
        roots,
        reachable,
        dead_chunks: dead,
        unreferenced_capabilities: unref,
        status,
    }
}

/// All four deployment checks and their verdict.
#[derive(Debug, Clone)]
pub struct X4CheckReport {
    pub schema: String,
    pub boundary: BoundaryValidatorDocument,
    pub leakage: LeakageDocument,
    pub capability_targets: CapabilityTargetDocument,
    pub dead_graph: DeadGraphDocument,
    /// `ready` | `failed` | `empty`
    pub status: String,
}

/// The verdict over the four checks: `empty` when all four are, else
/// `failed` when leakage or capability targets failed, else `ready`.
pub open spec fn x4_status(
    boundary: Seq<char>,
    leakage: Seq<char>,
    targets: Seq<char>,
    dead_graph: Seq<char>,
) -> Seq<char> {
    if boundary == "empty"@ && leakage == "empty"@ && targets == "empty"@ && dead_graph == "empty"@ {
        "empty"@
    } else if leakage == "failed"@ || targets == "failed"@ {
        "failed"@
    } else {
        "ready"@
    }
}

fn is_text(s: &String, lit: &str) -> (r: bool)
    ensures
        r == (s@ == lit@),
{
    let a = to_chars(s.as_str());
    let b = to_chars(lit);
    chars_eq(a.as_slice(), b.as_slice())
}

/// Umbrella check over a deployment: boundary validators, leakage,
/// capability targets and dead graph, with the verdict over the four.
pub fn check_dx_x4(units: Option<&Vec<DepUnit>>) -> (r: X4CheckReport)
    ensures
        r.schema@ == X4_CHECK_SCHEMA@,
        boundary_doc(units_view(units), r.boundary),
        leakage_doc(units_view(units), r.leakage),
        targets_doc(units_view(units), r.capability_targets),
        dead_graph_doc(units_view(units), r.dead_graph),
        r.status@ == x4_status(r.boundary.status@, r.leakage.status@, r.capability_targets.status@, r.dead_graph.status@),
{
    let boundary = plan_boundary_validators(units);
    let leakage = plan_leakage(units);
    let capability_targets = plan_capability_targets(units);
    let dead_graph = plan_dead_graph(units);
    let status = if is_text(&boundary.status, "empty") && is_text(&leakage.status, "empty") && is_text(
        &capability_targets.status,
        "empty",
    ) && is_text(&dead_graph.status, "empty") {
        String::from_str("empty")
    } else if is_text(&leakage.status, "failed") || is_text(&capability_targets.status, "failed") {
        String::from_str("failed")
    } else {
        String::from_str("ready")
    };
    X4CheckReport { schema: String::from_str(X4_CHECK_SCHEMA), boundary, leakage, capability_targets, dead_graph, status }
}
/// A boundary document as plain values.
pub open spec fn boundary_doc_view(d: BoundaryValidatorDocument) -> (
    Seq<char>,
    Seq<(Seq<char>, Seq<char>, Seq<char>, Option<Seq<char>>)>,
    Seq<char>,
) {
    (d.schema@, d.validators@.map_values(|v: BoundaryValidatorEntry| validator_view(v)), d.status@)
}

/// A leakage document as plain values.
pub open spec fn leakage_doc_view(d: LeakageDocument) -> (
    Seq<char>,
    Seq<(Seq<char>, Seq<char>, Seq<char>, Option<Seq<char>>, Option<Seq<char>>)>,
    Seq<char>,
) {
    (d.schema@, d.findings@.map_values(|v: LeakageFinding| finding_view(v)), d.status@)
}

/// A conflict as plain values.
pub open spec fn conflict_view(c: CapabilityTargetConflict) -> (Seq<char>, Seq<Seq<char>>, Seq<Seq<char>>) {
    (c.capability@, texts(c.targets@), texts(c.chunk_ids@))
}

/// A capability target document as plain values.
pub open spec fn targets_doc_view(d: CapabilityTargetDocument) -> (
    Seq<char>,
    Seq<(Seq<char>, Seq<char>, Seq<char>, Option<Seq<char>>)>,
    Seq<(Seq<char>, Seq<Seq<char>>, Seq<Seq<char>>)>,
    Seq<char>,
) {
    (
        d.schema@,
        d.targets@.map_values(|v: CapabilityTargetEntry| target_view(v)),
        d.conflicts@.map_values(|c: CapabilityTargetConflict| conflict_view(c)),
        d.status@,
    )
}

/// A dead-graph document as plain values.
pub open spec fn dead_graph_doc_view(d: DeadGraphDocument) -> (
    Seq<char>,
    Seq<Seq<char>>,
    Seq<Seq<char>>,
    Seq<Seq<char>>,
    Seq<Seq<char>>,
    Seq<char>,
) {
    (d.schema@, texts(d.roots@), texts(d.reachable@), texts(d.dead_chunks@), texts(d.unreferenced_capabilities@), d.status@)
}

/// The boundary document of a deployment is fixed by its units.
pub proof fn lemma_boundary_doc_unique(u: Option<Seq<DepUnit>>, a: BoundaryValidatorDocument, b: BoundaryValidatorDocument)
    requires
        boundary_doc(u, a),
        boundary_doc(u, b),
    ensures
        boundary_doc_view(a) == boundary_doc_view(b),
{
    let x = a.validators@.map_values(|v: BoundaryValidatorEntry| validator_view(v));
    let y = b.validators@.map_values(|v: BoundaryValidatorEntry| validator_view(v));
    if u is None {
        assert(x =~= y);
    } else {
        assert(x.len() == a.validators.len() && y.len() == b.validators.len());
    }
}

/// The leakage document of a deployment is fixed by its units.
pub proof fn lemma_leakage_doc_unique(u: Option<Seq<DepUnit>>, a: LeakageDocument, b: LeakageDocument)
    requires
        leakage_doc(u, a),
        leakage_doc(u, b),
    ensures
        leakage_doc_view(a) == leakage_doc_view(b),
{
    if u is None {
        assert(a.findings@.map_values(|v: LeakageFinding| finding_view(v)) =~= b.findings@.map_values(
            |v: LeakageFinding| finding_view(v),
        ));
    } else {
        let x = a.findings@.map_values(|v: LeakageFinding| finding_view(v));
        let y = b.findings@.map_values(|v: LeakageFinding| finding_view(v));
        assert(x.len() == a.findings.len() && y.len() == b.findings.len());
    }
}

proof fn lemma_conflicts_unique(
    ts: Seq<(Seq<char>, Seq<char>, Seq<char>, Option<Seq<char>>)>,
    a: Seq<CapabilityTargetConflict>,
    b: Seq<CapabilityTargetConflict>,
)
    requires
        conflicts_of(ts, a),
        conflicts_of(ts, b),
    ensures
        a.map_values(|c: CapabilityTargetConflict| conflict_view(c)) == b.map_values(
            |c: CapabilityTargetConflict| conflict_view(c),
        ),
{
    let ca = a.map_values(|c: CapabilityTargetConflict| c.capability@);
    let cb = b.map_values(|c: CapabilityTargetConflict| c.capability@);
    assert(ca.to_set() =~= cb.to_set()) by {
        assert forall|x: Seq<char>| ca.to_set().contains(x) <==> cb.to_set().contains(x) by {
            assert(ca.contains(x) <==> in_conflict(ts, x));
            assert(cb.contains(x) <==> in_conflict(ts, x));
        }
    }
    crate::order::lemma_sorted_set_unique(ca, cb);
    assert forall|k: int| 0 <= k < a.len() implies #[trigger] conflict_view(a[k]) == conflict_view(b[k]) by {
        assert(ca[k] == cb[k]);
        let ak = a[k];
        let bk = b[k];
        crate::order::lemma_sorted_set_unique(texts(ak.targets@), texts(bk.targets@));
        crate::order::lemma_sorted_set_unique(texts(ak.chunk_ids@), texts(bk.chunk_ids@));
    }
    assert(a.map_values(|c: CapabilityTargetConflict| conflict_view(c)) =~= b.map_values(
        |c: CapabilityTargetConflict| conflict_view(c),
    ));
}

/// The capability target document of a deployment is fixed by its units.
pub proof fn lemma_targets_doc_unique(u: Option<Seq<DepUnit>>, a: CapabilityTargetDocument, b: CapabilityTargetDocument)
    requires
        targets_doc(u, a),
        targets_doc(u, b),
    ensures
        targets_doc_view(a) == targets_doc_view(b),
{
    let x = a.targets@.map_values(|v: CapabilityTargetEntry| target_view(v));
    let y = b.targets@.map_values(|v: CapabilityTargetEntry| target_view(v));
    let ca = a.conflicts@.map_values(|c: CapabilityTargetConflict| conflict_view(c));
    let cb = b.conflicts@.map_values(|c: CapabilityTargetConflict| conflict_view(c));
    if u is None {
        assert(x =~= y);
        assert(ca =~= cb);
    } else {
        lemma_conflicts_unique(x, a.conflicts@, b.conflicts@);
        assert(x.len() == a.targets.len() && y.len() == b.targets.len());
        assert(ca.len() == a.conflicts.len() && cb.len() == b.conflicts.len());
    }
}

/// The dead-graph document of a deployment is fixed by its units: its
/// reachable set is the least one holding the roots and closed under edges.
pub proof fn lemma_dead_graph_doc_unique(u: Option<Seq<DepUnit>>, a: DeadGraphDocument, b: DeadGraphDocument)
    requires
        dead_graph_doc(u, a),
        dead_graph_doc(u, b),
    ensures
        dead_graph_doc_view(a) == dead_graph_doc_view(b),
{
    match u {
        None => {
            assert(texts(a.roots@) =~= texts(b.roots@));
            assert(texts(a.reachable@) =~= texts(b.reachable@));
            assert(texts(a.dead_chunks@) =~= texts(b.dead_chunks@));
            assert(texts(a.unreferenced_capabilities@) =~= texts(b.unreferenced_capabilities@));
        },
        Some(us) => {
            let ra = texts(a.reachable@).to_set();
            let rb = texts(b.reachable@).to_set();
            assert(ra.subset_of(rb));
            assert(rb.subset_of(ra));
            assert(ra =~= rb);
            crate::order::lemma_sorted_set_unique(texts(a.reachable@), texts(b.reachable@));
            crate::order::lemma_sorted_set_unique(texts(a.roots@), texts(b.roots@));
            crate::order::lemma_sorted_set_unique(texts(a.unreferenced_capabilities@), texts(b.unreferenced_capabilities@));
        },
    }
}

/// The umbrella check's four parts are what the four planners give for the
/// same deployment: any documents the planners' contracts admit equal the
/// report's parts.
pub proof fn lemma_check_dx_x4_parts(
    u: Option<Seq<DepUnit>>,
    report: X4CheckReport,
    b: BoundaryValidatorDocument,
    l: LeakageDocument,
    t: CapabilityTargetDocument,
    d: DeadGraphDocument,
)
    requires
        boundary_doc(u, report.boundary),
        leakage_doc(u, report.leakage),
        targets_doc(u, report.capability_targets),
        dead_graph_doc(u, report.dead_graph),
        boundary_doc(u, b),
        leakage_doc(u, l),
        targets_doc(u, t),
        dead_graph_doc(u, d),
    ensures
        boundary_doc_view(report.boundary) == boundary_doc_view(b),
        leakage_doc_view(report.leakage) == leakage_doc_view(l),
        targets_doc_view(report.capability_targets) == targets_doc_view(t),
        dead_graph_doc_view(report.dead_graph) == dead_graph_doc_view(d),
{
    lemma_boundary_doc_unique(u, report.boundary, b);
    lemma_leakage_doc_unique(u, report.leakage, l);
    lemma_targets_doc_unique(u, report.capability_targets, t);
    lemma_dead_graph_doc_unique(u, report.dead_graph, d);
}

} // verus!
