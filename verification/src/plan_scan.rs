//! Target-neutral Execution Plan check: a plan must not mention DOM or
//! platform APIs, and its nodes must be of the kinds that map to View Ops.

use vstd::prelude::*;
use crate::json::{compact, member, str_field, to_json_text, json_view, json_views, lemma_json_views, Json, JsonValue};
use crate::text::{chars_eq, contains, contains_seq, from_chars, push_all, push_str, to_chars};
use crate::wechat_pack::{decimal, decimal_exec};

verus! {

/// What a plan diagnostic is about.
#[derive(Debug, Clone, Copy, PartialEq, Eq, Structural)]
pub enum PlanCode {
    /// The plan text mentions a DOM or platform API.
    DomLeakInPlan,
    /// A plan node kind has no View Op.
    UnknownViewOp,
}

/// One plan error: the file, its message and its code.
#[derive(Debug, Clone)]
pub struct PlanDiagnostic {
    pub path: String,
    pub message: String,
    pub code: PlanCode,
}

/// A diagnostic as plain values.
pub open spec fn pdiag_view(d: PlanDiagnostic) -> (Seq<char>, Seq<char>, PlanCode) {
    (d.path@, d.message@, d.code)
}

/// Diagnostics as plain values.
pub open spec fn pdiags_view(ds: Seq<PlanDiagnostic>) -> Seq<(Seq<char>, Seq<char>, PlanCode)> {
    ds.map_values(|d: PlanDiagnostic| pdiag_view(d))
}

/// Texts that must never appear in an Execution Plan, in the order they are
/// reported.
pub open spec fn forbidden_tokens() -> Seq<Seq<char>> {
    seq![
        "document.createElement"@,
        "document."@,
        "createElement("@,
        "setAttribute("@,
        "querySelector("@,
        "getElementById("@,
        "innerHTML"@,
        "bindText"@,
        "bindAttr"@,
        "wx."@,
        "my."@,
        "tt."@,
        "window."@,
    ]
}

/// The plan node kinds that map to View Ops.
pub open spec fn allowed_kinds() -> Seq<Seq<char>> {
    seq!["text"@, "interp"@, "element"@, "if"@, "each"@, "component"@, "slot"@, "dispose_region"@]
}

fn forbidden_token(i: usize) -> (r: &'static str)
    requires
        i < 13,
    ensures
        r@ == forbidden_tokens()[i as int],
{
    match i {
        0 => "document.createElement",
        1 => "document.",
        2 => "createElement(",
        3 => "setAttribute(",
        4 => "querySelector(",
        5 => "getElementById(",
        6 => "innerHTML",
        7 => "bindText",
        8 => "bindAttr",
        9 => "wx.",
        10 => "my.",
        11 => "tt.",
        _ => "window.",
    }
}

fn allowed_kind(i: usize) -> (r: &'static str)
    requires
        i < 8,
    ensures
        r@ == allowed_kinds()[i as int],
{
    match i {
        0 => "text",
        1 => "interp",
        2 => "element",
        3 => "if",
        4 => "each",
        5 => "component",
        6 => "slot",
        _ => "dispose_region",
    }
}

/// The plans of the first `n` units (those that have one).
pub open spec fn unit_plans(units: Seq<Json>, n: int) -> Seq<Json>
    decreases n,
{
    if n <= 0 {
        Seq::empty()
    } else {
        let p = unit_plans(units, n - 1);
        match member(units[n - 1], "plan"@) {
            Some(x) => p.push(x),
            None => p,
        }
    }
}

/// The Execution Plans a document holds: its units' plans when it has a
/// `units` array, else its `plan`, else itself when it has `nodes`.
pub open spec fn plans_of(v: Json) -> Seq<Json> {
    match member(v, "units"@) {
        Some(Json::Array(us)) => unit_plans(us, us.len() as int),
        _ => match member(v, "plan"@) {
            Some(p) => seq![p],
            None => if member(v, "nodes"@) is Some {
                seq![v]
            } else {
                Seq::empty()
            },
        },
    }
}

/// Leak errors for the first `k` forbidden tokens that occur in `text`.
pub open spec fn leak_diags(path: Seq<char>, text: Seq<char>, k: int) -> Seq<(Seq<char>, Seq<char>, PlanCode)>
    decreases k,
{
    if k <= 0 {
        Seq::empty()
    } else {
        let p = leak_diags(path, text, k - 1);
        let tok = forbidden_tokens()[k - 1];
        if contains_seq(text, tok) {
            p.push(
                (
                    path,
                    "Execution Plan must not contain `"@ + tok + "` (target-neutral View Ops only; DOM belongs in Browser lowering)"@,
                    PlanCode::DomLeakInPlan,
                ),
            )
        } else {
            p
        }
    }
}

/// Kind errors for the first `k` nodes: a kind other than empty, `pending`
/// or an allowed one.
pub open spec fn kind_diags(path: Seq<char>, nodes: Seq<Json>, k: int) -> Seq<(Seq<char>, Seq<char>, PlanCode)>
    decreases k,
{
    if k <= 0 {
        Seq::empty()
    } else {
        let p = kind_diags(path, nodes, k - 1);
        let kind = str_field(nodes[k - 1], "kind"@, Seq::empty());
        if kind.len() == 0 || kind == "pending"@ || allowed_kinds().contains(kind) {
            p
        } else {
            p.push(
                (
                    path,
                    "unknown PlanNode kind `"@ + kind + "` at nodes["@ + decimal((k - 1) as nat) + "] (not in View Op mapping)"@,
                    PlanCode::UnknownViewOp,
                ),
            )
        }
    }
}

/// The errors of one plan: its leaks, then its node kinds.
pub open spec fn plan_diags(path: Seq<char>, plan: Json) -> Seq<(Seq<char>, Seq<char>, PlanCode)> {
    leak_diags(path, compact(plan), 13)
        + match member(plan, "nodes"@) {
        Some(Json::Array(ns)) => kind_diags(path, ns, ns.len() as int),
        _ => Seq::empty(),
    }
}

/// The errors of the first `k` plans, in order.
pub open spec fn plans_diags(path: Seq<char>, plans: Seq<Json>, k: int) -> Seq<(Seq<char>, Seq<char>, PlanCode)>
    decreases k,
{
    if k <= 0 {
        Seq::empty()
    } else {
        plans_diags(path, plans, k - 1) + plan_diags(path, plans[k - 1])
    }
}

fn push_pdiag(out: &mut Vec<PlanDiagnostic>, d: PlanDiagnostic)
    ensures
        pdiags_view(final(out)@) == pdiags_view(old(out)@).push(pdiag_view(d)),
{
    let ghost before = out@;
    out.push(d);
    proof {
        assert(pdiags_view(out@) =~= pdiags_view(before).push(pdiag_view(d)));
    }
}

fn text_of(s: &str) -> (r: String)
    ensures
        r@ == s@,
{
    from_chars(to_chars(s).as_slice())
}

fn is_allowed_kind(kind: &[char]) -> (r: bool)
    ensures
        r == allowed_kinds().contains(kind@),
{
    let mut i: usize = 0;
    while i < 8
        invariant
            i <= 8,
            forall|j: int| 0 <= j < i ==> allowed_kinds()[j] != kind@,
        decreases 8 - i,
    {
        let k = to_chars(allowed_kind(i));
        if chars_eq(k.as_slice(), kind) {
            proof {
                assert(allowed_kinds()[i as int] == kind@);
            }
            return true;
        }
        i = i + 1;
    }
    proof {
        assert(allowed_kinds().len() == 8);
    }
    false
}

fn scan_plan(path: &str, plan: &JsonValue, out: &mut Vec<PlanDiagnostic>)
    ensures
        pdiags_view(final(out)@) == pdiags_view(old(out)@) + plan_diags(path@, plan@),
{
    let ghost d0 = pdiags_view(out@);
    let text = to_chars(to_json_text(plan).as_str());
    let mut t: usize = 0;
    proof {
        assert(pdiags_view(out@) =~= d0 + leak_diags(path@, compact(plan@), 0));
    }
    while t < 13
        invariant
            t <= 13,
            text@ == compact(plan@),
            pdiags_view(out@) == d0 + leak_diags(path@, compact(plan@), t as int),
        decreases 13 - t,
    {
        let tok = forbidden_token(t);
        if contains(text.as_slice(), to_chars(tok).as_slice()) {
            let mut m = to_chars("Execution Plan must not contain `");
            push_str(&mut m, tok);
            push_str(&mut m, "` (target-neutral View Ops only; DOM belongs in Browser lowering)");
            push_pdiag(out, PlanDiagnostic { path: text_of(path), message: from_chars(m.as_slice()), code: PlanCode::DomLeakInPlan });
        }
        proof {
            assert(pdiags_view(out@) =~= d0 + leak_diags(path@, compact(plan@), t + 1));
        }
        t = t + 1;
    }
    let ghost d1 = pdiags_view(out@);
    match plan.get("nodes") {
        Some(JsonValue::Array(ns)) => {
            proof {
                lemma_json_views(ns@);
            }
            let ghost nv = json_views(ns@);
            let mut i: usize = 0;
            proof {
                assert(pdiags_view(out@) =~= d1 + kind_diags(path@, nv, 0));
            }
            while i < ns.len()
                invariant
                    i <= ns.len(),
                    nv == json_views(ns@),
                    nv.len() == ns@.len(),
                    forall|j: int| 0 <= j < ns@.len() ==> #[trigger] nv[j] == json_view(ns@[j]),
                    pdiags_view(out@) == d1 + kind_diags(path@, nv, i as int),
                decreases ns.len() - i,
            {
                let n = &ns[i];
                proof {
                    assert(nv[i as int] == n@);
                    reveal_strlit("");
                }
                let kind = match n.get("kind") {
                    Some(JsonValue::Str(k)) => to_chars(k.as_str()),
                    _ => Vec::new(),
                };
                proof {
                    assert(kind@ == str_field(n@, "kind"@, Seq::empty()));
                }
                let pending = to_chars("pending");
                if kind.len() != 0 && !chars_eq(kind.as_slice(), pending.as_slice()) && !is_allowed_kind(kind.as_slice()) {
                    let mut m = to_chars("unknown PlanNode kind `");
                    push_all(&mut m, kind.as_slice());
                    push_str(&mut m, "` at nodes[");
                    let d = decimal_exec(i as u64);
                    push_all(&mut m, d.as_slice());
                    push_str(&mut m, "] (not in View Op mapping)");
                    push_pdiag(out, PlanDiagnostic { path: text_of(path), message: from_chars(m.as_slice()), code: PlanCode::UnknownViewOp });
                }
                proof {
                    assert(pdiags_view(out@) =~= d1 + kind_diags(path@, nv, i + 1));
                }
                i = i + 1;
            }
            proof {
                assert(pdiags_view(out@) =~= d0 + plan_diags(path@, plan@));
            }
        },
        _ => {
            proof {
                assert(pdiags_view(out@) =~= d0 + plan_diags(path@, plan@));
            }
        },
    }
}

/// Scan a document (an Execution Plan, or a program with unit plans) for
/// DOM and platform leaks and for node kinds without a View Op; errors are
/// appended for `path`, plan by plan.
pub fn scan_plan_value_for_dom_leaks(path: &str, value: &JsonValue, out: &mut Vec<PlanDiagnostic>)
    ensures
        pdiags_view(final(out)@) == pdiags_view(old(out)@) + plans_diags(path@, plans_of(value@), plans_of(value@).len() as int),
{
    let mut plans: Vec<&JsonValue> = Vec::new();
    match value.get("units") {
        Some(JsonValue::Array(us)) => {
            proof {
                lemma_json_views(us@);
            }
            let ghost uv = json_views(us@);
            let mut i: usize = 0;
            while i < us.len()
                invariant
                    i <= us.len(),
                    uv == json_views(us@),
                    uv.len() == us@.len(),
                    forall|j: int| 0 <= j < us@.len() ==> #[trigger] uv[j] == json_view(us@[j]),
                    plans@.map_values(|p: &JsonValue| p@) == unit_plans(uv, i as int),
                decreases us.len() - i,
            {
                proof {
                    assert(uv[i as int] == us@[i as int]@);
                }
                match us[i].get("plan") {
                    Some(p) => {
                        let ghost before = plans@.map_values(|p: &JsonValue| p@);
                        plans.push(p);
                        proof {
                            assert(plans@.map_values(|p: &JsonValue| p@) =~= before.push(p@));
                        }
                    },
                    None => {},
                }
                i = i + 1;
            }
        },
        _ => match value.get("plan") {
            Some(p) => {
                plans.push(p);
                proof {
                    assert(plans@.map_values(|p: &JsonValue| p@) =~= seq![p@]);
                }
            },
            None => {
                if value.get("nodes").is_some() {
                    plans.push(value);
                    proof {
                        assert(plans@.map_values(|p: &JsonValue| p@) =~= seq![value@]);
                    }
                } else {
                    proof {
                        assert(plans@.map_values(|p: &JsonValue| p@) =~= Seq::<Json>::empty());
                    }
                }
            },
        },
    }
    let ghost pv = plans@.map_values(|p: &JsonValue| p@);
    proof {
        assert(pv == plans_of(value@));
    }
    let ghost d0 = pdiags_view(out@);
    let mut k: usize = 0;
    proof {
        assert(pdiags_view(out@) =~= d0 + plans_diags(path@, pv, 0));
    }
    while k < plans.len()
        invariant
            k <= plans.len(),
            pv == plans@.map_values(|p: &JsonValue| p@),
            pdiags_view(out@) == d0 + plans_diags(path@, pv, k as int),
        decreases plans.len() - k,
    {
        scan_plan(path, plans[k], out);
        proof {
            assert(pv[k as int] == plans@[k as int]@);
            assert(pdiags_view(out@) =~= d0 + plans_diags(path@, pv, k + 1));
        }
        k = k + 1;
    }
}

} // verus!
