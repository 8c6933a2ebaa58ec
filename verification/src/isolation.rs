//! Application isolation: every application gets its own runtime, style,
//! state, server, session, storage, trace and inspector namespace, and a
//! failure-containment proof per mounted application (the host and every
//! sibling survive its failure; its mount answers a structured 503).
//! Shared package bytes are allowed; shared runtime semantics are not.

use vstd::prelude::*;
use crate::order::{ins_sorted, texts, texts_contain, lemma_ins_sorted_at, lemma_stable_sort_elems, lemma_stable_sort_push, lex_lt, stable_sort, text_order};
use crate::text::{chars_eq, from_chars, has_prefix, push_str, starts_with, to_chars};

verus! {

/// The surfaces an isolation report covers.
pub const ISOLATION_SURFACES: [&'static str; 8] = ["runtime", "style", "state", "server", "session", "storage", "trace", "failure"];

/// What an isolation diagnostic is about.
#[derive(Debug, Clone, Copy, PartialEq, Eq, Structural)]
pub enum IsolationDiagCode {
    /// A namespace is missing, shared or not scoped by its ApplicationId.
    IsolationUnproven,
    /// One executable belongs to two applications.
    CrossRuntimeReference,
    /// A failure-containment proof does not hold.
    FailureContainment,
    /// A proxy dispatch case, or the 503 of an unavailable mount, is not
    /// proven.
    ProxyMisroute,
}

/// One isolation error: the subject it is about, its message and its code.
#[derive(Debug, Clone)]
pub struct ApplicationDiagnostic {
    pub path: String,
    pub message: String,
    pub code: IsolationDiagCode,
}

/// A diagnostic as plain values.
pub open spec fn diag_view(d: ApplicationDiagnostic) -> (Seq<char>, Seq<char>, IsolationDiagCode) {
    (d.path@, d.message@, d.code)
}

/// Diagnostics as plain values.
pub open spec fn diags_view(ds: Seq<ApplicationDiagnostic>) -> Seq<(Seq<char>, Seq<char>, IsolationDiagCode)> {
    ds.map_values(|d: ApplicationDiagnostic| diag_view(d))
}

/// What isolation reads of an application artifact.
#[derive(Debug, Clone)]
pub struct ArtifactIdentity {
    pub application_id: String,
    pub executable_module_id: String,
    pub package_root: Option<String>,
}

/// One entry of the host mount table.
#[derive(Debug, Clone)]
pub struct MountEntry {
    pub application_id: String,
    pub route_base: String,
}

/// The namespaces of one application.
#[derive(Debug, Clone)]
pub struct IsolationNamespace {
    pub application_id: String,
    pub runtime: String,
    pub style: String,
    pub state: String,
    pub server: String,
    pub session: String,
    pub storage: String,
    pub trace: String,
    pub inspector_regions: String,
}

/// A namespace as plain values: the ApplicationId, then the runtime, style,
/// state, server, session, storage, trace and inspector namespaces.
pub open spec fn ns_view(ns: IsolationNamespace) -> Seq<Seq<char>> {
    seq![
        ns.application_id@,
        ns.runtime@,
        ns.style@,
        ns.state@,
        ns.server@,
        ns.session@,
        ns.storage@,
        ns.trace@,
        ns.inspector_regions@,
    ]
}

/// Namespaces as plain values.
pub open spec fn ns_views(s: Seq<IsolationNamespace>) -> Seq<Seq<Seq<char>>> {
    s.map_values(|ns: IsolationNamespace| ns_view(ns))
}

/// The package root of an artifact, or empty text.
pub open spec fn root_text(a: ArtifactIdentity) -> Seq<char> {
    match a.package_root {
        Some(p) => p@,
        None => Seq::empty(),
    }
}

/// The name of namespace surface `k` (0 to 7).
pub open spec fn surface_name(k: int) -> Seq<char> {
    if k == 0 {
        "runtime"@
    } else if k == 1 {
        "style"@
    } else if k == 2 {
        "state"@
    } else if k == 3 {
        "server"@
    } else if k == 4 {
        "session"@
    } else if k == 5 {
        "storage"@
    } else if k == 6 {
        "trace"@
    } else {
        "inspector"@
    }
}

/// The fixed head of namespace surface `k`.
pub open spec fn surface_head(k: int) -> Seq<char> {
    if k == 0 {
        "vmz:runtime:"@
    } else if k == 1 {
        "vmz:style:"@
    } else if k == 2 {
        "vmz:state:"@
    } else if k == 3 {
        "vmz:server:"@
    } else if k == 4 {
        "vmz:session:"@
    } else if k == 5 {
        "vmz:storage:"@
    } else if k == 6 {
        "vmz:trace:"@
    } else {
        "vmz:inspector:"@
    }
}

/// The ApplicationId scope of surface `k`: the runtime namespace starts with
/// `vmz:runtime:<id>:`, every other one is exactly `vmz:<surface>:<id>`.
pub open spec fn scope_of(id: Seq<char>, k: int) -> Seq<char> {
    if k == 0 {
        surface_head(0) + id + ":"@
    } else {
        surface_head(k) + id
    }
}

/// The namespaces of application `id` whose executable is `exec`.
pub open spec fn scoped_ns(id: Seq<char>, exec: Seq<char>) -> Seq<Seq<char>> {
    seq![
        id,
        scope_of(id, 0) + exec,
        scope_of(id, 1),
        scope_of(id, 2),
        scope_of(id, 3),
        scope_of(id, 4),
        scope_of(id, 5),
        scope_of(id, 6),
        scope_of(id, 7),
    ]
}

/// An ApplicationId that isolation can scope: not empty and not `unknown`.
pub open spec fn explicit_id(id: Seq<char>) -> bool {
    id.len() > 0 && id != "unknown"@
}

/// Namespaces ordered by ApplicationId.
pub open spec fn ns_lt() -> spec_fn(Seq<Seq<char>>, Seq<Seq<char>>) -> bool {
    |a: Seq<Seq<char>>, b: Seq<Seq<char>>| lex_lt(a[0], b[0])
}

/// The namespaces of the artifacts with an explicit ApplicationId, in artifact order.
pub open spec fn kept_namespaces(arts: Seq<ArtifactIdentity>) -> Seq<Seq<Seq<char>>>
    decreases arts.len(),
{
    if arts.len() == 0 {
        Seq::empty()
    } else {
        let p = kept_namespaces(arts.drop_last());
        let a = arts.last();
        if explicit_id(a.application_id@) {
            p.push(scoped_ns(a.application_id@, a.executable_module_id@))
        } else {
            p
        }
    }
}

/// The namespaces built for the artifacts: those of the artifacts with an
/// explicit ApplicationId, stably sorted by ApplicationId.
pub open spec fn built_namespaces(arts: Seq<ArtifactIdentity>) -> Seq<Seq<Seq<char>>> {
    stable_sort(kept_namespaces(arts), ns_lt())
}

/// One error per artifact without an explicit ApplicationId, in artifact order.
pub open spec fn unproven_id_diags(arts: Seq<ArtifactIdentity>) -> Seq<(Seq<char>, Seq<char>, IsolationDiagCode)>
    decreases arts.len(),
{
    if arts.len() == 0 {
        Seq::empty()
    } else {
        let p = unproven_id_diags(arts.drop_last());
        let a = arts.last();
        if explicit_id(a.application_id@) {
            p
        } else {
            p.push((root_text(a), "isolation requires an explicit ApplicationId"@, IsolationDiagCode::IsolationUnproven))
        }
    }
}

fn cat2(a: &str, b: &str) -> (r: String)
    ensures
        r@ == a@ + b@,
{
    let mut v = to_chars(a);
    push_str(&mut v, b);
    from_chars(v.as_slice())
}

fn cat3(a: &str, b: &str, c: &str) -> (r: String)
    ensures
        r@ == a@ + b@ + c@,
{
    let mut v = to_chars(a);
    push_str(&mut v, b);
    push_str(&mut v, c);
    from_chars(v.as_slice())
}

fn cat4(a: &str, b: &str, c: &str, d: &str) -> (r: String)
    ensures
        r@ == a@ + b@ + c@ + d@,
{
    let mut v = to_chars(a);
    push_str(&mut v, b);
    push_str(&mut v, c);
    push_str(&mut v, d);
    from_chars(v.as_slice())
}

fn text_eq(a: &str, b: &str) -> (r: bool)
    ensures
        r == (a@ == b@),
{
    let x = to_chars(a);
    let y = to_chars(b);
    chars_eq(x.as_slice(), y.as_slice())
}

fn root_string(a: &ArtifactIdentity) -> (r: String)
    ensures
        r@ == root_text(*a),
{
    match &a.package_root {
        Some(p) => p.clone(),
        None => String::new(),
    }
}

/// The namespaces of application `id` whose executable is `exec`.
pub fn scoped_namespace(id: &String, exec: &String) -> (ns: IsolationNamespace)
    ensures
        ns_view(ns) == scoped_ns(id@, exec@),
{
    let ns = IsolationNamespace {
        application_id: id.clone(),
        runtime: cat4("vmz:runtime:", id.as_str(), ":", exec.as_str()),
        style: cat2("vmz:style:", id.as_str()),
        state: cat2("vmz:state:", id.as_str()),
        server: cat2("vmz:server:", id.as_str()),
        session: cat2("vmz:session:", id.as_str()),
        storage: cat2("vmz:storage:", id.as_str()),
        trace: cat2("vmz:trace:", id.as_str()),
        inspector_regions: cat2("vmz:inspector:", id.as_str()),
    };
    assert(ns_view(ns) =~= scoped_ns(id@, exec@));
    ns
}

/// Insert a namespace at its place by ApplicationId (after equal ids).
fn insert_namespace(out: &mut Vec<IsolationNamespace>, ns: IsolationNamespace)
    ensures
        ns_views(final(out)@) == ins_sorted(ns_views(old(out)@), ns_view(ns), ns_lt()),
{
    let ghost t = ns_views(out@);
    let ghost x = ns_view(ns);
    let mut p: usize = 0;
    while p < out.len() && text_order(&ns.application_id, &out[p].application_id) >= 0
        invariant
            p <= out.len(),
            t == ns_views(out@),
            x == ns_view(ns),
            forall|j: int| 0 <= j < p ==> !(ns_lt())(x, #[trigger] t[j]),
        decreases out.len() - p,
    {
        p = p + 1;
    }
    proof {
        lemma_ins_sorted_at(t, x, ns_lt(), p as int);
    }
    out.insert(p, ns);
    proof {
        assert(ns_views(out@) =~= t.take(p as int) + seq![x] + t.skip(p as int));
    }
}

/// The namespaces of the artifacts, sorted by ApplicationId; an artifact
/// without an explicit ApplicationId gets none and an error at its package root.
pub fn build_namespaces(artifacts: &[ArtifactIdentity], diagnostics: &mut Vec<ApplicationDiagnostic>) -> (out: Vec<IsolationNamespace>)
    ensures
        ns_views(out@) == built_namespaces(artifacts@),
        diags_view(final(diagnostics)@) == diags_view(old(diagnostics)@) + unproven_id_diags(artifacts@),
{
    let mut out: Vec<IsolationNamespace> = Vec::new();
    let mut i: usize = 0;
    while i < artifacts.len()
        invariant
            i <= artifacts.len(),
            ns_views(out@) == stable_sort(kept_namespaces(artifacts@.take(i as int)), ns_lt()),
            diags_view(diagnostics@) == diags_view(old(diagnostics)@) + unproven_id_diags(artifacts@.take(i as int)),
        decreases artifacts.len() - i,
    {
        let a = &artifacts[i];
        let ghost pre = artifacts@.take(i as int);
        proof {
            assert(artifacts@.take(i + 1).drop_last() =~= pre);
            assert(artifacts@.take(i + 1).last() == *a);
        }
        let unknown = text_eq(a.application_id.as_str(), "unknown");
        let idc = to_chars(a.application_id.as_str());
        if idc.len() == 0 || unknown {
            let d = ApplicationDiagnostic {
                path: root_string(a),
                message: String::from_str("isolation requires an explicit ApplicationId"),
                code: IsolationDiagCode::IsolationUnproven,
            };
            let ghost before = diagnostics@;
            diagnostics.push(d);
            proof {
                assert(diags_view(diagnostics@) =~= diags_view(before).push(diag_view(d)));
            }
        } else {
            let ns = scoped_namespace(&a.application_id, &a.executable_module_id);
            proof {
                lemma_stable_sort_push(kept_namespaces(pre), ns_view(ns), ns_lt());
            }
            insert_namespace(&mut out, ns);
        }
        i = i + 1;
    }
    proof {
        assert(artifacts@.take(artifacts@.len() as int) =~= artifacts@);
    }
    out
}

/// The ApplicationId of the last namespace before `i` whose surface `k`
/// holds `v`.
pub open spec fn prev_holder(nss: Seq<Seq<Seq<char>>>, i: int, k: int, v: Seq<char>) -> Option<Seq<char>>
    decreases i,
{
    if i <= 0 {
        None
    } else if nss[i - 1][k + 1] == v {
        Some(nss[i - 1][0])
    } else {
        prev_holder(nss, i - 1, k, v)
    }
}

/// The error when surface `k` of namespace `i` already belongs to another application.
pub open spec fn shared_diag(nss: Seq<Seq<Seq<char>>>, i: int, k: int) -> Seq<(Seq<char>, Seq<char>, IsolationDiagCode)> {
    let id = nss[i][0];
    let v = nss[i][k + 1];
    match prev_holder(nss, i, k, v) {
        Some(prev) => if prev != id {
            seq![(
                id,
                surface_name(k) + " namespace `"@ + v + "` shared by `"@ + prev + "` and `"@ + id
                    + "` (runtime semantics must not be shared)"@,
                IsolationDiagCode::IsolationUnproven,
            )]
        } else {
            Seq::empty()
        },
        None => Seq::empty(),
    }
}

/// The sharing errors of surfaces `0..k` of namespace `i`.
pub open spec fn ns_shared_diags(nss: Seq<Seq<Seq<char>>>, i: int, k: int) -> Seq<(Seq<char>, Seq<char>, IsolationDiagCode)>
    decreases k,
{
    if k <= 0 {
        Seq::empty()
    } else {
        ns_shared_diags(nss, i, k - 1) + shared_diag(nss, i, k - 1)
    }
}

/// The sharing errors of the first `n` namespaces, namespace by namespace
/// and surface by surface.
pub open spec fn shared_diags(nss: Seq<Seq<Seq<char>>>, n: int) -> Seq<(Seq<char>, Seq<char>, IsolationDiagCode)>
    decreases n,
{
    if n <= 0 {
        Seq::empty()
    } else {
        shared_diags(nss, n - 1) + ns_shared_diags(nss, n - 1, 8)
    }
}

/// Value `v` of surface `k` is scoped by ApplicationId `id`.
pub open spec fn scoped_ok(v: Seq<char>, id: Seq<char>, k: int) -> bool {
    if k == 0 {
        has_prefix(v, scope_of(id, 0))
    } else {
        v == scope_of(id, k)
    }
}

/// The error when surface `k` of namespace `i` is not scoped by its ApplicationId.
pub open spec fn prefix_diag(nss: Seq<Seq<Seq<char>>>, i: int, k: int) -> Seq<(Seq<char>, Seq<char>, IsolationDiagCode)> {
    let id = nss[i][0];
    let v = nss[i][k + 1];
    if scoped_ok(v, id, k) {
        Seq::empty()
    } else {
        seq![(
            id,
            surface_name(k) + " namespace `"@ + v + "` is not ApplicationId-scoped (want `"@ + scope_of(id, k) + "`)"@,
            IsolationDiagCode::IsolationUnproven,
        )]
    }
}

/// The scope errors of surfaces `0..k` of namespace `i`.
pub open spec fn ns_prefix_diags(nss: Seq<Seq<Seq<char>>>, i: int, k: int) -> Seq<(Seq<char>, Seq<char>, IsolationDiagCode)>
    decreases k,
{
    if k <= 0 {
        Seq::empty()
    } else {
        ns_prefix_diags(nss, i, k - 1) + prefix_diag(nss, i, k - 1)
    }
}

/// The scope errors of the first `n` namespaces.
pub open spec fn prefix_diags(nss: Seq<Seq<Seq<char>>>, n: int) -> Seq<(Seq<char>, Seq<char>, IsolationDiagCode)>
    decreases n,
{
    if n <= 0 {
        Seq::empty()
    } else {
        prefix_diags(nss, n - 1) + ns_prefix_diags(nss, n - 1, 8)
    }
}

fn ns_field(ns: &IsolationNamespace, k: usize) -> (r: &String)
    requires
        k < 8,
    ensures
        r@ == ns_view(*ns)[k + 1],
{
    if k == 0 {
        &ns.runtime
    } else if k == 1 {
        &ns.style
    } else if k == 2 {
        &ns.state
    } else if k == 3 {
        &ns.server
    } else if k == 4 {
        &ns.session
    } else if k == 5 {
        &ns.storage
    } else if k == 6 {
        &ns.trace
    } else {
        &ns.inspector_regions
    }
}

fn surface_label(k: usize) -> (r: &'static str)
    ensures
        r@ == surface_name(k as int),
{
    if k == 0 {
        "runtime"
    } else if k == 1 {
        "style"
    } else if k == 2 {
        "state"
    } else if k == 3 {
        "server"
    } else if k == 4 {
        "session"
    } else if k == 5 {
        "storage"
    } else if k == 6 {
        "trace"
    } else {
        "inspector"
    }
}

fn surface_head_str(k: usize) -> (r: &'static str)
    ensures
        r@ == surface_head(k as int),
{
    if k == 0 {
        "vmz:runtime:"
    } else if k == 1 {
        "vmz:style:"
    } else if k == 2 {
        "vmz:state:"
    } else if k == 3 {
        "vmz:server:"
    } else if k == 4 {
        "vmz:session:"
    } else if k == 5 {
        "vmz:storage:"
    } else if k == 6 {
        "vmz:trace:"
    } else {
        "vmz:inspector:"
    }
}

/// The scope of surface `k` for ApplicationId `id`.
fn scope_string(id: &str, k: usize) -> (r: String)
    ensures
        r@ == scope_of(id@, k as int),
{
    if k == 0 {
        cat3(surface_head_str(0), id, ":")
    } else {
        cat2(surface_head_str(k), id)
    }
}

fn push_diag(diagnostics: &mut Vec<ApplicationDiagnostic>, d: ApplicationDiagnostic)
    ensures
        diags_view(final(diagnostics)@) == diags_view(old(diagnostics)@).push(diag_view(d)),
{
    let ghost before = diagnostics@;
    diagnostics.push(d);
    proof {
        assert(diags_view(diagnostics@) =~= diags_view(before).push(diag_view(d)));
    }
}

fn prev_holder_exec(nss: &[IsolationNamespace], i: usize, k: usize, v: &String) -> (r: Option<String>)
    requires
        i <= nss.len(),
        k < 8,
    ensures
        match r {
            Some(p) => prev_holder(ns_views(nss@), i as int, k as int, v@) == Some(p@),
            None => prev_holder(ns_views(nss@), i as int, k as int, v@) is None,
        },
{
    let ghost t = ns_views(nss@);
    let mut j: usize = i;
    while j > 0
        invariant
            j <= i <= nss.len(),
            k < 8,
            t == ns_views(nss@),
            prev_holder(t, i as int, k as int, v@) == prev_holder(t, j as int, k as int, v@),
        decreases j,
    {
        let f = ns_field(&nss[j - 1], k);
        let same = text_eq(f.as_str(), v.as_str());
        if same {
            return Some(nss[j - 1].application_id.clone());
        }
        j = j - 1;
    }
    None
}

/// Errors for every surface value that two applications share: for each
/// namespace and surface, the last earlier namespace holding the same value
/// must belong to the same application.
pub fn validate_namespace_uniqueness(namespaces: &[IsolationNamespace], diagnostics: &mut Vec<ApplicationDiagnostic>)
    ensures
        diags_view(final(diagnostics)@) == diags_view(old(diagnostics)@) + shared_diags(
            ns_views(namespaces@),
            namespaces@.len() as int,
        ),
{
    let ghost t = ns_views(namespaces@);
    let mut i: usize = 0;
    while i < namespaces.len()
        invariant
            i <= namespaces.len(),
            t == ns_views(namespaces@),
            diags_view(diagnostics@) == diags_view(old(diagnostics)@) + shared_diags(t, i as int),
        decreases namespaces.len() - i,
    {
        let ns = &namespaces[i];
        let mut k: usize = 0;
        while k < 8
            invariant
                i < namespaces.len(),
                k <= 8,
                t == ns_views(namespaces@),
                *ns == namespaces@[i as int],
                diags_view(diagnostics@) == diags_view(old(diagnostics)@) + shared_diags(t, i as int) + ns_shared_diags(
                    t,
                    i as int,
                    k as int,
                ),
            decreases 8 - k,
        {
            let v = ns_field(ns, k);
            let prev = prev_holder_exec(namespaces, i, k, v);
            proof {
                assert(t[i as int] == ns_view(*ns));
            }
            match prev {
                Some(p) => {
                    if !text_eq(p.as_str(), ns.application_id.as_str()) {
                        let mut m = to_chars(surface_label(k));
                        push_str(&mut m, " namespace `");
                        push_str(&mut m, v.as_str());
                        push_str(&mut m, "` shared by `");
                        push_str(&mut m, p.as_str());
                        push_str(&mut m, "` and `");
                        push_str(&mut m, ns.application_id.as_str());
                        push_str(&mut m, "` (runtime semantics must not be shared)");
                        let d = ApplicationDiagnostic {
                            path: ns.application_id.clone(),
                            message: from_chars(m.as_slice()),
                            code: IsolationDiagCode::IsolationUnproven,
                        };
                        push_diag(diagnostics, d);
                    }
                },
                None => {},
            }
            proof {
                assert(ns_shared_diags(t, i as int, k + 1) == ns_shared_diags(t, i as int, k as int) + shared_diag(t, i as int, k as int));
            }
            k = k + 1;
        }
        i = i + 1;
    }
}

/// Errors for every namespace value that is not scoped by its ApplicationId.
pub fn validate_namespace_prefixes(namespaces: &[IsolationNamespace], diagnostics: &mut Vec<ApplicationDiagnostic>)
    ensures
        diags_view(final(diagnostics)@) == diags_view(old(diagnostics)@) + prefix_diags(
            ns_views(namespaces@),
            namespaces@.len() as int,
        ),
{
    let ghost t = ns_views(namespaces@);
    let mut i: usize = 0;
    while i < namespaces.len()
        invariant
            i <= namespaces.len(),
            t == ns_views(namespaces@),
            diags_view(diagnostics@) == diags_view(old(diagnostics)@) + prefix_diags(t, i as int),
        decreases namespaces.len() - i,
    {
        let ns = &namespaces[i];
        let mut k: usize = 0;
        while k < 8
            invariant
                i < namespaces.len(),
                k <= 8,
                t == ns_views(namespaces@),
                *ns == namespaces@[i as int],
                diags_view(diagnostics@) == diags_view(old(diagnostics)@) + prefix_diags(t, i as int) + ns_prefix_diags(
                    t,
                    i as int,
                    k as int,
                ),
            decreases 8 - k,
        {
            let v = ns_field(ns, k);
            let want = scope_string(ns.application_id.as_str(), k);
            let vc = to_chars(v.as_str());
            let wc = to_chars(want.as_str());
            let ok = if k == 0 {
                starts_with(vc.as_slice(), wc.as_slice())
            } else {
                chars_eq(vc.as_slice(), wc.as_slice())
            };
            proof {
                assert(t[i as int] == ns_view(*ns));
            }
            if !ok {
                let mut m = to_chars(surface_label(k));
                push_str(&mut m, " namespace `");
                push_str(&mut m, v.as_str());
                push_str(&mut m, "` is not ApplicationId-scoped (want `");
                push_str(&mut m, want.as_str());
                push_str(&mut m, "`)");
                let d = ApplicationDiagnostic {
                    path: ns.application_id.clone(),
                    message: from_chars(m.as_slice()),
                    code: IsolationDiagCode::IsolationUnproven,
                };
                push_diag(diagnostics, d);
            }
            proof {
                assert(ns_prefix_diags(t, i as int, k + 1) == ns_prefix_diags(t, i as int, k as int) + prefix_diag(t, i as int, k as int));
            }
            k = k + 1;
        }
        i = i + 1;
    }
}

/// A namespace whose every surface is scoped by its ApplicationId.
pub open spec fn well_scoped(x: Seq<Seq<char>>) -> bool {
    &&& x.len() == 9
    &&& forall|k: int| 0 <= k < 8 ==> scoped_ok(#[trigger] x[k + 1], x[0], k)
}

proof fn lemma_scoped_ns_well_scoped(id: Seq<char>, exec: Seq<char>)
    ensures
        well_scoped(scoped_ns(id, exec)),
{
    let x = scoped_ns(id, exec);
    assert((scope_of(id, 0) + exec).take(scope_of(id, 0).len() as int) =~= scope_of(id, 0));
    assert forall|k: int| 0 <= k < 8 implies scoped_ok(#[trigger] x[k + 1], x[0], k) by {
        if k == 0 {
        } else if k == 1 {
        } else if k == 2 {
        } else if k == 3 {
        } else if k == 4 {
        } else if k == 5 {
        } else if k == 6 {
        } else {
        }
    }
}

proof fn lemma_kept_well_scoped(arts: Seq<ArtifactIdentity>)
    ensures
        forall|x: Seq<Seq<char>>| #[trigger] kept_namespaces(arts).contains(x) ==> well_scoped(x)
            && exists|j: int| 0 <= j < arts.len() && x[0] == #[trigger] arts[j].application_id@,
    decreases arts.len(),
{
    if arts.len() > 0 {
        let p = arts.drop_last();
        lemma_kept_well_scoped(p);
        let a = arts.last();
        lemma_scoped_ns_well_scoped(a.application_id@, a.executable_module_id@);
        assert forall|x: Seq<Seq<char>>| #[trigger] kept_namespaces(arts).contains(x) implies well_scoped(x)
            && exists|j: int| 0 <= j < arts.len() && x[0] == #[trigger] arts[j].application_id@ by {
            if kept_namespaces(p).contains(x) {
                let j = choose|j: int| 0 <= j < p.len() && x[0] == #[trigger] p[j].application_id@;
                assert(arts[j] == p[j]);
            } else {
                let q = kept_namespaces(p);
                let k = choose|k: int| 0 <= k < kept_namespaces(arts).len() && kept_namespaces(arts)[k] == x;
                if explicit_id(a.application_id@) {
                    assert(q.push(scoped_ns(a.application_id@, a.executable_module_id@))[k] == x);
                    if k < q.len() {
                        assert(q[k] == x);
                        assert(q.contains(x));
                    }
                    assert(x == scoped_ns(a.application_id@, a.executable_module_id@));
                    assert(arts[arts.len() - 1] == a);
                } else {
                    assert(q[k] == x);
                    assert(q.contains(x));
                }
            }
        }
    }
}

proof fn lemma_built_well_scoped(arts: Seq<ArtifactIdentity>)
    ensures
        forall|i: int| 0 <= i < built_namespaces(arts).len() ==> well_scoped(#[trigger] built_namespaces(arts)[i])
            && exists|j: int| 0 <= j < arts.len() && built_namespaces(arts)[i][0] == #[trigger] arts[j].application_id@,
{
    lemma_kept_well_scoped(arts);
    lemma_stable_sort_elems(kept_namespaces(arts), ns_lt());
    assert forall|i: int| 0 <= i < built_namespaces(arts).len() implies well_scoped(#[trigger] built_namespaces(arts)[i])
        && exists|j: int| 0 <= j < arts.len() && built_namespaces(arts)[i][0] == #[trigger] arts[j].application_id@ by {
        assert(built_namespaces(arts).contains(built_namespaces(arts)[i]));
        assert(kept_namespaces(arts).contains(built_namespaces(arts)[i]));
    }
}

proof fn lemma_no_prefix_diags(nss: Seq<Seq<Seq<char>>>, n: int)
    requires
        0 <= n <= nss.len(),
        forall|i: int| 0 <= i < nss.len() ==> well_scoped(#[trigger] nss[i]),
    ensures
        prefix_diags(nss, n) == Seq::<(Seq<char>, Seq<char>, IsolationDiagCode)>::empty(),
    decreases n,
{
    if n > 0 {
        lemma_no_prefix_diags(nss, n - 1);
        let i = n - 1;
        assert(well_scoped(nss[i]));
        assert forall|k: int| 0 <= k <= 8 implies ns_prefix_diags(nss, i, k) == Seq::<(Seq<char>, Seq<char>, IsolationDiagCode)>::empty() by {
            lemma_ns_prefix_empty(nss, i, k);
        }
        assert(ns_prefix_diags(nss, i, 8) == Seq::<(Seq<char>, Seq<char>, IsolationDiagCode)>::empty());
        assert(prefix_diags(nss, n) =~= Seq::<(Seq<char>, Seq<char>, IsolationDiagCode)>::empty());
    }
}

proof fn lemma_ns_prefix_empty(nss: Seq<Seq<Seq<char>>>, i: int, k: int)
    requires
        0 <= i < nss.len(),
        0 <= k <= 8,
        well_scoped(nss[i]),
    ensures
        ns_prefix_diags(nss, i, k) == Seq::<(Seq<char>, Seq<char>, IsolationDiagCode)>::empty(),
    decreases k,
{
    if k > 0 {
        lemma_ns_prefix_empty(nss, i, k - 1);
        assert(scoped_ok(nss[i][(k - 1) + 1], nss[i][0], k - 1));
        assert(ns_prefix_diags(nss, i, k) =~= Seq::<(Seq<char>, Seq<char>, IsolationDiagCode)>::empty());
    }
}

/// Every namespace built for a set of artifacts passes the scope check:
/// each surface value is scoped by the namespace's own ApplicationId.
pub proof fn lemma_built_namespaces_scoped(arts: Seq<ArtifactIdentity>)
    ensures
        prefix_diags(built_namespaces(arts), built_namespaces(arts).len() as int) == Seq::<
            (Seq<char>, Seq<char>, IsolationDiagCode),
        >::empty(),
{
    lemma_built_well_scoped(arts);
    lemma_no_prefix_diags(built_namespaces(arts), built_namespaces(arts).len() as int);
}

/// No ApplicationId of the artifacts holds a `:`.
pub open spec fn colon_free_ids(arts: Seq<ArtifactIdentity>) -> bool {
    forall|j: int| 0 <= j < arts.len() ==> !(#[trigger] arts[j].application_id@).contains(':')
}

proof fn lemma_scope_injective(x: Seq<Seq<char>>, y: Seq<Seq<char>>, k: int)
    requires
        well_scoped(x),
        well_scoped(y),
        !x[0].contains(':'),
        !y[0].contains(':'),
        0 <= k < 8,
        x[k + 1] == y[k + 1],
    ensures
        x[0] == y[0],
{
    let a = x[0];
    let b = y[0];
    assert(scoped_ok(x[k + 1], a, k));
    assert(scoped_ok(y[k + 1], b, k));
    if k == 0 {
        let v = x[1];
        let h = surface_head(0);
        let l = h.len() as int;
        let pa = h + a + ":"@;
        let pb = h + b + ":"@;
        assert(v.take(pa.len() as int) == pa);
        assert(v.take(pb.len() as int) == pb);
        assert((":"@).len() == 1) by {
            reveal_strlit(":");
        }
        assert((":"@)[0] == ':') by {
            reveal_strlit(":");
        }
        if a.len() < b.len() {
            assert(pa[l + a.len()] == ':');
            assert(v[l + a.len()] == pa[l + a.len()]);
            assert(v[l + a.len()] == pb[l + a.len()]);
            assert(pb[l + a.len()] == b[a.len() as int]);
            assert(b.contains(':'));
        } else if b.len() < a.len() {
            assert(pb[l + b.len()] == ':');
            assert(v[l + b.len()] == pb[l + b.len()]);
            assert(v[l + b.len()] == pa[l + b.len()]);
            assert(pa[l + b.len()] == a[b.len() as int]);
            assert(a.contains(':'));
        } else {
            assert forall|t: int| 0 <= t < a.len() implies a[t] == b[t] by {
                assert(v[l + t] == pa[l + t]);
                assert(v[l + t] == pb[l + t]);
            }
            assert(a =~= b);
        }
    } else {
        let h = surface_head(k);
        assert(scope_of(a, k) == h + a);
        assert(scope_of(b, k) == h + b);
        assert((h + a).skip(h.len() as int) =~= a);
        assert((h + b).skip(h.len() as int) =~= b);
    }
}

proof fn lemma_prev_holder_witness(nss: Seq<Seq<Seq<char>>>, i: int, k: int, v: Seq<char>)
    requires
        i <= nss.len(),
    ensures
        prev_holder(nss, i, k, v) is Some ==> exists|j: int|
            0 <= j < i && nss[j][k + 1] == v && #[trigger] nss[j][0] == prev_holder(nss, i, k, v)->0,
    decreases i,
{
    if i > 0 {
        lemma_prev_holder_witness(nss, i - 1, k, v);
        if nss[i - 1][k + 1] == v {
            assert(nss[i - 1][0] == prev_holder(nss, i, k, v)->0);
        }
    }
}

proof fn lemma_ns_shared_empty(nss: Seq<Seq<Seq<char>>>, i: int, k: int)
    requires
        0 <= i < nss.len(),
        0 <= k <= 8,
        forall|j: int| 0 <= j < nss.len() ==> well_scoped(#[trigger] nss[j]) && !nss[j][0].contains(':'),
    ensures
        ns_shared_diags(nss, i, k) == Seq::<(Seq<char>, Seq<char>, IsolationDiagCode)>::empty(),
    decreases k,
{
    if k > 0 {
        lemma_ns_shared_empty(nss, i, k - 1);
        let kk = k - 1;
        let v = nss[i][kk + 1];
        lemma_prev_holder_witness(nss, i, kk, v);
        if prev_holder(nss, i, kk, v) is Some {
            let j = choose|j: int|
                0 <= j < i && nss[j][kk + 1] == v && #[trigger] nss[j][0] == prev_holder(nss, i, kk, v)->0;
            assert(well_scoped(nss[j]) && !nss[j][0].contains(':'));
            assert(well_scoped(nss[i]) && !nss[i][0].contains(':'));
            lemma_scope_injective(nss[j], nss[i], kk);
        }
        assert(shared_diag(nss, i, kk) =~= Seq::<(Seq<char>, Seq<char>, IsolationDiagCode)>::empty());
        assert(ns_shared_diags(nss, i, k) =~= Seq::<(Seq<char>, Seq<char>, IsolationDiagCode)>::empty());
    }
}

proof fn lemma_no_shared_diags(nss: Seq<Seq<Seq<char>>>, n: int)
    requires
        0 <= n <= nss.len(),
        forall|j: int| 0 <= j < nss.len() ==> well_scoped(#[trigger] nss[j]) && !nss[j][0].contains(':'),
    ensures
        shared_diags(nss, n) == Seq::<(Seq<char>, Seq<char>, IsolationDiagCode)>::empty(),
    decreases n,
{
    if n > 0 {
        lemma_no_shared_diags(nss, n - 1);
        lemma_ns_shared_empty(nss, n - 1, 8);
        assert(shared_diags(nss, n) =~= Seq::<(Seq<char>, Seq<char>, IsolationDiagCode)>::empty());
    }
}

/// Namespaces built for artifacts whose ApplicationIds hold no `:` are never
/// shared: two applications never hold the same value on any surface.
pub proof fn lemma_built_namespaces_unique(arts: Seq<ArtifactIdentity>)
    requires
        colon_free_ids(arts),
    ensures
        shared_diags(built_namespaces(arts), built_namespaces(arts).len() as int) == Seq::<
            (Seq<char>, Seq<char>, IsolationDiagCode),
        >::empty(),
{
    let nss = built_namespaces(arts);
    lemma_built_well_scoped(arts);
    assert forall|i: int| 0 <= i < nss.len() implies well_scoped(#[trigger] nss[i]) && !nss[i][0].contains(':') by {
        let j = choose|j: int| 0 <= j < arts.len() && nss[i][0] == #[trigger] arts[j].application_id@;
        assert(!arts[j].application_id@.contains(':'));
    }
    lemma_no_shared_diags(nss, nss.len() as int);
}

/// The ApplicationId of the last artifact before `i` whose executable is `exec`.
pub open spec fn prev_exec_owner(arts: Seq<ArtifactIdentity>, i: int, exec: Seq<char>) -> Option<Seq<char>>
    decreases i,
{
    if i <= 0 {
        None
    } else if arts[i - 1].executable_module_id@ == exec {
        Some(arts[i - 1].application_id@)
    } else {
        prev_exec_owner(arts, i - 1, exec)
    }
}

/// The error when artifact `i`'s executable already belongs to another application.
pub open spec fn cross_exec_diag(arts: Seq<ArtifactIdentity>, i: int) -> Seq<(Seq<char>, Seq<char>, IsolationDiagCode)> {
    let a = arts[i];
    let exec = a.executable_module_id@;
    let id = a.application_id@;
    match prev_exec_owner(arts, i, exec) {
        Some(prev) => if prev != id {
            seq![(
                root_text(a),
                "executable `"@ + exec + "` appears in both `"@ + prev + "` and `"@ + id + "`"@,
                IsolationDiagCode::CrossRuntimeReference,
            )]
        } else {
            Seq::empty()
        },
        None => Seq::empty(),
    }
}

/// The cross-executable errors of the first `n` artifacts.
pub open spec fn cross_exec_diags(arts: Seq<ArtifactIdentity>, n: int) -> Seq<(Seq<char>, Seq<char>, IsolationDiagCode)>
    decreases n,
{
    if n <= 0 {
        Seq::empty()
    } else {
        cross_exec_diags(arts, n - 1) + cross_exec_diag(arts, n - 1)
    }
}

fn prev_exec_owner_exec(arts: &[ArtifactIdentity], i: usize, exec: &String) -> (r: Option<String>)
    requires
        i <= arts.len(),
    ensures
        match r {
            Some(p) => prev_exec_owner(arts@, i as int, exec@) == Some(p@),
            None => prev_exec_owner(arts@, i as int, exec@) is None,
        },
{
    let mut j: usize = i;
    while j > 0
        invariant
            j <= i <= arts.len(),
            prev_exec_owner(arts@, i as int, exec@) == prev_exec_owner(arts@, j as int, exec@),
        decreases j,
    {
        if text_eq(arts[j - 1].executable_module_id.as_str(), exec.as_str()) {
            return Some(arts[j - 1].application_id.clone());
        }
        j = j - 1;
    }
    None
}

/// Errors for every executable that two applications share (an executable
/// belongs to exactly one application).
pub fn validate_no_cross_executable(artifacts: &[ArtifactIdentity], diagnostics: &mut Vec<ApplicationDiagnostic>)
    ensures
        diags_view(final(diagnostics)@) == diags_view(old(diagnostics)@) + cross_exec_diags(
            artifacts@,
            artifacts@.len() as int,
        ),
{
    let mut i: usize = 0;
    while i < artifacts.len()
        invariant
            i <= artifacts.len(),
            diags_view(diagnostics@) == diags_view(old(diagnostics)@) + cross_exec_diags(artifacts@, i as int),
        decreases artifacts.len() - i,
    {
        let a = &artifacts[i];
        let prev = prev_exec_owner_exec(artifacts, i, &a.executable_module_id);
        match prev {
            Some(p) => {
                if !text_eq(p.as_str(), a.application_id.as_str()) {
                    let mut m = to_chars("executable `");
                    push_str(&mut m, a.executable_module_id.as_str());
                    push_str(&mut m, "` appears in both `");
                    push_str(&mut m, p.as_str());
                    push_str(&mut m, "` and `");
                    push_str(&mut m, a.application_id.as_str());
                    push_str(&mut m, "`");
                    let d = ApplicationDiagnostic {
                        path: root_string(a),
                        message: from_chars(m.as_slice()),
                        code: IsolationDiagCode::CrossRuntimeReference,
                    };
                    push_diag(diagnostics, d);
                }
            },
            None => {},
        }
        i = i + 1;
    }
}

/// What a failed mount answers.
#[derive(Debug, Clone)]
pub struct MountUnavailablePolicy {
    pub application_id: String,
    pub route_base: String,
    pub status: u16,
    pub reason: String,
}

/// What survives the failure of one mounted application.
#[derive(Debug, Clone)]
pub struct FailureContainmentProof {
    pub failed_application_id: String,
    pub host_survives: bool,
    pub siblings_survive: Vec<String>,
    pub unavailable: MountUnavailablePolicy,
}

/// A proof as plain values: failed id, host survives, surviving siblings,
/// then the unavailable answer's id, route base, status and reason.
pub open spec fn proof_view(p: FailureContainmentProof) -> (Seq<char>, bool, Seq<Seq<char>>, Seq<char>, Seq<char>, u16, Seq<char>) {
    (
        p.failed_application_id@,
        p.host_survives,
        texts(p.siblings_survive@),
        p.unavailable.application_id@,
        p.unavailable.route_base@,
        p.unavailable.status,
        p.unavailable.reason@,
    )
}

/// Proofs as plain values.
pub open spec fn proof_views(s: Seq<FailureContainmentProof>) -> Seq<(Seq<char>, bool, Seq<Seq<char>>, Seq<char>, Seq<char>, u16, Seq<char>)> {
    s.map_values(|p: FailureContainmentProof| proof_view(p))
}

/// The route base of the last mount of application `id`.
pub open spec fn mount_base(mounts: Seq<MountEntry>, id: Seq<char>) -> Option<Seq<char>>
    decreases mounts.len(),
{
    if mounts.len() == 0 {
        None
    } else if mounts.last().application_id@ == id {
        Some(mounts.last().route_base@)
    } else {
        mount_base(mounts.drop_last(), id)
    }
}

/// The ApplicationIds of the artifacts other than `failed`, in artifact order.
pub open spec fn siblings_of(arts: Seq<ArtifactIdentity>, failed: Seq<char>) -> Seq<Seq<char>>
    decreases arts.len(),
{
    if arts.len() == 0 {
        Seq::empty()
    } else {
        let p = siblings_of(arts.drop_last(), failed);
        if arts.last().application_id@ != failed {
            p.push(arts.last().application_id@)
        } else {
            p
        }
    }
}

/// The proof for mounted artifact `a`: the host and every other application
/// survive, and its mount answers `503 application_unavailable`.
pub open spec fn containment_proof(arts: Seq<ArtifactIdentity>, mounts: Seq<MountEntry>, a: ArtifactIdentity) -> (
    Seq<char>,
    bool,
    Seq<Seq<char>>,
    Seq<char>,
    Seq<char>,
    u16,
    Seq<char>,
) {
    (
        a.application_id@,
        true,
        siblings_of(arts, a.application_id@),
        a.application_id@,
        match mount_base(mounts, a.application_id@) {
            Some(b) => b,
            None => "/"@,
        },
        503u16,
        "application_unavailable"@,
    )
}

/// The proofs for the mounted artifacts among the first `n`, in artifact order.
pub open spec fn containment_proofs_upto(arts: Seq<ArtifactIdentity>, mounts: Seq<MountEntry>, n: int) -> Seq<
    (Seq<char>, bool, Seq<Seq<char>>, Seq<char>, Seq<char>, u16, Seq<char>),
>
    decreases n,
{
    if n <= 0 {
        Seq::empty()
    } else {
        let p = containment_proofs_upto(arts, mounts, n - 1);
        let a = arts[n - 1];
        if mount_base(mounts, a.application_id@) is Some {
            p.push(containment_proof(arts, mounts, a))
        } else {
            p
        }
    }
}

/// The proofs for every mounted artifact, in artifact order.
pub open spec fn containment_proofs(arts: Seq<ArtifactIdentity>, mounts: Seq<MountEntry>) -> Seq<
    (Seq<char>, bool, Seq<Seq<char>>, Seq<char>, Seq<char>, u16, Seq<char>),
> {
    containment_proofs_upto(arts, mounts, arts.len() as int)
}

/// The error when the mount table is not empty but no artifact is mounted.
pub open spec fn containment_build_diags(arts: Seq<ArtifactIdentity>, mounts: Seq<MountEntry>) -> Seq<
    (Seq<char>, Seq<char>, IsolationDiagCode),
> {
    if containment_proofs(arts, mounts).len() == 0 && mounts.len() > 0 {
        seq![(
            "ApplicationMountTable"@,
            "mounts present but no matching ApplicationArtifacts for failure containment"@,
            IsolationDiagCode::FailureContainment,
        )]
    } else {
        Seq::empty()
    }
}

fn mount_base_exec(mounts: &[MountEntry], id: &String) -> (r: Option<String>)
    ensures
        match r {
            Some(b) => mount_base(mounts@, id@) == Some(b@),
            None => mount_base(mounts@, id@) is None,
        },
{
    let mut j: usize = mounts.len();
    proof {
        assert(mounts@.take(mounts@.len() as int) =~= mounts@);
    }
    while j > 0
        invariant
            j <= mounts.len(),
            mount_base(mounts@, id@) == mount_base(mounts@.take(j as int), id@),
        decreases j,
    {
        proof {
            assert(mounts@.take(j as int).drop_last() =~= mounts@.take(j - 1));
            assert(mounts@.take(j as int).last() == mounts@[j - 1]);
        }
        if text_eq(mounts[j - 1].application_id.as_str(), id.as_str()) {
            return Some(mounts[j - 1].route_base.clone());
        }
        j = j - 1;
    }
    proof {
        assert(mounts@.take(0) =~= Seq::<MountEntry>::empty());
    }
    None
}

fn siblings_exec(arts: &[ArtifactIdentity], failed: &String) -> (r: Vec<String>)
    ensures
        texts(r@) == siblings_of(arts@, failed@),
{
    let mut out: Vec<String> = Vec::new();
    let mut i: usize = 0;
    while i < arts.len()
        invariant
            i <= arts.len(),
            texts(out@) == siblings_of(arts@.take(i as int), failed@),
        decreases arts.len() - i,
    {
        proof {
            assert(arts@.take(i + 1).drop_last() =~= arts@.take(i as int));
            assert(arts@.take(i + 1).last() == arts@[i as int]);
        }
        if !text_eq(arts[i].application_id.as_str(), failed.as_str()) {
            let ghost before = out@;
            out.push(arts[i].application_id.clone());
            proof {
                assert(texts(out@) =~= texts(before).push(arts@[i as int].application_id@));
            }
        }
        i = i + 1;
    }
    proof {
        assert(arts@.take(arts@.len() as int) =~= arts@);
    }
    out
}

/// One failure-containment proof per mounted artifact (in artifact order);
/// an error when the mount table is not empty but no artifact is mounted.
pub fn build_failure_containment(
    artifacts: &[ArtifactIdentity],
    mounts: &[MountEntry],
    diagnostics: &mut Vec<ApplicationDiagnostic>,
) -> (out: Vec<FailureContainmentProof>)
    ensures
        proof_views(out@) == containment_proofs(artifacts@, mounts@),
        diags_view(final(diagnostics)@) == diags_view(old(diagnostics)@) + containment_build_diags(artifacts@, mounts@),
{
    let mut out: Vec<FailureContainmentProof> = Vec::new();
    let mut i: usize = 0;
    while i < artifacts.len()
        invariant
            i <= artifacts.len(),
            proof_views(out@) == containment_proofs_upto(artifacts@, mounts@, i as int),
        decreases artifacts.len() - i,
    {
        let a = &artifacts[i];
        let base = mount_base_exec(mounts, &a.application_id);
        match base {
            Some(b) => {
                let p = FailureContainmentProof {
                    failed_application_id: a.application_id.clone(),
                    host_survives: true,
                    siblings_survive: siblings_exec(artifacts, &a.application_id),
                    unavailable: MountUnavailablePolicy {
                        application_id: a.application_id.clone(),
                        route_base: b,
                        status: 503,
                        reason: String::from_str("application_unavailable"),
                    },
                };
                let ghost before = out@;
                out.push(p);
                proof {
                    assert(proof_view(p) == containment_proof(artifacts@, mounts@, *a));
                    assert(proof_views(out@) =~= proof_views(before).push(proof_view(p)));
                }
            },
            None => {},
        }
        i = i + 1;
    }
    if out.len() == 0 && mounts.len() > 0 {
        let d = ApplicationDiagnostic {
            path: String::from_str("ApplicationMountTable"),
            message: String::from_str("mounts present but no matching ApplicationArtifacts for failure containment"),
            code: IsolationDiagCode::FailureContainment,
        };
        push_diag(diagnostics, d);
    }
    out
}

/// The distinct ApplicationIds of the artifacts, in first-occurrence order.
pub open spec fn distinct_ids(arts: Seq<ArtifactIdentity>) -> Seq<Seq<char>>
    decreases arts.len(),
{
    if arts.len() == 0 {
        Seq::empty()
    } else {
        let p = distinct_ids(arts.drop_last());
        if p.contains(arts.last().application_id@) {
            p
        } else {
            p.push(arts.last().application_id@)
        }
    }
}

/// One error per application of `ids` other than the failed one that the
/// proof does not list as surviving.
pub open spec fn missing_sibling_diags(
    ids: Seq<Seq<char>>,
    pv: (Seq<char>, bool, Seq<Seq<char>>, Seq<char>, Seq<char>, u16, Seq<char>),
) -> Seq<(Seq<char>, Seq<char>, IsolationDiagCode)>
    decreases ids.len(),
{
    if ids.len() == 0 {
        Seq::empty()
    } else {
        let p = missing_sibling_diags(ids.drop_last(), pv);
        let id = ids.last();
        if id != pv.0 && !pv.2.contains(id) {
            p.push((pv.0, "sibling `"@ + id + "` must survive failure of `"@ + pv.0 + "`"@, IsolationDiagCode::FailureContainment))
        } else {
            p
        }
    }
}

/// The errors of one proof: the host must survive, the mount must answer
/// `503 application_unavailable`, the failed application is no survivor, and
/// every other application survives.
pub open spec fn proof_diags(
    ids: Seq<Seq<char>>,
    pv: (Seq<char>, bool, Seq<Seq<char>>, Seq<char>, Seq<char>, u16, Seq<char>),
) -> Seq<(Seq<char>, Seq<char>, IsolationDiagCode)> {
    let f = pv.0;
    let code = IsolationDiagCode::FailureContainment;
    (if !pv.1 {
        seq![(f, "host must survive failure of `"@ + f + "`"@, code)]
    } else {
        Seq::empty()
    }) + (if pv.5 != 503 || pv.6 != "application_unavailable"@ {
        seq![(f, "failed mount must return structured unavailable (503 application_unavailable)"@, code)]
    } else {
        Seq::empty()
    }) + (if pv.2.contains(f) {
        seq![(f, "failed application listed as surviving sibling"@, code)]
    } else {
        Seq::empty()
    }) + missing_sibling_diags(ids, pv)
}

/// The errors of the first `n` proofs, against the applications `ids`.
pub open spec fn containment_diags(
    pvs: Seq<(Seq<char>, bool, Seq<Seq<char>>, Seq<char>, Seq<char>, u16, Seq<char>)>,
    ids: Seq<Seq<char>>,
    n: int,
) -> Seq<(Seq<char>, Seq<char>, IsolationDiagCode)>
    decreases n,
{
    if n <= 0 {
        Seq::empty()
    } else {
        containment_diags(pvs, ids, n - 1) + proof_diags(ids, pvs[n - 1])
    }
}

fn distinct_ids_exec(arts: &[ArtifactIdentity]) -> (r: Vec<String>)
    ensures
        texts(r@) == distinct_ids(arts@),
{
    let mut out: Vec<String> = Vec::new();
    let mut i: usize = 0;
    while i < arts.len()
        invariant
            i <= arts.len(),
            texts(out@) == distinct_ids(arts@.take(i as int)),
        decreases arts.len() - i,
    {
        proof {
            assert(arts@.take(i + 1).drop_last() =~= arts@.take(i as int));
            assert(arts@.take(i + 1).last() == arts@[i as int]);
        }
        let c = to_chars(arts[i].application_id.as_str());
        if !texts_contain(&out, c.as_slice()) {
            let ghost before = out@;
            out.push(arts[i].application_id.clone());
            proof {
                assert(texts(out@) =~= texts(before).push(arts@[i as int].application_id@));
            }
        }
        i = i + 1;
    }
    proof {
        assert(arts@.take(arts@.len() as int) =~= arts@);
    }
    out
}

/// Errors for every failure-containment proof that does not hold. The
/// applications that must survive are checked in the order the artifacts
/// first name them.
pub fn validate_failure_containment(
    proofs: &[FailureContainmentProof],
    artifacts: &[ArtifactIdentity],
    diagnostics: &mut Vec<ApplicationDiagnostic>,
)
    ensures
        diags_view(final(diagnostics)@) == diags_view(old(diagnostics)@) + containment_diags(
            proof_views(proofs@),
            distinct_ids(artifacts@),
            proofs@.len() as int,
        ),
{
    let all = distinct_ids_exec(artifacts);
    let ghost ids = texts(all@);
    let ghost pvs = proof_views(proofs@);
    let mut i: usize = 0;
    while i < proofs.len()
        invariant
            i <= proofs.len(),
            ids == texts(all@),
            ids == distinct_ids(artifacts@),
            pvs == proof_views(proofs@),
            diags_view(diagnostics@) == diags_view(old(diagnostics)@) + containment_diags(pvs, ids, i as int),
        decreases proofs.len() - i,
    {
        let p = &proofs[i];
        let ghost pv = proof_view(*p);
        let ghost base = diags_view(diagnostics@);
        proof {
            assert(pvs[i as int] == pv);
        }
        let f = &p.failed_application_id;
        if !p.host_survives {
            let d = ApplicationDiagnostic {
                path: f.clone(),
                message: cat3("host must survive failure of `", f.as_str(), "`"),
                code: IsolationDiagCode::FailureContainment,
            };
            push_diag(diagnostics, d);
        }
        let ghost s1 = diags_view(diagnostics@);
        proof {
            assert(s1 =~= base + (if !pv.1 {
                seq![(pv.0, "host must survive failure of `"@ + pv.0 + "`"@, IsolationDiagCode::FailureContainment)]
            } else {
                Seq::empty()
            }));
        }
        let reason_ok = text_eq(p.unavailable.reason.as_str(), "application_unavailable");
        if p.unavailable.status != 503 || !reason_ok {
            let d = ApplicationDiagnostic {
                path: f.clone(),
                message: String::from_str("failed mount must return structured unavailable (503 application_unavailable)"),
                code: IsolationDiagCode::FailureContainment,
            };
            push_diag(diagnostics, d);
        }
        let ghost s2 = diags_view(diagnostics@);
        proof {
            assert(s2 =~= s1 + (if pv.5 != 503 || pv.6 != "application_unavailable"@ {
                seq![(pv.0, "failed mount must return structured unavailable (503 application_unavailable)"@, IsolationDiagCode::FailureContainment)]
            } else {
                Seq::empty()
            }));
        }
        let fc = to_chars(f.as_str());
        if texts_contain(&p.siblings_survive, fc.as_slice()) {
            let d = ApplicationDiagnostic {
                path: f.clone(),
                message: String::from_str("failed application listed as surviving sibling"),
                code: IsolationDiagCode::FailureContainment,
            };
            push_diag(diagnostics, d);
        }
        let ghost s3 = diags_view(diagnostics@);
        proof {
            assert(s3 =~= s2 + (if pv.2.contains(pv.0) {
                seq![(pv.0, "failed application listed as surviving sibling"@, IsolationDiagCode::FailureContainment)]
            } else {
                Seq::empty()
            }));
            assert(ids.take(0) =~= Seq::<Seq<char>>::empty());
        }
        let mut j: usize = 0;
        while j < all.len()
            invariant
                j <= all.len(),
                ids == texts(all@),
                pv == proof_view(*p),
                fc@ == pv.0,
                f@ == pv.0,
                ids.len() == all@.len(),
                diags_view(diagnostics@) == s3 + missing_sibling_diags(ids.take(j as int), pv),
            decreases all.len() - j,
        {
            proof {
                assert(ids.take(j + 1).drop_last() =~= ids.take(j as int));
                assert(ids.take(j + 1).last() == ids[j as int]);
            }
            let id = &all[j];
            let idc = to_chars(id.as_str());
            let same = chars_eq(idc.as_slice(), fc.as_slice());
            proof {
                assert(idc@ == ids[j as int]);
            }
            if !same && !texts_contain(&p.siblings_survive, idc.as_slice()) {
                let mut m = to_chars("sibling `");
                push_str(&mut m, id.as_str());
                push_str(&mut m, "` must survive failure of `");
                push_str(&mut m, f.as_str());
                push_str(&mut m, "`");
                let d = ApplicationDiagnostic {
                    path: f.clone(),
                    message: from_chars(m.as_slice()),
                    code: IsolationDiagCode::FailureContainment,
                };
                push_diag(diagnostics, d);
                proof {
                    assert(diags_view(diagnostics@) =~= s3 + missing_sibling_diags(ids.take(j + 1), pv));
                }
            }
            j = j + 1;
        }
        proof {
            assert(ids.take(ids.len() as int) =~= ids);
            assert(diags_view(diagnostics@) =~= base + proof_diags(ids, pv));
        }
        i = i + 1;
    }
}

proof fn lemma_siblings_of(arts: Seq<ArtifactIdentity>, f: Seq<char>)
    ensures
        forall|x: Seq<char>| #[trigger] siblings_of(arts, f).contains(x) ==> x != f,
        forall|j: int| 0 <= j < arts.len() && #[trigger] arts[j].application_id@ != f ==> siblings_of(arts, f).contains(
            arts[j].application_id@,
        ),
    decreases arts.len(),
{
    if arts.len() > 0 {
        let p = arts.drop_last();
        lemma_siblings_of(p, f);
        let q = siblings_of(p, f);
        let last = arts.last().application_id@;
        assert forall|x: Seq<char>| #[trigger] siblings_of(arts, f).contains(x) implies x != f by {
            let k = choose|k: int| 0 <= k < siblings_of(arts, f).len() && siblings_of(arts, f)[k] == x;
            if k < q.len() {
                assert(q[k] == x);
                assert(q.contains(x));
            }
        }
        assert forall|j: int| 0 <= j < arts.len() && #[trigger] arts[j].application_id@ != f implies siblings_of(
            arts,
            f,
        ).contains(arts[j].application_id@) by {
            if j < p.len() {
                assert(p[j] == arts[j]);
                assert(q.contains(arts[j].application_id@));
                let k = choose|k: int| 0 <= k < q.len() && q[k] == arts[j].application_id@;
                if last != f {
                    assert(q.push(last)[k] == arts[j].application_id@);
                }
            } else {
                assert(q.push(last)[q.len() as int] == last);
            }
        }
    }
}

proof fn lemma_distinct_ids_from(arts: Seq<ArtifactIdentity>)
    ensures
        forall|x: Seq<char>| #[trigger] distinct_ids(arts).contains(x) ==> exists|j: int|
            0 <= j < arts.len() && #[trigger] arts[j].application_id@ == x,
    decreases arts.len(),
{
    if arts.len() > 0 {
        let p = arts.drop_last();
        lemma_distinct_ids_from(p);
        let q = distinct_ids(p);
        assert forall|x: Seq<char>| #[trigger] distinct_ids(arts).contains(x) implies exists|j: int|
            0 <= j < arts.len() && #[trigger] arts[j].application_id@ == x by {
            let k = choose|k: int| 0 <= k < distinct_ids(arts).len() && distinct_ids(arts)[k] == x;
            if k < q.len() && distinct_ids(arts)[k] == q[k] {
                assert(q.contains(x));
                let j = choose|j: int| 0 <= j < p.len() && #[trigger] p[j].application_id@ == x;
                assert(arts[j] == p[j]);
            } else {
                assert(arts[arts.len() - 1].application_id@ == x);
            }
        }
    }
}

proof fn lemma_containment_shape(arts: Seq<ArtifactIdentity>, mounts: Seq<MountEntry>, n: int)
    requires
        n <= arts.len(),
    ensures
        forall|i: int| 0 <= i < containment_proofs_upto(arts, mounts, n).len() ==> {
            let pv = #[trigger] containment_proofs_upto(arts, mounts, n)[i];
            pv.1 && pv.5 == 503 && pv.6 == "application_unavailable"@ && pv.2 == siblings_of(arts, pv.0)
        },
    decreases n,
{
    if n > 0 {
        lemma_containment_shape(arts, mounts, n - 1);
        let q = containment_proofs_upto(arts, mounts, n - 1);
        let a = arts[n - 1];
        if mount_base(mounts, a.application_id@) is Some {
            let x = containment_proof(arts, mounts, a);
            assert forall|i: int| 0 <= i < q.push(x).len() implies {
                let pv = #[trigger] q.push(x)[i];
                pv.1 && pv.5 == 503 && pv.6 == "application_unavailable"@ && pv.2 == siblings_of(arts, pv.0)
            } by {
                if i < q.len() {
                    assert(q.push(x)[i] == q[i]);
                }
            }
        }
    }
}

proof fn lemma_no_missing_siblings(
    ids: Seq<Seq<char>>,
    pv: (Seq<char>, bool, Seq<Seq<char>>, Seq<char>, Seq<char>, u16, Seq<char>),
)
    requires
        forall|k: int| 0 <= k < ids.len() ==> #[trigger] ids[k] == pv.0 || pv.2.contains(ids[k]),
    ensures
        missing_sibling_diags(ids, pv) == Seq::<(Seq<char>, Seq<char>, IsolationDiagCode)>::empty(),
    decreases ids.len(),
{
    if ids.len() > 0 {
        let p = ids.drop_last();
        assert forall|k: int| 0 <= k < p.len() implies #[trigger] p[k] == pv.0 || pv.2.contains(p[k]) by {
            assert(p[k] == ids[k]);
        }
        lemma_no_missing_siblings(p, pv);
        assert(ids[ids.len() - 1] == ids.last());
    }
}

proof fn lemma_no_containment_diags(arts: Seq<ArtifactIdentity>, mounts: Seq<MountEntry>, n: int)
    requires
        0 <= n <= containment_proofs(arts, mounts).len(),
    ensures
        containment_diags(containment_proofs(arts, mounts), distinct_ids(arts), n) == Seq::<
            (Seq<char>, Seq<char>, IsolationDiagCode),
        >::empty(),
    decreases n,
{
    if n > 0 {
        lemma_no_containment_diags(arts, mounts, n - 1);
        let pvs = containment_proofs(arts, mounts);
        let ids = distinct_ids(arts);
        let pv = pvs[n - 1];
        lemma_containment_shape(arts, mounts, arts.len() as int);
        assert(pv.1 && pv.5 == 503 && pv.6 == "application_unavailable"@ && pv.2 == siblings_of(arts, pv.0));
        lemma_siblings_of(arts, pv.0);
        lemma_distinct_ids_from(arts);
        assert forall|k: int| 0 <= k < ids.len() implies #[trigger] ids[k] == pv.0 || pv.2.contains(ids[k]) by {
            assert(ids.contains(ids[k]));
            let j = choose|j: int| 0 <= j < arts.len() && #[trigger] arts[j].application_id@ == ids[k];
            if ids[k] != pv.0 {
                assert(siblings_of(arts, pv.0).contains(arts[j].application_id@));
            }
        }
        lemma_no_missing_siblings(ids, pv);
        assert(!pv.2.contains(pv.0));
        assert(proof_diags(ids, pv) =~= Seq::<(Seq<char>, Seq<char>, IsolationDiagCode)>::empty());
        assert(containment_diags(pvs, ids, n) =~= Seq::<(Seq<char>, Seq<char>, IsolationDiagCode)>::empty());
    }
}

/// The failure-containment proofs built for a set of artifacts and a mount
/// table always hold: the host survives, every other application survives,
/// the failed one is no survivor, and its mount answers
/// `503 application_unavailable`.
pub proof fn lemma_built_containment_holds(arts: Seq<ArtifactIdentity>, mounts: Seq<MountEntry>)
    ensures
        containment_diags(
            containment_proofs(arts, mounts),
            distinct_ids(arts),
            containment_proofs(arts, mounts).len() as int,
        ) == Seq::<(Seq<char>, Seq<char>, IsolationDiagCode)>::empty(),
{
    lemma_no_containment_diags(arts, mounts, containment_proofs(arts, mounts).len() as int);
}

/// The isolation of a host and its mounted applications.
#[derive(Debug, Clone)]
pub struct IsolationReport {
    pub namespaces: Vec<IsolationNamespace>,
    pub failure_containment: Vec<FailureContainmentProof>,
    pub surfaces: Vec<String>,
    pub diagnostics: Vec<ApplicationDiagnostic>,
}

/// The surfaces an isolation report covers, as text.
pub open spec fn isolation_surfaces() -> Seq<Seq<char>> {
    seq!["runtime"@, "style"@, "state"@, "server"@, "session"@, "storage"@, "trace"@, "failure"@]
}

fn surfaces_vec() -> (r: Vec<String>)
    ensures
        texts(r@) == isolation_surfaces(),
{
    let mut r: Vec<String> = Vec::new();
    let mut k: usize = 0;
    while k < 8
        invariant
            k <= 8,
            texts(r@) == isolation_surfaces().take(k as int),
        decreases 8 - k,
    {
        let ghost before = r@;
        r.push(String::from_str(ISOLATION_SURFACES[k]));
        proof {
            assert(texts(r@) =~= texts(before).push(ISOLATION_SURFACES[k as int]@));
            assert(isolation_surfaces().take(k + 1) =~= isolation_surfaces().take(k as int).push(isolation_surfaces()[k as int]));
        }
        k = k + 1;
    }
    proof {
        assert(isolation_surfaces().take(8) =~= isolation_surfaces());
    }
    r
}

/// Isolation of the artifacts and host mounts that the artifact boundary
/// produced, after the boundary's own diagnostics: the namespaces of every
/// application, their uniqueness and scoping, one owner per executable, and
/// one failure-containment proof per mounted application.
pub fn isolation_report(
    artifacts: &[ArtifactIdentity],
    mounts: &[MountEntry],
    boundary_diagnostics: Vec<ApplicationDiagnostic>,
) -> (r: IsolationReport)
    ensures
        ns_views(r.namespaces@) == built_namespaces(artifacts@),
        proof_views(r.failure_containment@) == containment_proofs(artifacts@, mounts@),
        texts(r.surfaces@) == isolation_surfaces(),
        diags_view(r.diagnostics@) == diags_view(boundary_diagnostics@) + unproven_id_diags(artifacts@) + shared_diags(
            built_namespaces(artifacts@),
            built_namespaces(artifacts@).len() as int,
        ) + prefix_diags(built_namespaces(artifacts@), built_namespaces(artifacts@).len() as int) + cross_exec_diags(
            artifacts@,
            artifacts@.len() as int,
        ) + containment_build_diags(artifacts@, mounts@) + containment_diags(
            containment_proofs(artifacts@, mounts@),
            distinct_ids(artifacts@),
            containment_proofs(artifacts@, mounts@).len() as int,
        ),
        diags_view(r.diagnostics@) == diags_view(boundary_diagnostics@) + unproven_id_diags(artifacts@) + shared_diags(
            built_namespaces(artifacts@),
            built_namespaces(artifacts@).len() as int,
        ) + cross_exec_diags(artifacts@, artifacts@.len() as int) + containment_build_diags(artifacts@, mounts@),
        colon_free_ids(artifacts@) ==> diags_view(r.diagnostics@) == diags_view(boundary_diagnostics@)
            + unproven_id_diags(artifacts@) + cross_exec_diags(artifacts@, artifacts@.len() as int)
            + containment_build_diags(artifacts@, mounts@),
{
    let mut diagnostics = boundary_diagnostics;
    let namespaces = build_namespaces(artifacts, &mut diagnostics);
    validate_namespace_uniqueness(namespaces.as_slice(), &mut diagnostics);
    validate_namespace_prefixes(namespaces.as_slice(), &mut diagnostics);
    validate_no_cross_executable(artifacts, &mut diagnostics);
    let failure_containment = build_failure_containment(artifacts, mounts, &mut diagnostics);
    validate_failure_containment(failure_containment.as_slice(), artifacts, &mut diagnostics);
    proof {
        let e = Seq::<(Seq<char>, Seq<char>, IsolationDiagCode)>::empty();
        lemma_built_namespaces_scoped(artifacts@);
        lemma_built_containment_holds(artifacts@, mounts@);
        assert(namespaces@.len() == built_namespaces(artifacts@).len());
        if colon_free_ids(artifacts@) {
            lemma_built_namespaces_unique(artifacts@);
        }
        let base = diags_view(boundary_diagnostics@) + unproven_id_diags(artifacts@);
        let sh = shared_diags(built_namespaces(artifacts@), built_namespaces(artifacts@).len() as int);
        let cx = cross_exec_diags(artifacts@, artifacts@.len() as int);
        let cb = containment_build_diags(artifacts@, mounts@);
        assert(base + sh + e + cx + cb + e =~= base + sh + cx + cb);
        assert(base + e + e + cx + cb + e =~= base + cx + cb);
    }
    IsolationReport { namespaces, failure_containment, surfaces: surfaces_vec(), diagnostics }
}

} // verus!
