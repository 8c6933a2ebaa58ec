//! Dev reverse-proxy dispatch over the host mount table: a request goes to
//! the mount with the longest matching base (answering 503
//! `application_unavailable` when that application is down), `/` goes to
//! the host, and anything else is a 404 `not_found`. The dispatch cases of a
//! mount table are generated and checked against this rule.

use vstd::prelude::*;
use crate::application::{normalize_base, normalized_mount_base};
use crate::dep_graph::pair_views;
use crate::deployment_doc::{string_items, string_items_exec};
use crate::json::{json_of_text, member, parse_json_text, Json, JsonValue};
use crate::token_file::strings_of;
use crate::isolation::{diag_view, diags_view, proof_view, proof_views, ApplicationDiagnostic, FailureContainmentProof, IsolationDiagCode, MountEntry};
use crate::order::{ins_sorted, insert_sorted_unique, lemma_ins_sorted_at, lemma_stable_sort_push, stable_sort, strictly_sorted, texts, texts_contain};
use crate::server_artifact::opt_view;
use crate::text::{chars_eq, from_chars, has_prefix, has_suffix, push_str, starts_with, to_chars};

verus! {

/// The URL that never names a mount.
pub const NO_SUCH_MOUNT: &'static str = "/__vmz_no_such_mount";

/// Why a mount of a down application answers 503.
pub const REASON_UNAVAILABLE: &'static str = "application_unavailable";

/// Why an unmounted URL answers 404.
pub const REASON_NOT_FOUND: &'static str = "not_found";

/// One dispatch case: a URL, the application it goes to, the path the
/// application sees, the status and the reason of a refusal.
#[derive(Debug, Clone)]
pub struct ProxyCase {
    pub url: String,
    pub application_id: Option<String>,
    pub strip_base: Option<String>,
    pub status: u16,
    pub reason: Option<String>,
}

/// A case as plain values.
pub open spec fn case_view(c: ProxyCase) -> (Seq<char>, Option<Seq<char>>, Option<Seq<char>>, u16, Option<Seq<char>>) {
    (c.url@, opt_view(c.application_id), opt_view(c.strip_base), c.status, opt_view(c.reason))
}

/// Cases as plain values.
pub open spec fn cases_view(cs: Seq<ProxyCase>) -> Seq<(Seq<char>, Option<Seq<char>>, Option<Seq<char>>, u16, Option<Seq<char>>)> {
    cs.map_values(|c: ProxyCase| case_view(c))
}

/// `url` is under the mount base `base`: the base itself or below it.
pub open spec fn mount_matches(url: Seq<char>, base: Seq<char>) -> bool {
    url == base || has_prefix(url, base.push('/'))
}

/// The first mount from `i` on whose base `url` is under.
pub open spec fn first_mount(url: Seq<char>, mounts: Seq<(Seq<char>, Seq<char>)>, i: int) -> Option<int>
    decreases mounts.len() - i,
{
    if i >= mounts.len() {
        None
    } else if mount_matches(url, mounts[i].0) {
        Some(i)
    } else {
        first_mount(url, mounts, i + 1)
    }
}

/// The path a mounted application sees: `/` for its base, else what
/// follows the base.
pub open spec fn strip_of(url: Seq<char>, base: Seq<char>) -> Seq<char> {
    if url == base {
        seq!['/']
    } else {
        url.skip(base.len() as int)
    }
}

/// Where `url` goes through the (base, ApplicationId) mounts, taken in
/// order: the first matching mount (503 when its application is
/// unavailable), else the host for `/`, else 404.
pub open spec fn dispatch(
    url: Seq<char>,
    mounts: Seq<(Seq<char>, Seq<char>)>,
    host: Seq<char>,
    unavailable: Seq<Seq<char>>,
) -> (Seq<char>, Option<Seq<char>>, Option<Seq<char>>, u16, Option<Seq<char>>) {
    if url == NO_SUCH_MOUNT@ {
        (url, None, None, 404u16, Some(REASON_NOT_FOUND@))
    } else {
        match first_mount(url, mounts, 0) {
            Some(i) => {
                let id = mounts[i].1;
                let down = unavailable.contains(id);
                (
                    url,
                    Some(id),
                    Some(strip_of(url, mounts[i].0)),
                    if down { 503u16 } else { 200u16 },
                    if down { Some(REASON_UNAVAILABLE@) } else { None },
                )
            },
            None => if url == seq!['/'] {
                (url, Some(host), Some(seq!['/']), 200u16, None)
            } else {
                (url, None, None, 404u16, Some(REASON_NOT_FOUND@))
            },
        }
    }
}

fn text_of(s: &str) -> (r: String)
    ensures
        r@ == s@,
{
    from_chars(to_chars(s).as_slice())
}

fn some_text(s: &str) -> (r: Option<String>)
    ensures
        opt_view(r) == Some(s@),
{
    Some(text_of(s))
}

fn mount_matches_exec(url: &[char], base: &[char]) -> (r: bool)
    ensures
        r == mount_matches(url@, base@),
{
    if chars_eq(url, base) {
        return true;
    }
    let mut b: Vec<char> = Vec::new();
    crate::text::push_all(&mut b, base);
    b.push('/');
    proof {
        assert(b@ =~= base@.push('/'));
    }
    starts_with(url, b.as_slice())
}

/// Dispatch `url` through the (base, ApplicationId) mounts in order, with
/// the host for `/` and the given unavailable applications.
pub fn dispatch_url(url: &str, mounts: &[(String, String)], host_id: &str, unavailable: &Vec<String>) -> (r: ProxyCase)
    ensures
        case_view(r) == dispatch(url@, pair_views(mounts@), host_id@, texts(unavailable@)),
{
    let ghost mv = pair_views(mounts@);
    let u = to_chars(url);
    let none_url = to_chars(NO_SUCH_MOUNT);
    if chars_eq(u.as_slice(), none_url.as_slice()) {
        return ProxyCase { url: text_of(url), application_id: None, strip_base: None, status: 404, reason: some_text(REASON_NOT_FOUND) };
    }
    let mut i: usize = 0;
    while i < mounts.len()
        invariant
            i <= mounts.len(),
            mv == pair_views(mounts@),
            u@ == url@,
            url@ != NO_SUCH_MOUNT@,
            first_mount(url@, mv, 0) == first_mount(url@, mv, i as int),
        decreases mounts.len() - i,
    {
        let base = to_chars(mounts[i].0.as_str());
        proof {
            assert(mv[i as int] == (mounts@[i as int].0@, mounts@[i as int].1@));
        }
        if mount_matches_exec(u.as_slice(), base.as_slice()) {
            let strip = if chars_eq(u.as_slice(), base.as_slice()) {
                text_of("/")
            } else {
                let mut rest: Vec<char> = Vec::new();
                let mut k: usize = base.len();
                while k < u.len()
                    invariant
                        base.len() <= k <= u.len(),
                        rest@ == u@.subrange(base.len() as int, k as int),
                    decreases u.len() - k,
                {
                    rest.push(u[k]);
                    proof {
                        assert(rest@ =~= u@.subrange(base.len() as int, k + 1));
                    }
                    k = k + 1;
                }
                proof {
                    assert(rest@ =~= u@.skip(base.len() as int));
                }
                from_chars(rest.as_slice())
            };
            let id = &mounts[i].1;
            let down = texts_contain(unavailable, to_chars(id.as_str()).as_slice());
            proof {
                reveal_strlit("/");
                assert(u@ == base@ ==> strip@ =~= seq!['/']);
                assert(first_mount(url@, mv, i as int) == Some(i as int));
                assert(strip@ == strip_of(url@, mv[i as int].0));
            }
            if down {
                return ProxyCase {
                    url: text_of(url),
                    application_id: Some(id.clone()),
                    strip_base: Some(strip),
                    status: 503,
                    reason: some_text(REASON_UNAVAILABLE),
                };
            }
            return ProxyCase { url: text_of(url), application_id: Some(id.clone()), strip_base: Some(strip), status: 200, reason: None };
        }
        i = i + 1;
    }
    if u.len() == 1 && u[0] == '/' {
        proof {
            assert(url@ =~= seq!['/']);
        }
        let mut root: Vec<char> = Vec::new();
        root.push('/');
        proof {
            assert(root@ =~= seq!['/']);
        }
        return ProxyCase {
            url: text_of(url),
            application_id: Some(text_of(host_id)),
            strip_base: Some(from_chars(root.as_slice())),
            status: 200,
            reason: None,
        };
    }
    proof {
        assert(url@ != seq!['/']) by {
            if url@ == seq!['/'] {
                assert(u@.len() == 1 && u@[0] == '/');
            }
        }
    }
    ProxyCase { url: text_of(url), application_id: None, strip_base: None, status: 404, reason: some_text(REASON_NOT_FOUND) }
}

/// Longer bases first (the dispatch table is tried in this order).
pub open spec fn longer_base() -> spec_fn((Seq<char>, Seq<char>), (Seq<char>, Seq<char>)) -> bool {
    |a: (Seq<char>, Seq<char>), b: (Seq<char>, Seq<char>)| a.0.len() > b.0.len()
}

/// The (normalised base, ApplicationId) pairs of mount entries.
pub open spec fn mount_pairs(ms: Seq<MountEntry>) -> Seq<(Seq<char>, Seq<char>)> {
    ms.map_values(|m: MountEntry| (normalized_mount_base(m.route_base@), m.application_id@))
}

/// The dispatch table of a mount table: its normalised mounts, longest base
/// first, mounts with bases of one length in table order.
pub open spec fn dispatch_table(ms: Seq<MountEntry>) -> Seq<(Seq<char>, Seq<char>)> {
    stable_sort(mount_pairs(ms), longer_base())
}

fn insert_mount(out: &mut Vec<(String, String)>, m: (String, String))
    ensures
        pair_views(final(out)@) == ins_sorted(pair_views(old(out)@), (m.0@, m.1@), longer_base()),
{
    let ghost t = pair_views(out@);
    let ghost x = (m.0@, m.1@);
    let n = m.0.unicode_len();
    let mut p: usize = 0;
    while p < out.len() && out[p].0.unicode_len() >= n
        invariant
            p <= out.len(),
            t == pair_views(out@),
            x == (m.0@, m.1@),
            n == m.0@.len(),
            forall|j: int| 0 <= j < p ==> !(longer_base())(x, #[trigger] t[j]),
        decreases out.len() - p,
    {
        proof {
            assert(t[p as int] == (out@[p as int].0@, out@[p as int].1@));
        }
        p = p + 1;
    }
    proof {
        if p < out.len() {
            assert(t[p as int] == (out@[p as int].0@, out@[p as int].1@));
        }
        lemma_ins_sorted_at(t, x, longer_base(), p as int);
    }
    out.insert(p, m);
    proof {
        assert(pair_views(out@) =~= t.take(p as int) + seq![x] + t.skip(p as int));
    }
}

/// The dispatch table of a mount table.
pub fn build_dispatch_table(mounts: &[MountEntry]) -> (r: Vec<(String, String)>)
    ensures
        pair_views(r@) == dispatch_table(mounts@),
{
    let mut out: Vec<(String, String)> = Vec::new();
    let mut i: usize = 0;
    while i < mounts.len()
        invariant
            i <= mounts.len(),
            pair_views(out@) == stable_sort(mount_pairs(mounts@.take(i as int)), longer_base()),
        decreases mounts.len() - i,
    {
        let m = (normalize_base(mounts[i].route_base.as_str()), mounts[i].application_id.clone());
        proof {
            assert(mount_pairs(mounts@.take(i + 1)) =~= mount_pairs(mounts@.take(i as int)).push((m.0@, m.1@)));
            lemma_stable_sort_push(mount_pairs(mounts@.take(i as int)), (m.0@, m.1@), longer_base());
        }
        insert_mount(&mut out, m);
        i = i + 1;
    }
    proof {
        assert(mounts@.take(mounts@.len() as int) =~= mounts@);
    }
    out
}

/// The status of a mount of `id`: 503 when it is unavailable, else 200.
pub open spec fn mount_status(id: Seq<char>, unavailable: Seq<Seq<char>>) -> u16 {
    if unavailable.contains(id) { 503u16 } else { 200u16 }
}

/// The refusal reason of a mount of `id`.
pub open spec fn mount_reason(id: Seq<char>, unavailable: Seq<Seq<char>>) -> Option<Seq<char>> {
    if unavailable.contains(id) { Some(REASON_UNAVAILABLE@) } else { None }
}

/// A page below a base.
pub open spec fn nested_url(base: Seq<char>) -> Seq<char> {
    if has_suffix(base, "/"@) { base + "page"@ } else { base + "/page"@ }
}

/// Two cases per mount, in table order: its base (the application sees
/// `/`) and a page below it (the application sees `/page`).
pub open spec fn mount_cases(table: Seq<(Seq<char>, Seq<char>)>, unavailable: Seq<Seq<char>>) -> Seq<
    (Seq<char>, Option<Seq<char>>, Option<Seq<char>>, u16, Option<Seq<char>>),
>
    decreases table.len(),
{
    if table.len() == 0 {
        Seq::empty()
    } else {
        let (base, id) = table.last();
        mount_cases(table.drop_last(), unavailable) + seq![
            (base, Some(id), Some(seq!['/']), mount_status(id, unavailable), mount_reason(id, unavailable)),
            (nested_url(base), Some(id), Some("/page"@), mount_status(id, unavailable), mount_reason(id, unavailable)),
        ]
    }
}

/// The dispatch cases of a table: the mount cases, then `/` to the host,
/// then a URL no mount has, answered 404.
pub open spec fn proxy_cases(table: Seq<(Seq<char>, Seq<char>)>, host: Seq<char>, unavailable: Seq<Seq<char>>) -> Seq<
    (Seq<char>, Option<Seq<char>>, Option<Seq<char>>, u16, Option<Seq<char>>),
> {
    mount_cases(table, unavailable) + seq![
        (seq!['/'], Some(host), Some(seq!['/']), 200u16, None),
        (NO_SUCH_MOUNT@, None, None, 404u16, Some(REASON_NOT_FOUND@)),
    ]
}

/// Some failure-containment proof shows `id` failing with a 503
/// `application_unavailable` answer while the host survives.
pub open spec fn contained(id: Seq<char>, proofs: Seq<(Seq<char>, bool, Seq<Seq<char>>, Seq<char>, Seq<char>, u16, Seq<char>)>) -> bool {
    exists|k: int|
        0 <= k < proofs.len() && (#[trigger] proofs[k]).0 == id && proofs[k].5 == 503 && proofs[k].6
            == REASON_UNAVAILABLE@ && proofs[k].1
}

/// An error for each unavailable application without such a proof (none
/// when there are no proofs at all).
pub open spec fn uncontained_diags(
    unavailable: Seq<Seq<char>>,
    proofs: Seq<(Seq<char>, bool, Seq<Seq<char>>, Seq<char>, Seq<char>, u16, Seq<char>)>,
) -> Seq<(Seq<char>, Seq<char>, IsolationDiagCode)>
    decreases unavailable.len(),
{
    if unavailable.len() == 0 {
        Seq::empty()
    } else {
        let p = uncontained_diags(unavailable.drop_last(), proofs);
        let id = unavailable.last();
        if proofs.len() > 0 && !contained(id, proofs) {
            p.push(
                (
                    id,
                    "unavailable ApplicationId `"@ + id + "` lacks failure-containment 503 application_unavailable proof"@,
                    IsolationDiagCode::ProxyMisroute,
                ),
            )
        } else {
            p
        }
    }
}

/// `{:?}` of an optional text.
pub open spec fn opt_debug(o: Option<Seq<char>>) -> Seq<char> {
    match o {
        Some(t) => "Some("@ + crate::locale::str_debug(t) + ")"@,
        None => "None"@,
    }
}

/// The message for a case whose status or application differs from what
/// dispatch gives (`expected`).
pub open spec fn mismatch_message(
    url: Seq<char>,
    expected: (Seq<char>, Option<Seq<char>>, Option<Seq<char>>, u16, Option<Seq<char>>),
    got: (Seq<char>, Option<Seq<char>>, Option<Seq<char>>, u16, Option<Seq<char>>),
) -> Seq<char> {
    "proxy case mismatch for `"@ + url + "`: expected status="@ + crate::wechat_pack::decimal(expected.3 as nat) + " app="@
        + opt_debug(expected.1) + ", got status="@ + crate::wechat_pack::decimal(got.3 as nat) + " app="@ + opt_debug(got.1)
}

/// An error for each case whose status or application differs from what
/// dispatching its URL gives.
pub open spec fn case_diags(
    cases: Seq<(Seq<char>, Option<Seq<char>>, Option<Seq<char>>, u16, Option<Seq<char>>)>,
    table: Seq<(Seq<char>, Seq<char>)>,
    host: Seq<char>,
    unavailable: Seq<Seq<char>>,
) -> Seq<(Seq<char>, Seq<char>, IsolationDiagCode)>
    decreases cases.len(),
{
    if cases.len() == 0 {
        Seq::empty()
    } else {
        let p = case_diags(cases.drop_last(), table, host, unavailable);
        let c = cases.last();
        let e = dispatch(c.0, table, host, unavailable);
        if e.3 != c.3 || e.1 != c.1 {
            p.push((c.0, mismatch_message(c.0, e, c), IsolationDiagCode::ProxyMisroute))
        } else {
            p
        }
    }
}

fn push_case(out: &mut Vec<ProxyCase>, c: ProxyCase)
    ensures
        cases_view(final(out)@) == cases_view(old(out)@).push(case_view(c)),
{
    let ghost before = out@;
    out.push(c);
    proof {
        assert(cases_view(out@) =~= cases_view(before).push(case_view(c)));
    }
}

fn push_diag(out: &mut Vec<ApplicationDiagnostic>, d: ApplicationDiagnostic)
    ensures
        diags_view(final(out)@) == diags_view(old(out)@).push(diag_view(d)),
{
    let ghost before = out@;
    out.push(d);
    proof {
        assert(diags_view(out@) =~= diags_view(before).push(diag_view(d)));
    }
}

fn unavailable_reason(down: bool) -> (r: Option<String>)
    ensures
        opt_view(r) == (if down { Some(REASON_UNAVAILABLE@) } else { None::<Seq<char>> }),
{
    if down {
        some_text(REASON_UNAVAILABLE)
    } else {
        None
    }
}

fn push_mount_cases(out: &mut Vec<ProxyCase>, base: &String, id: &String, unavailable: &Vec<String>)
    ensures
        cases_view(final(out)@) == cases_view(old(out)@) + seq![
            (base@, Some(id@), Some(seq!['/']), mount_status(id@, texts(unavailable@)), mount_reason(id@, texts(unavailable@))),
            (nested_url(base@), Some(id@), Some("/page"@), mount_status(id@, texts(unavailable@)), mount_reason(id@, texts(unavailable@))),
        ],
{
    let ghost before = cases_view(out@);
    let down = texts_contain(unavailable, to_chars(id.as_str()).as_slice());
    let status: u16 = if down { 503 } else { 200 };
    let b = to_chars(base.as_str());
    let mut slash: Vec<char> = Vec::new();
    slash.push('/');
    proof {
        assert(slash@ =~= seq!['/']);
        reveal_strlit("/");
        assert(slash@ =~= "/"@);
    }
    let mut nested: Vec<char> = Vec::new();
    crate::text::push_all(&mut nested, b.as_slice());
    if crate::text::ends_with(b.as_slice(), slash.as_slice()) {
        push_str(&mut nested, "page");
    } else {
        push_str(&mut nested, "/page");
    }
    let c1 = ProxyCase {
        url: base.clone(),
        application_id: Some(id.clone()),
        strip_base: Some(from_chars(slash.as_slice())),
        status,
        reason: unavailable_reason(down),
    };
    push_case(out, c1);
    let c2 = ProxyCase {
        url: from_chars(nested.as_slice()),
        application_id: Some(id.clone()),
        strip_base: some_text("/page"),
        status,
        reason: unavailable_reason(down),
    };
    push_case(out, c2);
    proof {
        assert(nested@ == nested_url(base@));
        assert(status == mount_status(id@, texts(unavailable@)));
        assert(cases_view(out@) =~= before + seq![case_view(c1), case_view(c2)]);
    }
}

/// The dispatch cases of a dispatch table (see `proxy_cases`).
pub fn table_cases(table: &Vec<(String, String)>, host_id: &str, unavailable: &Vec<String>) -> (r: Vec<ProxyCase>)
    ensures
        cases_view(r@) == proxy_cases(pair_views(table@), host_id@, texts(unavailable@)),
{
    let ghost t = pair_views(table@);
    let ghost un = texts(unavailable@);
    let mut out: Vec<ProxyCase> = Vec::new();
    let mut i: usize = 0;
    proof {
        assert(t.take(0) =~= Seq::<(Seq<char>, Seq<char>)>::empty());
        assert(cases_view(out@) =~= mount_cases(t.take(0), un));
    }
    while i < table.len()
        invariant
            i <= table.len(),
            t == pair_views(table@),
            un == texts(unavailable@),
            cases_view(out@) == mount_cases(t.take(i as int), un),
        decreases table.len() - i,
    {
        proof {
            assert(t.take(i + 1).drop_last() =~= t.take(i as int));
            assert(t.take(i + 1).last() == t[i as int]);
            assert(t[i as int] == (table@[i as int].0@, table@[i as int].1@));
        }
        push_mount_cases(&mut out, &table[i].0, &table[i].1, unavailable);
        i = i + 1;
    }
    proof {
        assert(t.take(table.len() as int) =~= t);
    }
    let ghost mc = cases_view(out@);
    let mut root: Vec<char> = Vec::new();
    root.push('/');
    proof {
        assert(root@ =~= seq!['/']);
    }
    push_case(
        &mut out,
        ProxyCase {
            url: from_chars(root.as_slice()),
            application_id: Some(text_of(host_id)),
            strip_base: Some(from_chars(root.as_slice())),
            status: 200,
            reason: None,
        },
    );
    push_case(
        &mut out,
        ProxyCase { url: text_of(NO_SUCH_MOUNT), application_id: None, strip_base: None, status: 404, reason: some_text(REASON_NOT_FOUND) },
    );
    proof {
        assert(cases_view(out@) =~= proxy_cases(t, host_id@, un));
    }
    out
}

fn is_contained(id: &[char], proofs: &[FailureContainmentProof]) -> (r: bool)
    ensures
        r == contained(id@, proof_views(proofs@)),
{
    let ghost pv = proof_views(proofs@);
    let reason = to_chars(REASON_UNAVAILABLE);
    let mut k: usize = 0;
    while k < proofs.len()
        invariant
            k <= proofs.len(),
            pv == proof_views(proofs@),
            reason@ == REASON_UNAVAILABLE@,
            forall|j: int|
                0 <= j < k ==> !((#[trigger] pv[j]).0 == id@ && pv[j].5 == 503 && pv[j].6 == REASON_UNAVAILABLE@ && pv[j].1),
        decreases proofs.len() - k,
    {
        let f = &proofs[k];
        proof {
            assert(pv[k as int] == proof_view(*f));
        }
        let a = to_chars(f.failed_application_id.as_str());
        let r = to_chars(f.unavailable.reason.as_str());
        if chars_eq(a.as_slice(), id) && f.unavailable.status == 503 && chars_eq(r.as_slice(), reason.as_slice()) && f.host_survives {
            return true;
        }
        k = k + 1;
    }
    false
}

/// An error for each unavailable application that no failure-containment
/// proof shows answering 503 `application_unavailable` with the host
/// surviving (no error when there are no proofs).
pub fn check_unavailable_contained(
    unavailable: &Vec<String>,
    proofs: &[FailureContainmentProof],
    diagnostics: &mut Vec<ApplicationDiagnostic>,
)
    ensures
        diags_view(final(diagnostics)@) == diags_view(old(diagnostics)@) + uncontained_diags(texts(unavailable@), proof_views(proofs@)),
{
    let ghost un = texts(unavailable@);
    let ghost pv = proof_views(proofs@);
    let mut i: usize = 0;
    proof {
        assert(un.take(0) =~= Seq::<Seq<char>>::empty());
        assert(diags_view(diagnostics@) =~= diags_view(old(diagnostics)@) + uncontained_diags(un.take(0), pv));
    }
    while i < unavailable.len()
        invariant
            i <= unavailable.len(),
            un == texts(unavailable@),
            pv == proof_views(proofs@),
            diags_view(diagnostics@) == diags_view(old(diagnostics)@) + uncontained_diags(un.take(i as int), pv),
        decreases unavailable.len() - i,
    {
        let ghost before = diags_view(diagnostics@);
        proof {
            assert(un.take(i + 1).drop_last() =~= un.take(i as int));
            assert(un.take(i + 1).last() == un[i as int]);
        }
        let id = to_chars(unavailable[i].as_str());
        if proofs.len() > 0 && !is_contained(id.as_slice(), proofs) {
            let mut m = to_chars("unavailable ApplicationId `");
            crate::text::push_all(&mut m, id.as_slice());
            push_str(&mut m, "` lacks failure-containment 503 application_unavailable proof");
            push_diag(
                diagnostics,
                ApplicationDiagnostic { path: unavailable[i].clone(), message: from_chars(m.as_slice()), code: IsolationDiagCode::ProxyMisroute },
            );
            proof {
                assert(diags_view(diagnostics@) =~= diags_view(old(diagnostics)@) + uncontained_diags(un.take(i + 1), pv));
            }
        } else {
            proof {
                assert(diags_view(diagnostics@) =~= diags_view(old(diagnostics)@) + uncontained_diags(un.take(i + 1), pv));
            }
        }
        i = i + 1;
    }
    proof {
        assert(un.take(unavailable.len() as int) =~= un);
    }
}

fn push_opt_debug(out: &mut Vec<char>, o: &Option<String>)
    ensures
        final(out)@ == old(out)@ + opt_debug(opt_view(*o)),
{
    match o {
        Some(t) => {
            push_str(out, "Some(");
            let d = crate::locale::debug_str(t.as_str());
            push_str(out, d.as_str());
            push_str(out, ")");
        },
        None => {
            push_str(out, "None");
        },
    }
}

fn opt_text_eq(a: &Option<String>, b: &Option<String>) -> (r: bool)
    ensures
        r == (opt_view(*a) == opt_view(*b)),
{
    match (a, b) {
        (Some(x), Some(y)) => {
            let p = to_chars(x.as_str());
            let q = to_chars(y.as_str());
            chars_eq(p.as_slice(), q.as_slice())
        },
        (None, None) => true,
        _ => false,
    }
}

/// An error for each case whose status or application differs from what
/// `dispatch_url` gives for its URL.
pub fn check_cases(
    cases: &Vec<ProxyCase>,
    table: &Vec<(String, String)>,
    host_id: &str,
    unavailable: &Vec<String>,
    diagnostics: &mut Vec<ApplicationDiagnostic>,
)
    ensures
        diags_view(final(diagnostics)@) == diags_view(old(diagnostics)@) + case_diags(
            cases_view(cases@),
            pair_views(table@),
            host_id@,
            texts(unavailable@),
        ),
{
    let ghost cv = cases_view(cases@);
    let ghost t = pair_views(table@);
    let ghost un = texts(unavailable@);
    let mut i: usize = 0;
    proof {
        assert(cv.take(0) =~= Seq::<(Seq<char>, Option<Seq<char>>, Option<Seq<char>>, u16, Option<Seq<char>>)>::empty());
        assert(diags_view(diagnostics@) =~= diags_view(old(diagnostics)@) + case_diags(cv.take(0), t, host_id@, un));
    }
    while i < cases.len()
        invariant
            i <= cases.len(),
            cv == cases_view(cases@),
            t == pair_views(table@),
            un == texts(unavailable@),
            diags_view(diagnostics@) == diags_view(old(diagnostics)@) + case_diags(cv.take(i as int), t, host_id@, un),
        decreases cases.len() - i,
    {
        let c = &cases[i];
        proof {
            assert(cv.take(i + 1).drop_last() =~= cv.take(i as int));
            assert(cv.take(i + 1).last() == cv[i as int]);
            assert(cv[i as int] == case_view(*c));
        }
        let e = dispatch_url(c.url.as_str(), table.as_slice(), host_id, unavailable);
        if e.status != c.status || !opt_text_eq(&e.application_id, &c.application_id) {
            let mut m = to_chars("proxy case mismatch for `");
            push_str(&mut m, c.url.as_str());
            push_str(&mut m, "`: expected status=");
            let d1 = crate::wechat_pack::decimal_exec(e.status as u64);
            crate::text::push_all(&mut m, d1.as_slice());
            push_str(&mut m, " app=");
            push_opt_debug(&mut m, &e.application_id);
            push_str(&mut m, ", got status=");
            let d2 = crate::wechat_pack::decimal_exec(c.status as u64);
            crate::text::push_all(&mut m, d2.as_slice());
            push_str(&mut m, " app=");
            push_opt_debug(&mut m, &c.application_id);
            push_diag(
                diagnostics,
                ApplicationDiagnostic { path: c.url.clone(), message: from_chars(m.as_slice()), code: IsolationDiagCode::ProxyMisroute },
            );
            proof {
                assert(m@ =~= mismatch_message(c.url@, case_view(e), case_view(*c)));
                assert(diags_view(diagnostics@) =~= diags_view(old(diagnostics)@) + case_diags(cv.take(i + 1), t, host_id@, un));
            }
        } else {
            proof {
                assert(diags_view(diagnostics@) =~= diags_view(old(diagnostics)@) + case_diags(cv.take(i + 1), t, host_id@, un));
            }
        }
        i = i + 1;
    }
    proof {
        assert(cv.take(cases.len() as int) =~= cv);
    }
}

/// The proxy dispatch of a mount table: the generated cases of its
/// dispatch table, an error for each unavailable application without a
/// failure-containment 503 proof, then one for each case that dispatch
/// contradicts. `unavailable` lists the unavailable applications in order.
pub fn build_proxy_dispatch(
    mounts: &[MountEntry],
    host_id: &str,
    unavailable: &Vec<String>,
    failure_containment: &[FailureContainmentProof],
    diagnostics: &mut Vec<ApplicationDiagnostic>,
) -> (r: Vec<ProxyCase>)
    ensures
        cases_view(r@) == proxy_cases(dispatch_table(mounts@), host_id@, texts(unavailable@)),
        diags_view(final(diagnostics)@) == diags_view(old(diagnostics)@) + uncontained_diags(
            texts(unavailable@),
            proof_views(failure_containment@),
        ) + case_diags(cases_view(r@), dispatch_table(mounts@), host_id@, texts(unavailable@)),
{
    let table = build_dispatch_table(mounts);
    let cases = table_cases(&table, host_id, unavailable);
    let ghost d0 = diags_view(diagnostics@);
    check_unavailable_contained(unavailable, failure_containment, diagnostics);
    check_cases(&cases, &table, host_id, unavailable, diagnostics);
    proof {
        assert(diags_view(diagnostics@) =~= d0 + uncontained_diags(texts(unavailable@), proof_views(failure_containment@))
            + case_diags(cases_view(cases@), dispatch_table(mounts@), host_id@, texts(unavailable@)));
    }
    cases
}

/// The unavailable applications a parsed `unavailable-applications.json`
/// names: the strings of the document when it is an array, else those of
/// its `applications` array.
pub open spec fn unavailable_items(doc: Option<Json>) -> Seq<Seq<char>> {
    match doc {
        Some(Json::Array(a)) => strings_of(a),
        Some(v) => string_items(member(v, "applications"@)),
        None => Seq::empty(),
    }
}

/// The unavailable applications of an `unavailable-applications.json`
/// text, sorted and each once; none for a text that is no JSON.
pub fn unavailable_from_text(text: &str) -> (r: Vec<String>)
    ensures
        strictly_sorted(texts(r@)),
        texts(r@).to_set() == unavailable_items(json_of_text(text@)).to_set(),
{
    let mut out: Vec<String> = Vec::new();
    proof {
        assert(texts(out@) =~= Seq::<Seq<char>>::empty());
    }
    let doc = match parse_json_text(text) {
        Ok(d) => d,
        Err(_) => {
            proof {
                assert(texts(out@).to_set() =~= Seq::<Seq<char>>::empty().to_set());
            }
            return out;
        },
    };
    let items = match &doc {
        JsonValue::Array(_) => string_items_exec(Some(&doc)),
        _ => string_items_exec(doc.get("applications")),
    };
    proof {
        assert(texts(items@) == unavailable_items(json_of_text(text@)));
    }
    let mut i: usize = 0;
    while i < items.len()
        invariant
            i <= items.len(),
            strictly_sorted(texts(out@)),
            texts(out@).to_set() == texts(items@).take(i as int).to_set(),
        decreases items.len() - i,
    {
        let ghost before = texts(out@).to_set();
        insert_sorted_unique(&mut out, items[i].clone());
        proof {
            let t = texts(items@);
            assert(t.take(i + 1) =~= t.take(i as int).push(t[i as int]));
            t.take(i as int).lemma_push_to_set_commute(t[i as int]);
            assert(items@[i as int]@ == t[i as int]);
        }
        i = i + 1;
    }
    proof {
        assert(texts(items@).take(items.len() as int) =~= texts(items@));
    }
    out
}

proof fn lemma_first_mount_at(url: Seq<char>, t: Seq<(Seq<char>, Seq<char>)>, k: int, i: int)
    requires
        0 <= k <= i < t.len(),
        mount_matches(url, t[i].0),
        forall|j: int| k <= j < i ==> !mount_matches(url, #[trigger] t[j].0),
    ensures
        first_mount(url, t, k) == Some(i),
    decreases i - k,
{
    if k < i {
        lemma_first_mount_at(url, t, k + 1, i);
    }
}

/// Dispatch law: over the dispatch table of a mount table, the base of a
/// mount goes to that mount, with `/` as the path its application sees and
/// the mount's status and reason, whenever no other mount has the same
/// base (and the base is not the reserved unmounted URL).
pub proof fn lemma_base_goes_to_its_mount(ms: Seq<MountEntry>, i: int, host: Seq<char>, unavailable: Seq<Seq<char>>)
    requires
        0 <= i < dispatch_table(ms).len(),
        forall|j: int|
            0 <= j < dispatch_table(ms).len() && j != i ==> (#[trigger] dispatch_table(ms)[j]).0 != dispatch_table(ms)[i].0,
        dispatch_table(ms)[i].0 != NO_SUCH_MOUNT@,
    ensures
        ({
            let t = dispatch_table(ms);
            dispatch(t[i].0, t, host, unavailable) == (
                t[i].0,
                Some(t[i].1),
                Some(seq!['/']),
                mount_status(t[i].1, unavailable),
                mount_reason(t[i].1, unavailable),
            )
        }),
{
    let t = dispatch_table(ms);
    let url = t[i].0;
    assert(crate::order::weak_order(longer_base()));
    crate::order::lemma_stable_sort_sorted(mount_pairs(ms), longer_base());
    assert forall|j: int| 0 <= j < i implies !mount_matches(url, #[trigger] t[j].0) by {
        assert(!(longer_base())(t[i], t[j]));
        assert(t[j].0.len() >= url.len());
        if has_prefix(url, t[j].0.push('/')) {
            assert(t[j].0.push('/').len() <= url.len());
        }
    }
    lemma_first_mount_at(url, t, 0, i);
}

} // verus!
