//! Host composition: cross-application `<Link>`s resolve to document
//! navigation hrefs through the target application's mount base and one of
//! its public RouteIds. A Link to an unknown application, to a route that is
//! not public, or to an application without a mount is an error.

use vstd::prelude::*;
use crate::application::{join_application_base, join_result, logical_path_for_route, route_logical_path};
use crate::isolation::MountEntry;
use crate::json::{json_error_of, json_of_text, json_view, json_views, lemma_json_views, member, parse_json_text, Json, JsonValue};
use crate::order::{ins_sorted, lemma_ins_sorted_at, lemma_stable_sort_push, lex_lt, stable_sort, text_order, texts};
use crate::text::{chars_eq, from_chars, push_str, to_chars};

verus! {

/// The path a Link without a source file is reported at.
pub const HOST_PATH: &'static str = "<host>";

/// What a composition diagnostic is about.
#[derive(Debug, Clone, Copy, PartialEq, Eq, Structural)]
pub enum CompositionCode {
    /// A Link names an ApplicationId that no artifact has.
    UnknownReference,
    /// A Link names a RouteId that is not public.
    RouteNotPublic,
    /// A Link's application has no usable mount.
    MountUnreachable,
}

/// One composition error: its code, the file it is about and its message.
#[derive(Debug, Clone)]
pub struct CompositionDiagnostic {
    pub code: CompositionCode,
    pub path: String,
    pub message: String,
}

/// A diagnostic as plain values.
pub open spec fn cdiag_view(d: CompositionDiagnostic) -> (CompositionCode, Seq<char>, Seq<char>) {
    (d.code, d.path@, d.message@)
}

/// Diagnostics as plain values.
pub open spec fn cdiags_view(ds: Seq<CompositionDiagnostic>) -> Seq<(CompositionCode, Seq<char>, Seq<char>)> {
    ds.map_values(|d: CompositionDiagnostic| cdiag_view(d))
}

/// A cross-application Link as written: the target application, the
/// RouteId and the file it was found in.
#[derive(Debug, Clone)]
pub struct RawLink {
    pub application_id: String,
    pub route_id: String,
    pub path: Option<String>,
}

/// What linking reads of an application artifact.
#[derive(Debug, Clone)]
pub struct LinkableApplication {
    pub application_id: String,
    pub public_route_contracts: Vec<String>,
}

/// A resolved Link: a document navigation to `href` under `route_base`.
#[derive(Debug, Clone)]
pub struct CrossApplicationLink {
    pub application_id: String,
    pub route_id: String,
    pub href: String,
    pub route_base: String,
    pub document_navigation: bool,
    pub path: String,
}

/// A raw Link as plain values.
pub open spec fn raw_view(l: RawLink) -> (Seq<char>, Seq<char>, Option<Seq<char>>) {
    (
        l.application_id@,
        l.route_id@,
        match l.path {
            Some(p) => Some(p@),
            None => None,
        },
    )
}

/// Raw Links as plain values.
pub open spec fn raw_views(s: Seq<RawLink>) -> Seq<(Seq<char>, Seq<char>, Option<Seq<char>>)> {
    s.map_values(|l: RawLink| raw_view(l))
}

/// Applications as plain values: (ApplicationId, public RouteIds).
pub open spec fn app_views(s: Seq<LinkableApplication>) -> Seq<(Seq<char>, Seq<Seq<char>>)> {
    s.map_values(|a: LinkableApplication| (a.application_id@, texts(a.public_route_contracts@)))
}

/// Mounts as plain values: (ApplicationId, route base).
pub open spec fn mount_views(s: Seq<MountEntry>) -> Seq<(Seq<char>, Seq<char>)> {
    s.map_values(|m: MountEntry| (m.application_id@, m.route_base@))
}

/// A resolved Link as plain values: application, RouteId, href, route
/// base, document navigation, path.
pub open spec fn link_view(l: CrossApplicationLink) -> (Seq<char>, Seq<char>, Seq<char>, Seq<char>, bool, Seq<char>) {
    (l.application_id@, l.route_id@, l.href@, l.route_base@, l.document_navigation, l.path@)
}

/// Resolved Links as plain values.
pub open spec fn link_views(s: Seq<CrossApplicationLink>) -> Seq<(Seq<char>, Seq<char>, Seq<char>, Seq<char>, bool, Seq<char>)> {
    s.map_values(|l: CrossApplicationLink| link_view(l))
}

/// The index of the last entry among the first `n` keyed `id` (a later
/// entry for an id takes the place of an earlier one).
pub open spec fn last_keyed<V>(s: Seq<(Seq<char>, V)>, id: Seq<char>, n: int) -> Option<int>
    decreases n,
{
    if n <= 0 {
        None
    } else if s[n - 1].0 == id {
        Some(n - 1)
    } else {
        last_keyed(s, id, n - 1)
    }
}

/// What one Link resolves to: the resolved Link, or the error it gives.
pub open spec fn link_outcome(
    link: (Seq<char>, Seq<char>, Option<Seq<char>>),
    apps: Seq<(Seq<char>, Seq<Seq<char>>)>,
    mounts: Seq<(Seq<char>, Seq<char>)>,
) -> Result<(Seq<char>, Seq<char>, Seq<char>, Seq<char>, bool, Seq<char>), (CompositionCode, Seq<char>, Seq<char>)> {
    let (app, route, p) = link;
    let path = match p {
        Some(x) => x,
        None => HOST_PATH@,
    };
    match last_keyed(apps, app, apps.len() as int) {
        None => Err(
            (
                CompositionCode::UnknownReference,
                path,
                "cross-application Link references unknown ApplicationId `"@ + app + "`"@,
            ),
        ),
        Some(a) => {
            let publics = apps[a].1;
            if !publics.contains(route) {
                Err(
                    (
                        CompositionCode::RouteNotPublic,
                        path,
                        "RouteId `"@ + route + "` is not a public route contract of ApplicationId `"@ + app + "`"@,
                    ),
                )
            } else {
                match last_keyed(mounts, app, mounts.len() as int) {
                    None => Err(
                        (
                            CompositionCode::MountUnreachable,
                            path,
                            "ApplicationId `"@ + app
                                + "` has no mount in this deployment profile; cross-app Link href cannot be resolved"@,
                        ),
                    ),
                    Some(m) => {
                        let base = mounts[m].1;
                        match route_logical_path(app, route, publics) {
                            None => Err(
                                (
                                    CompositionCode::RouteNotPublic,
                                    path,
                                    "cannot derive logical path for public RouteId `"@ + route + "` on `"@ + app + "`"@,
                                ),
                            ),
                            Some(logical) => match join_result(base, logical) {
                                Err(msg) => Err(
                                    (
                                        CompositionCode::MountUnreachable,
                                        path,
                                        "Link href join failed for `"@ + app + "`: "@ + msg,
                                    ),
                                ),
                                Ok(href) => Ok((app, route, href, base, true, path)),
                            },
                        }
                    },
                }
            }
        },
    }
}

/// The Links that resolve, in order.
pub open spec fn resolved_links(
    links: Seq<(Seq<char>, Seq<char>, Option<Seq<char>>)>,
    apps: Seq<(Seq<char>, Seq<Seq<char>>)>,
    mounts: Seq<(Seq<char>, Seq<char>)>,
) -> Seq<(Seq<char>, Seq<char>, Seq<char>, Seq<char>, bool, Seq<char>)>
    decreases links.len(),
{
    if links.len() == 0 {
        Seq::empty()
    } else {
        let p = resolved_links(links.drop_last(), apps, mounts);
        match link_outcome(links.last(), apps, mounts) {
            Ok(l) => p.push(l),
            Err(_) => p,
        }
    }
}

/// The errors of the Links that do not resolve, in order.
pub open spec fn link_errors(
    links: Seq<(Seq<char>, Seq<char>, Option<Seq<char>>)>,
    apps: Seq<(Seq<char>, Seq<Seq<char>>)>,
    mounts: Seq<(Seq<char>, Seq<char>)>,
) -> Seq<(CompositionCode, Seq<char>, Seq<char>)>
    decreases links.len(),
{
    if links.len() == 0 {
        Seq::empty()
    } else {
        let p = link_errors(links.drop_last(), apps, mounts);
        match link_outcome(links.last(), apps, mounts) {
            Ok(_) => p,
            Err(e) => p.push(e),
        }
    }
}

fn text_of(s: &str) -> (r: String)
    ensures
        r@ == s@,
{
    from_chars(to_chars(s).as_slice())
}

fn find_app(apps: &[LinkableApplication], id: &[char]) -> (r: Option<usize>)
    ensures
        match r {
            Some(i) => last_keyed(app_views(apps@), id@, apps@.len() as int) == Some(i as int) && i < apps.len(),
            None => last_keyed(app_views(apps@), id@, apps@.len() as int) is None,
        },
{
    let ghost av = app_views(apps@);
    let mut n: usize = apps.len();
    while n > 0
        invariant
            n <= apps.len(),
            av == app_views(apps@),
            last_keyed(av, id@, apps@.len() as int) == last_keyed(av, id@, n as int),
        decreases n,
    {
        let k = to_chars(apps[n - 1].application_id.as_str());
        proof {
            assert(av[n - 1].0 == apps@[n - 1].application_id@);
        }
        if chars_eq(k.as_slice(), id) {
            return Some(n - 1);
        }
        n = n - 1;
    }
    None
}

fn find_mount(mounts: &[MountEntry], id: &[char]) -> (r: Option<usize>)
    ensures
        match r {
            Some(i) => last_keyed(mount_views(mounts@), id@, mounts@.len() as int) == Some(i as int) && i < mounts.len(),
            None => last_keyed(mount_views(mounts@), id@, mounts@.len() as int) is None,
        },
{
    let ghost mv = mount_views(mounts@);
    let mut n: usize = mounts.len();
    while n > 0
        invariant
            n <= mounts.len(),
            mv == mount_views(mounts@),
            last_keyed(mv, id@, mounts@.len() as int) == last_keyed(mv, id@, n as int),
        decreases n,
    {
        let k = to_chars(mounts[n - 1].application_id.as_str());
        proof {
            assert(mv[n - 1].0 == mounts@[n - 1].application_id@);
        }
        if chars_eq(k.as_slice(), id) {
            return Some(n - 1);
        }
        n = n - 1;
    }
    None
}

fn has_text(v: &Vec<String>, x: &str) -> (r: bool)
    ensures
        r == texts(v@).contains(x@),
{
    crate::order::texts_contain(v, to_chars(x).as_slice())
}

fn error_of(code: CompositionCode, path: &String, message: Vec<char>) -> (d: CompositionDiagnostic)
    ensures
        cdiag_view(d) == (code, path@, message@),
{
    CompositionDiagnostic { code, path: path.clone(), message: from_chars(message.as_slice()) }
}

/// Resolve one Link against the applications and their mounts.
pub fn resolve_link(
    link: &RawLink,
    apps: &[LinkableApplication],
    mounts: &[MountEntry],
) -> (r: Result<CrossApplicationLink, CompositionDiagnostic>)
    ensures
        match r {
            Ok(l) => link_outcome(raw_view(*link), app_views(apps@), mount_views(mounts@)) == Ok::<
                (Seq<char>, Seq<char>, Seq<char>, Seq<char>, bool, Seq<char>),
                (CompositionCode, Seq<char>, Seq<char>),
            >(link_view(l)),
            Err(d) => link_outcome(raw_view(*link), app_views(apps@), mount_views(mounts@)) == Err::<
                (Seq<char>, Seq<char>, Seq<char>, Seq<char>, bool, Seq<char>),
                (CompositionCode, Seq<char>, Seq<char>),
            >(cdiag_view(d)),
        },
{
    let ghost av = app_views(apps@);
    let ghost mv = mount_views(mounts@);
    let app = link.application_id.as_str();
    let route = link.route_id.as_str();
    let path = match &link.path {
        Some(p) => p.clone(),
        None => text_of(HOST_PATH),
    };
    let a = match find_app(apps, to_chars(app).as_slice()) {
        None => {
            let mut m = to_chars("cross-application Link references unknown ApplicationId `");
            push_str(&mut m, app);
            push_str(&mut m, "`");
            return Err(error_of(CompositionCode::UnknownReference, &path, m));
        },
        Some(a) => a,
    };
    let publics = &apps[a].public_route_contracts;
    proof {
        assert(av[a as int].1 == texts(publics@));
    }
    if !has_text(publics, route) {
        let mut m = to_chars("RouteId `");
        push_str(&mut m, route);
        push_str(&mut m, "` is not a public route contract of ApplicationId `");
        push_str(&mut m, app);
        push_str(&mut m, "`");
        return Err(error_of(CompositionCode::RouteNotPublic, &path, m));
    }
    let mi = match find_mount(mounts, to_chars(app).as_slice()) {
        None => {
            let mut m = to_chars("ApplicationId `");
            push_str(&mut m, app);
            push_str(&mut m, "` has no mount in this deployment profile; cross-app Link href cannot be resolved");
            return Err(error_of(CompositionCode::MountUnreachable, &path, m));
        },
        Some(mi) => mi,
    };
    let base = &mounts[mi].route_base;
    proof {
        assert(mv[mi as int].1 == base@);
    }
    let logical = match logical_path_for_route(app, route, publics.as_slice()) {
        None => {
            let mut m = to_chars("cannot derive logical path for public RouteId `");
            push_str(&mut m, route);
            push_str(&mut m, "` on `");
            push_str(&mut m, app);
            push_str(&mut m, "`");
            return Err(error_of(CompositionCode::RouteNotPublic, &path, m));
        },
        Some(l) => l,
    };
    match join_application_base(base.as_str(), logical.as_str()) {
        Err(msg) => {
            let mut m = to_chars("Link href join failed for `");
            push_str(&mut m, app);
            push_str(&mut m, "`: ");
            push_str(&mut m, msg.as_str());
            Err(error_of(CompositionCode::MountUnreachable, &path, m))
        },
        Ok(href) => Ok(
            CrossApplicationLink {
                application_id: link.application_id.clone(),
                route_id: link.route_id.clone(),
                href,
                route_base: base.clone(),
                document_navigation: true,
                path,
            },
        ),
    }
}

/// Resolve Links in order: the Links that resolve, and an error appended
/// for each one that does not.
pub fn resolve_links(
    links: &[RawLink],
    apps: &[LinkableApplication],
    mounts: &[MountEntry],
    diagnostics: &mut Vec<CompositionDiagnostic>,
) -> (r: Vec<CrossApplicationLink>)
    ensures
        link_views(r@) == resolved_links(raw_views(links@), app_views(apps@), mount_views(mounts@)),
        cdiags_view(final(diagnostics)@) == cdiags_view(old(diagnostics)@) + link_errors(
            raw_views(links@),
            app_views(apps@),
            mount_views(mounts@),
        ),
{
    let ghost lv = raw_views(links@);
    let ghost av = app_views(apps@);
    let ghost mv = mount_views(mounts@);
    let mut out: Vec<CrossApplicationLink> = Vec::new();
    let mut i: usize = 0;
    proof {
        assert(lv.take(0) =~= Seq::<(Seq<char>, Seq<char>, Option<Seq<char>>)>::empty());
        assert(link_views(out@) =~= resolved_links(lv.take(0), av, mv));
        assert(cdiags_view(diagnostics@) =~= cdiags_view(old(diagnostics)@) + link_errors(lv.take(0), av, mv));
    }
    while i < links.len()
        invariant
            i <= links.len(),
            lv == raw_views(links@),
            av == app_views(apps@),
            mv == mount_views(mounts@),
            link_views(out@) == resolved_links(lv.take(i as int), av, mv),
            cdiags_view(diagnostics@) == cdiags_view(old(diagnostics)@) + link_errors(lv.take(i as int), av, mv),
        decreases links.len() - i,
    {
        proof {
            assert(lv.take(i + 1).drop_last() =~= lv.take(i as int));
            assert(lv.take(i + 1).last() == raw_view(links@[i as int]));
        }
        let ghost before_out = link_views(out@);
        let ghost before_d = cdiags_view(diagnostics@);
        match resolve_link(&links[i], apps, mounts) {
            Ok(l) => {
                out.push(l);
                proof {
                    assert(link_views(out@) =~= before_out.push(link_view(l)));
                }
            },
            Err(d) => {
                diagnostics.push(d);
                proof {
                    assert(cdiags_view(diagnostics@) =~= before_d.push(cdiag_view(d)));
                    assert(cdiags_view(diagnostics@) =~= cdiags_view(old(diagnostics)@) + link_errors(lv.take(i + 1), av, mv));
                }
            },
        }
        i = i + 1;
    }
    proof {
        assert(lv.take(links.len() as int) =~= lv);
    }
    out
}

/// The Link entries of a parsed `cross-links.json`: the document when it is
/// an array, else its `links` array.
pub open spec fn declared_items(doc: Json) -> Seq<Json> {
    match doc {
        Json::Array(a) => a,
        _ => match member(doc, "links"@) {
            Some(Json::Array(a)) => a,
            _ => Seq::empty(),
        },
    }
}

/// The Links among the first `n` entries: those with string `application`
/// and `to`, found at `path`.
pub open spec fn declared_links(items: Seq<Json>, path: Seq<char>, n: int) -> Seq<(Seq<char>, Seq<char>, Option<Seq<char>>)>
    decreases n,
{
    if n <= 0 {
        Seq::empty()
    } else {
        let p = declared_links(items, path, n - 1);
        match (member(items[n - 1], "application"@), member(items[n - 1], "to"@)) {
            (Some(Json::Str(app)), Some(Json::Str(to))) => p.push((app, to, Some(path))),
            _ => p,
        }
    }
}

/// The Links a `cross-links.json` text at `path` declares; an error when
/// the text is no JSON.
pub fn declared_links_from_text(path: &str, text: &str) -> (r: Result<Vec<RawLink>, CompositionDiagnostic>)
    ensures
        match json_of_text(text@) {
            None => r matches Err(d) && cdiag_view(d) == (
                CompositionCode::UnknownReference,
                path@,
                "cross-links.json is not JSON: "@ + json_error_of(text@),
            ),
            Some(doc) => r matches Ok(v) && raw_views(v@) == declared_links(
                declared_items(doc),
                path@,
                declared_items(doc).len() as int,
            ),
        },
{
    let doc = match parse_json_text(text) {
        Ok(d) => d,
        Err(e) => {
            let mut m = to_chars("cross-links.json is not JSON: ");
            push_str(&mut m, e.as_str());
            return Err(CompositionDiagnostic { code: CompositionCode::UnknownReference, path: text_of(path), message: from_chars(m.as_slice()) });
        },
    };
    let empty: Vec<JsonValue> = Vec::new();
    let items: &Vec<JsonValue> = match &doc {
        JsonValue::Array(a) => a,
        _ => match doc.get("links") {
            Some(JsonValue::Array(a)) => a,
            _ => &empty,
        },
    };
    proof {
        lemma_json_views(items@);
        assert(json_views(items@) == declared_items(doc@));
    }
    let ghost iv = json_views(items@);
    let mut out: Vec<RawLink> = Vec::new();
    let mut i: usize = 0;
    proof {
        assert(raw_views(out@) =~= declared_links(iv, path@, 0));
    }
    while i < items.len()
        invariant
            i <= items.len(),
            iv == json_views(items@),
            iv.len() == items@.len(),
            forall|j: int| 0 <= j < items@.len() ==> #[trigger] iv[j] == json_view(items@[j]),
            raw_views(out@) == declared_links(iv, path@, i as int),
        decreases items.len() - i,
    {
        let item = &items[i];
        proof {
            assert(iv[i as int] == item@);
        }
        match (item.get("application"), item.get("to")) {
            (Some(JsonValue::Str(app)), Some(JsonValue::Str(to))) => {
                let ghost before = raw_views(out@);
                out.push(RawLink { application_id: app.clone(), route_id: to.clone(), path: Some(text_of(path)) });
                proof {
                    assert(raw_views(out@) =~= before.push((app@, to@, Some(path@))));
                }
            },
            _ => {},
        }
        i = i + 1;
    }
    Ok(out)
}

/// Links ordered by ApplicationId, then RouteId.
pub open spec fn link_lt() -> spec_fn((Seq<char>, Seq<char>, Option<Seq<char>>), (Seq<char>, Seq<char>, Option<Seq<char>>)) -> bool {
    |a: (Seq<char>, Seq<char>, Option<Seq<char>>), b: (Seq<char>, Seq<char>, Option<Seq<char>>)|
        lex_lt(a.0, b.0) || (a.0 == b.0 && lex_lt(a.1, b.1))
}

/// `s` without entries equal to the one just before them.
pub open spec fn dedup_links(s: Seq<(Seq<char>, Seq<char>, Option<Seq<char>>)>) -> Seq<(Seq<char>, Seq<char>, Option<Seq<char>>)>
    decreases s.len(),
{
    if s.len() == 0 {
        Seq::empty()
    } else {
        let d = dedup_links(s.drop_last());
        if s.len() > 1 && s[s.len() - 2] == s.last() {
            d
        } else {
            d.push(s.last())
        }
    }
}

/// The order in which Links are resolved: stably sorted by ApplicationId
/// and RouteId, a Link equal to the one before it dropped.
pub open spec fn ordered_links(s: Seq<(Seq<char>, Seq<char>, Option<Seq<char>>)>) -> Seq<(Seq<char>, Seq<char>, Option<Seq<char>>)> {
    dedup_links(stable_sort(s, link_lt()))
}

fn link_before(x: &RawLink, y: &RawLink) -> (r: bool)
    ensures
        r == (link_lt())(raw_view(*x), raw_view(*y)),
{
    let c = text_order(&x.application_id, &y.application_id);
    if c < 0 {
        true
    } else if c > 0 {
        false
    } else {
        text_order(&x.route_id, &y.route_id) < 0
    }
}

fn opt_text_eq(a: &Option<String>, b: &Option<String>) -> (r: bool)
    ensures
        r == (match a {
            Some(x) => Some(x@),
            None => None::<Seq<char>>,
        } == match b {
            Some(x) => Some(x@),
            None => None::<Seq<char>>,
        }),
{
    match (a, b) {
        (Some(x), Some(y)) => chars_eq(to_chars(x.as_str()).as_slice(), to_chars(y.as_str()).as_slice()),
        (None, None) => true,
        _ => false,
    }
}

fn link_eq(x: &RawLink, y: &RawLink) -> (r: bool)
    ensures
        r == (raw_view(*x) == raw_view(*y)),
{
    chars_eq(to_chars(x.application_id.as_str()).as_slice(), to_chars(y.application_id.as_str()).as_slice())
        && chars_eq(to_chars(x.route_id.as_str()).as_slice(), to_chars(y.route_id.as_str()).as_slice()) && opt_text_eq(
        &x.path,
        &y.path,
    )
}

fn insert_link(out: &mut Vec<RawLink>, l: RawLink)
    ensures
        raw_views(final(out)@) == ins_sorted(raw_views(old(out)@), raw_view(l), link_lt()),
{
    let ghost t = raw_views(out@);
    let ghost x = raw_view(l);
    let mut p: usize = 0;
    while p < out.len() && !link_before(&l, &out[p])
        invariant
            p <= out.len(),
            t == raw_views(out@),
            x == raw_view(l),
            forall|j: int| 0 <= j < p ==> !(link_lt())(x, #[trigger] t[j]),
        decreases out.len() - p,
    {
        proof {
            assert(t[p as int] == raw_view(out@[p as int]));
        }
        p = p + 1;
    }
    proof {
        if p < out.len() {
            assert(t[p as int] == raw_view(out@[p as int]));
        }
        lemma_ins_sorted_at(t, x, link_lt(), p as int);
    }
    out.insert(p, l);
    proof {
        assert(raw_views(out@) =~= t.take(p as int) + seq![x] + t.skip(p as int));
    }
}

/// Links in resolution order (see `ordered_links`).
pub fn order_links(links: Vec<RawLink>) -> (r: Vec<RawLink>)
    ensures
        raw_views(r@) == ordered_links(raw_views(links@)),
{
    let ghost lv = raw_views(links@);
    let mut sorted: Vec<RawLink> = Vec::new();
    let mut i: usize = 0;
    while i < links.len()
        invariant
            i <= links.len(),
            lv == raw_views(links@),
            raw_views(sorted@) == stable_sort(lv.take(i as int), link_lt()),
        decreases links.len() - i,
    {
        proof {
            assert(lv.take(i + 1) =~= lv.take(i as int).push(lv[i as int]));
            lemma_stable_sort_push(lv.take(i as int), lv[i as int], link_lt());
        }
        insert_link(&mut sorted, links[i].clone_link());
        i = i + 1;
    }
    proof {
        assert(lv.take(links.len() as int) =~= lv);
    }
    let ghost sv = raw_views(sorted@);
    let mut out: Vec<RawLink> = Vec::new();
    let mut k: usize = 0;
    proof {
        assert(raw_views(out@) =~= dedup_links(sv.take(0)));
    }
    while k < sorted.len()
        invariant
            k <= sorted.len(),
            sv == raw_views(sorted@),
            raw_views(out@) == dedup_links(sv.take(k as int)),
        decreases sorted.len() - k,
    {
        proof {
            assert(sv.take(k + 1).drop_last() =~= sv.take(k as int));
            assert(sv.take(k + 1).last() == sv[k as int]);
            if k > 0 {
                assert(sv.take(k + 1)[k - 1] == sv[k - 1]);
            }
        }
        let keep = k == 0 || !link_eq(&sorted[k - 1], &sorted[k]);
        if keep {
            let ghost before = raw_views(out@);
            out.push(sorted[k].clone_link());
            proof {
                assert(raw_views(out@) =~= before.push(sv[k as int]));
            }
        }
        k = k + 1;
    }
    proof {
        assert(sv.take(sorted.len() as int) =~= sv);
    }
    out
}

impl RawLink {
    /// A copy of this Link.
    pub fn clone_link(&self) -> (r: RawLink)
        ensures
            raw_view(r) == raw_view(*self),
    {
        RawLink {
            application_id: self.application_id.clone(),
            route_id: self.route_id.clone(),
            path: match &self.path {
                Some(p) => Some(p.clone()),
                None => None,
            },
        }
    }
}

/// Host composition of Links: the Links found in sources and those
/// declared, in resolution order, resolved against the applications and
/// their mounts (errors appended for those that do not resolve).
pub fn compose_links(
    found: Vec<RawLink>,
    declared: Vec<RawLink>,
    apps: &[LinkableApplication],
    mounts: &[MountEntry],
    diagnostics: &mut Vec<CompositionDiagnostic>,
) -> (r: Vec<CrossApplicationLink>)
    ensures
        link_views(r@) == resolved_links(
            ordered_links(raw_views(found@) + raw_views(declared@)),
            app_views(apps@),
            mount_views(mounts@),
        ),
        cdiags_view(final(diagnostics)@) == cdiags_view(old(diagnostics)@) + link_errors(
            ordered_links(raw_views(found@) + raw_views(declared@)),
            app_views(apps@),
            mount_views(mounts@),
        ),
{
    let mut all = found;
    let mut d = declared;
    let ghost a0 = raw_views(all@);
    let ghost d0 = raw_views(d@);
    all.append(&mut d);
    proof {
        assert(raw_views(all@) =~= a0 + d0);
    }
    let ordered = order_links(all);
    resolve_links(ordered.as_slice(), apps, mounts, diagnostics)
}

/// Link law: the href of a resolved Link, with its mount base stripped as
/// the host's dev server and relocation do, gives back the logical path of
/// the linked public route.
pub proof fn lemma_resolved_link_strips_to_route(
    link: (Seq<char>, Seq<char>, Option<Seq<char>>),
    apps: Seq<(Seq<char>, Seq<Seq<char>>)>,
    mounts: Seq<(Seq<char>, Seq<char>)>,
)
    requires
        link_outcome(link, apps, mounts) is Ok,
    ensures
        ({
            let r = link_outcome(link, apps, mounts)->Ok_0;
            let a = last_keyed(apps, link.0, apps.len() as int)->0;
            let logical = route_logical_path(link.0, link.1, apps[a].1)->0;
            crate::application::strip_result(r.3, r.2) == Ok::<Option<Seq<char>>, Seq<char>>(
                Some(crate::application::logical_path_result(logical)->Ok_0),
            )
        }),
{
    let a = last_keyed(apps, link.0, apps.len() as int)->0;
    let m = last_keyed(mounts, link.0, mounts.len() as int)->0;
    let logical = route_logical_path(link.0, link.1, apps[a].1)->0;
    crate::application::lemma_strip_join_roundtrip(mounts[m].1, logical);
}

} // verus!
