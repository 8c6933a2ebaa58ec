//! Host mount validation: each mount must name a declared ApplicationId,
//! carry a valid route base, be the only mount of its application, and not
//! overlap another mount's base.

use vstd::prelude::*;
use crate::application::{find_span, first_span, normalize_route_base, route_base_result, route_bases_collide, bases_collide};
use crate::order::{texts, texts_contain};
use crate::application::valid_application_id;
use crate::deployment_doc::{string_items, string_items_exec};
use crate::json::{json_error_of, json_of_text, member, parse_json_text, str_field, Json, JsonValue};
use crate::reloc::{diag_view, ApplicationCode, ApplicationDiagnostic, SourceSpan};
use crate::text::{chars_eq, from_chars, push_all, push_str, to_chars};
use crate::wechat_pack::{decimal, decimal_exec};

verus! {

/// One mount of the host's applications config.
#[derive(Debug, Clone)]
pub struct ApplicationMount {
    pub application: String,
    pub route_base: String,
    pub deployment_ref: Option<String>,
}

/// Mounts as plain values: (ApplicationId, raw route base).
pub open spec fn mount_views(ms: Seq<ApplicationMount>) -> Seq<(Seq<char>, Seq<char>)> {
    ms.map_values(|m: ApplicationMount| (m.application@, m.route_base@))
}

/// A byte span as a source span.
pub open spec fn to_span(o: Option<(int, int)>) -> Option<SourceSpan> {
    match o {
        Some((a, b)) => Some(SourceSpan { start: a as u32, end: b as u32 }),
        None => None,
    }
}

/// Diagnostics as plain values.
pub open spec fn adiags_view(ds: Seq<ApplicationDiagnostic>) -> Seq<(ApplicationCode, Seq<char>, Seq<char>, Option<SourceSpan>)> {
    ds.map_values(|d: ApplicationDiagnostic| diag_view(d))
}

/// The raw base of the last mount before `i` of `app` whose base is valid.
pub open spec fn prev_base(ms: Seq<(Seq<char>, Seq<char>)>, app: Seq<char>, i: int) -> Option<Seq<char>>
    decreases i,
{
    if i <= 0 {
        None
    } else if ms[i - 1].0 == app && route_base_result(ms[i - 1].1) is Ok {
        Some(ms[i - 1].1)
    } else {
        prev_base(ms, app, i - 1)
    }
}

/// The errors of mount `i` on its own: an unknown ApplicationId, then an
/// invalid base, or else a second mount of the same application.
pub open spec fn one_mount_diags(
    ms: Seq<(Seq<char>, Seq<char>)>,
    known: Seq<Seq<char>>,
    path: Seq<char>,
    source: Seq<char>,
    i: int,
) -> Seq<(ApplicationCode, Seq<char>, Seq<char>, Option<SourceSpan>)> {
    let (app, raw) = ms[i];
    let unknown = if known.contains(app) {
        Seq::empty()
    } else {
        seq![
            (
                ApplicationCode::UnknownReference,
                path,
                "mount references unknown ApplicationId `"@ + app + "` (no package.json#vmz.application with this id)"@,
                to_span(first_span(source, app)),
            ),
        ]
    };
    let rest = match route_base_result(raw) {
        Err(msg) => seq![
            (
                ApplicationCode::InvalidRouteBase,
                path,
                "mounts["@ + decimal(i as nat) + "] ("@ + app + "): "@ + msg,
                to_span(first_span(source, raw)),
            ),
        ],
        Ok(_) => match prev_base(ms, app, i) {
            Some(pb) => seq![
                (
                    ApplicationCode::DuplicateMount,
                    path,
                    "ApplicationId `"@ + app + "` has multiple mounts (`"@ + pb + "` and `"@ + raw
                        + "`); one ApplicationId may have only one canonical mount base per deployment profile"@,
                    to_span(first_span(source, app)),
                ),
            ],
            None => Seq::empty(),
        },
    };
    unknown + rest
}

/// The errors of the first `n` mounts on their own.
pub open spec fn mount_diags(
    ms: Seq<(Seq<char>, Seq<char>)>,
    known: Seq<Seq<char>>,
    path: Seq<char>,
    source: Seq<char>,
    n: int,
) -> Seq<(ApplicationCode, Seq<char>, Seq<char>, Option<SourceSpan>)>
    decreases n,
{
    if n <= 0 {
        Seq::empty()
    } else {
        mount_diags(ms, known, path, source, n - 1) + one_mount_diags(ms, known, path, source, n - 1)
    }
}

/// The mounts among the first `n` with a valid base: (index, normalised
/// base, ApplicationId).
pub open spec fn valid_mounts(ms: Seq<(Seq<char>, Seq<char>)>, n: int) -> Seq<(int, Seq<char>, Seq<char>)>
    decreases n,
{
    if n <= 0 {
        Seq::empty()
    } else {
        let p = valid_mounts(ms, n - 1);
        match route_base_result(ms[n - 1].1) {
            Ok(b) => p.push((n - 1, b, ms[n - 1].0)),
            Err(_) => p,
        }
    }
}

/// The error for two overlapping mounts; its span is at the base with more
/// UTF-8 bytes (the first when they have as many).
pub open spec fn collision_diag(
    x: (int, Seq<char>, Seq<char>),
    y: (int, Seq<char>, Seq<char>),
    path: Seq<char>,
    source: Seq<char>,
) -> (ApplicationCode, Seq<char>, Seq<char>, Option<SourceSpan>) {
    (
        ApplicationCode::MountCollision,
        path,
        "mount routeBase collision: mounts["@ + decimal(x.0 as nat) + "] `"@ + x.2 + "` \u{2192} `"@ + x.1 + "` overlaps mounts["@
            + decimal(y.0 as nat) + "] `"@ + y.2 + "` \u{2192} `"@ + y.1 + "`"@,
        to_span(
            first_span(
                source,
                if vstd::utf8::encode_utf8(x.1).len() >= vstd::utf8::encode_utf8(y.1).len() {
                    x.1
                } else {
                    y.1
                },
            ),
        ),
    )
}

/// Collision errors of valid mount `i` with valid mounts `i + 1` to `k - 1`.
pub open spec fn collisions_with(
    vm: Seq<(int, Seq<char>, Seq<char>)>,
    i: int,
    k: int,
    path: Seq<char>,
    source: Seq<char>,
) -> Seq<(ApplicationCode, Seq<char>, Seq<char>, Option<SourceSpan>)>
    decreases k - i,
{
    if k <= i + 1 {
        Seq::empty()
    } else {
        let p = collisions_with(vm, i, k - 1, path, source);
        if bases_collide(vm[i].1, vm[k - 1].1) {
            p.push(collision_diag(vm[i], vm[k - 1], path, source))
        } else {
            p
        }
    }
}

/// Collision errors of every pair of valid mounts whose first is among the
/// first `n`, pairs in order.
pub open spec fn collisions(
    vm: Seq<(int, Seq<char>, Seq<char>)>,
    n: int,
    path: Seq<char>,
    source: Seq<char>,
) -> Seq<(ApplicationCode, Seq<char>, Seq<char>, Option<SourceSpan>)>
    decreases n,
{
    if n <= 0 {
        Seq::empty()
    } else {
        collisions(vm, n - 1, path, source) + collisions_with(vm, n - 1, vm.len() as int, path, source)
    }
}

/// All errors of a host's mounts, in order.
pub open spec fn all_mount_diags(
    ms: Seq<(Seq<char>, Seq<char>)>,
    known: Seq<Seq<char>>,
    path: Seq<char>,
    source: Seq<char>,
) -> Seq<(ApplicationCode, Seq<char>, Seq<char>, Option<SourceSpan>)> {
    let vm = valid_mounts(ms, ms.len() as int);
    mount_diags(ms, known, path, source, ms.len() as int) + collisions(vm, vm.len() as int, path, source)
}

fn span_of(source: &str, needle: &str) -> (r: Option<SourceSpan>)
    requires
        vstd::utf8::encode_utf8(source@).len() <= u32::MAX,
    ensures
        r == to_span(first_span(source@, needle@)),
{
    match find_span(source, needle) {
        Some((a, b)) => Some(SourceSpan { start: a, end: b }),
        None => None,
    }
}

fn push_adiag(out: &mut Vec<ApplicationDiagnostic>, d: ApplicationDiagnostic)
    ensures
        adiags_view(final(out)@) == adiags_view(old(out)@).push(diag_view(d)),
{
    let ghost before = out@;
    out.push(d);
    proof {
        assert(adiags_view(out@) =~= adiags_view(before).push(diag_view(d)));
    }
}

fn prev_base_exec(mounts: &[ApplicationMount], app: &[char], i: usize) -> (r: Option<usize>)
    requires
        i <= mounts.len(),
    ensures
        match r {
            Some(j) => j < i && prev_base(mount_views(mounts@), app@, i as int) == Some(mount_views(mounts@)[j as int].1),
            None => prev_base(mount_views(mounts@), app@, i as int) is None,
        },
{
    let ghost mv = mount_views(mounts@);
    let mut k: usize = i;
    while k > 0
        invariant
            k <= i <= mounts.len(),
            mv == mount_views(mounts@),
            prev_base(mv, app@, i as int) == prev_base(mv, app@, k as int),
        decreases k,
    {
        let m = &mounts[k - 1];
        proof {
            assert(mv[k - 1] == (m.application@, m.route_base@));
        }
        let a = to_chars(m.application.as_str());
        if chars_eq(a.as_slice(), app) {
            match normalize_route_base(m.route_base.as_str()) {
                Ok(_) => {
                    return Some(k - 1);
                },
                Err(_) => {},
            }
        }
        k = k - 1;
    }
    None
}

/// Valid mounts as plain values.
pub open spec fn valid_view(v: Seq<(usize, String, String)>) -> Seq<(int, Seq<char>, Seq<char>)> {
    v.map_values(|t: (usize, String, String)| (t.0 as int, t.1@, t.2@))
}

fn check_one_mount(
    mounts: &[ApplicationMount],
    known_ids: &Vec<String>,
    config_path: &str,
    source: &str,
    i: usize,
    diagnostics: &mut Vec<ApplicationDiagnostic>,
) -> (r: Option<String>)
    requires
        i < mounts.len(),
        vstd::utf8::encode_utf8(source@).len() <= u32::MAX,
    ensures
        adiags_view(final(diagnostics)@) == adiags_view(old(diagnostics)@) + one_mount_diags(
            mount_views(mounts@),
            texts(known_ids@),
            config_path@,
            source@,
            i as int,
        ),
        match r {
            Some(b) => route_base_result(mount_views(mounts@)[i as int].1) == Ok::<Seq<char>, Seq<char>>(b@),
            None => route_base_result(mount_views(mounts@)[i as int].1) is Err,
        },
{
    let ghost mv = mount_views(mounts@);
    let ghost d0 = adiags_view(diagnostics@);
    let m = &mounts[i];
    proof {
        assert(mv[i as int] == (m.application@, m.route_base@));
    }
    let app = m.application.as_str();
    let app_chars = to_chars(app);
    if !texts_contain(known_ids, app_chars.as_slice()) {
        let mut msg = to_chars("mount references unknown ApplicationId `");
        push_str(&mut msg, app);
        push_str(&mut msg, "` (no package.json#vmz.application with this id)");
        push_adiag(
            diagnostics,
            ApplicationDiagnostic {
                code: ApplicationCode::UnknownReference,
                path: from_chars(to_chars(config_path).as_slice()),
                message: from_chars(msg.as_slice()),
                span: span_of(source, app),
            },
        );
    }
    let ghost d1 = adiags_view(diagnostics@);
    match normalize_route_base(m.route_base.as_str()) {
        Err(e) => {
            let mut msg = to_chars("mounts[");
            let d = decimal_exec(i as u64);
            push_all(&mut msg, d.as_slice());
            push_str(&mut msg, "] (");
            push_str(&mut msg, app);
            push_str(&mut msg, "): ");
            push_str(&mut msg, e.as_str());
            push_adiag(
                diagnostics,
                ApplicationDiagnostic {
                    code: ApplicationCode::InvalidRouteBase,
                    path: from_chars(to_chars(config_path).as_slice()),
                    message: from_chars(msg.as_slice()),
                    span: span_of(source, m.route_base.as_str()),
                },
            );
            proof {
                assert(adiags_view(diagnostics@) =~= d0 + one_mount_diags(mv, texts(known_ids@), config_path@, source@, i as int));
            }
            None
        },
        Ok(b) => {
            match prev_base_exec(mounts, app_chars.as_slice(), i) {
                Some(j) => {
                    let mut msg = to_chars("ApplicationId `");
                    push_str(&mut msg, app);
                    push_str(&mut msg, "` has multiple mounts (`");
                    push_str(&mut msg, mounts[j].route_base.as_str());
                    push_str(&mut msg, "` and `");
                    push_str(&mut msg, m.route_base.as_str());
                    push_str(&mut msg, "`); one ApplicationId may have only one canonical mount base per deployment profile");
                    proof {
                        assert(mv[j as int] == (mounts@[j as int].application@, mounts@[j as int].route_base@));
                    }
                    push_adiag(
                        diagnostics,
                        ApplicationDiagnostic {
                            code: ApplicationCode::DuplicateMount,
                            path: from_chars(to_chars(config_path).as_slice()),
                            message: from_chars(msg.as_slice()),
                            span: span_of(source, app),
                        },
                    );
                },
                None => {},
            }
            proof {
                assert(adiags_view(diagnostics@) =~= d0 + one_mount_diags(mv, texts(known_ids@), config_path@, source@, i as int));
            }
            Some(b)
        },
    }
}

fn push_collision(
    x: &(usize, String, String),
    y: &(usize, String, String),
    config_path: &str,
    source: &str,
    diagnostics: &mut Vec<ApplicationDiagnostic>,
)
    requires
        vstd::utf8::encode_utf8(source@).len() <= u32::MAX,
    ensures
        adiags_view(final(diagnostics)@) == adiags_view(old(diagnostics)@).push(
            collision_diag((x.0 as int, x.1@, x.2@), (y.0 as int, y.1@, y.2@), config_path@, source@),
        ),
{
    let mut msg = to_chars("mount routeBase collision: mounts[");
    let dx = decimal_exec(x.0 as u64);
    push_all(&mut msg, dx.as_slice());
    push_str(&mut msg, "] `");
    push_str(&mut msg, x.2.as_str());
    push_str(&mut msg, "` \u{2192} `");
    push_str(&mut msg, x.1.as_str());
    push_str(&mut msg, "` overlaps mounts[");
    let dy = decimal_exec(y.0 as u64);
    push_all(&mut msg, dy.as_slice());
    push_str(&mut msg, "] `");
    push_str(&mut msg, y.2.as_str());
    push_str(&mut msg, "` \u{2192} `");
    push_str(&mut msg, y.1.as_str());
    push_str(&mut msg, "`");
    let at = if x.1.as_str().as_bytes().len() >= y.1.as_str().as_bytes().len() {
        x.1.as_str()
    } else {
        y.1.as_str()
    };
    push_adiag(
        diagnostics,
        ApplicationDiagnostic {
            code: ApplicationCode::MountCollision,
            path: from_chars(to_chars(config_path).as_slice()),
            message: from_chars(msg.as_slice()),
            span: span_of(source, at),
        },
    );
}

/// Validate a host's mounts against the declared ApplicationIds: per mount
/// an unknown ApplicationId, then an invalid route base or a second mount
/// of the same application; then every pair of valid mounts whose bases
/// overlap. Spans point into the config text `source`.
pub fn validate_mounts(
    mounts: &[ApplicationMount],
    known_ids: &Vec<String>,
    config_path: &str,
    source: &str,
    diagnostics: &mut Vec<ApplicationDiagnostic>,
)
    requires
        vstd::utf8::encode_utf8(source@).len() <= u32::MAX,
    ensures
        adiags_view(final(diagnostics)@) == adiags_view(old(diagnostics)@) + all_mount_diags(
            mount_views(mounts@),
            texts(known_ids@),
            config_path@,
            source@,
        ),
{
    let ghost mv = mount_views(mounts@);
    let ghost kn = texts(known_ids@);
    let ghost d0 = adiags_view(diagnostics@);
    let mut valid: Vec<(usize, String, String)> = Vec::new();
    let mut i: usize = 0;
    proof {
        assert(adiags_view(diagnostics@) =~= d0 + mount_diags(mv, kn, config_path@, source@, 0));
        assert(valid_view(valid@) =~= valid_mounts(mv, 0));
    }
    while i < mounts.len()
        invariant
            i <= mounts.len(),
            mv == mount_views(mounts@),
            kn == texts(known_ids@),
            vstd::utf8::encode_utf8(source@).len() <= u32::MAX,
            adiags_view(diagnostics@) == d0 + mount_diags(mv, kn, config_path@, source@, i as int),
            valid_view(valid@) == valid_mounts(mv, i as int),
            forall|j: int| 0 <= j < valid@.len() ==> (#[trigger] valid@[j]).0 < i,
        decreases mounts.len() - i,
    {
        let ghost before_v = valid_view(valid@);
        match check_one_mount(mounts, known_ids, config_path, source, i, diagnostics) {
            Some(b) => {
                proof {
                    assert(mv[i as int] == (mounts@[i as int].application@, mounts@[i as int].route_base@));
                }
                valid.push((i, b, mounts[i].application.clone()));
                proof {
                    assert(valid_view(valid@) =~= before_v.push((i as int, b@, mv[i as int].0)));
                }
            },
            None => {},
        }
        proof {
            assert(adiags_view(diagnostics@) =~= d0 + mount_diags(mv, kn, config_path@, source@, i + 1));
        }
        i = i + 1;
    }
    let ghost vm = valid_view(valid@);
    let ghost d1 = adiags_view(diagnostics@);
    let mut a: usize = 0;
    proof {
        assert(adiags_view(diagnostics@) =~= d1 + collisions(vm, 0, config_path@, source@));
    }
    while a < valid.len()
        invariant
            a <= valid.len(),
            vm == valid_view(valid@),
            vstd::utf8::encode_utf8(source@).len() <= u32::MAX,
            adiags_view(diagnostics@) == d1 + collisions(vm, a as int, config_path@, source@),
        decreases valid.len() - a,
    {
        let ghost d2 = adiags_view(diagnostics@);
        let mut b: usize = a + 1;
        proof {
            assert(adiags_view(diagnostics@) =~= d2 + collisions_with(vm, a as int, b as int, config_path@, source@));
        }
        while b < valid.len()
            invariant
                a < b <= valid.len(),
                vm == valid_view(valid@),
                vstd::utf8::encode_utf8(source@).len() <= u32::MAX,
                adiags_view(diagnostics@) == d2 + collisions_with(vm, a as int, b as int, config_path@, source@),
            decreases valid.len() - b,
        {
            let ghost d3 = adiags_view(diagnostics@);
            proof {
                assert(vm[a as int] == (valid@[a as int].0 as int, valid@[a as int].1@, valid@[a as int].2@));
                assert(vm[b as int] == (valid@[b as int].0 as int, valid@[b as int].1@, valid@[b as int].2@));
            }
            if route_bases_collide(valid[a].1.as_str(), valid[b].1.as_str()) {
                push_collision(&valid[a], &valid[b], config_path, source, diagnostics);
            }
            proof {
                assert(adiags_view(diagnostics@) =~= d2 + collisions_with(vm, a as int, b + 1, config_path@, source@));
            }
            b = b + 1;
        }
        proof {
            assert(adiags_view(diagnostics@) =~= d1 + collisions(vm, a + 1, config_path@, source@));
        }
        a = a + 1;
    }
    proof {
        assert(adiags_view(diagnostics@) =~= d0 + all_mount_diags(mv, kn, config_path@, source@));
    }
}

/// The schema an application descriptor names.
pub const APPLICATION_DESCRIPTOR_SCHEMA: &'static str = "vmz.application.v0";

/// An application a package declares in `package.json#vmz.application`.
#[derive(Debug, Clone)]
pub struct ApplicationDescriptor {
    pub schema: String,
    pub id: String,
    pub entry_route: String,
    pub title: Option<String>,
    pub summary: Option<String>,
    pub tags: Vec<String>,
    pub package_root: Option<String>,
    pub package_name: Option<String>,
}

/// An optional text as plain values.
pub open spec fn otext(o: Option<String>) -> Option<Seq<char>> {
    match o {
        Some(s) => Some(s@),
        None => None,
    }
}

/// A descriptor as plain values: schema, id, entry route, title, summary,
/// tags, package root, package name.
pub open spec fn descriptor_view(d: ApplicationDescriptor) -> (
    Seq<char>,
    Seq<char>,
    Seq<char>,
    Option<Seq<char>>,
    Option<Seq<char>>,
    Seq<Seq<char>>,
    Option<Seq<char>>,
    Option<Seq<char>>,
) {
    (d.schema@, d.id@, d.entry_route@, otext(d.title), otext(d.summary), texts(d.tags@), otext(d.package_root), otext(d.package_name))
}

/// The string member `k` of `v`, if any.
pub open spec fn opt_str(v: Json, k: Seq<char>) -> Option<Seq<char>> {
    match member(v, k) {
        Some(Json::Str(s)) => Some(s),
        _ => None,
    }
}

/// What the `vmz.application` value `app` of the package at `root` (named
/// `name`, its `package.json` at `pkg_path` with text `source`) declares:
/// the descriptor, or the error that refuses it.
pub open spec fn descriptor_of(
    app: Json,
    root: Seq<char>,
    name: Option<Seq<char>>,
    pkg_path: Seq<char>,
    source: Seq<char>,
) -> Result<
    (Seq<char>, Seq<char>, Seq<char>, Option<Seq<char>>, Option<Seq<char>>, Seq<Seq<char>>, Option<Seq<char>>, Option<Seq<char>>),
    (ApplicationCode, Seq<char>, Seq<char>, Option<SourceSpan>),
> {
    let schema = str_field(app, "schema"@, Seq::empty());
    if schema != APPLICATION_DESCRIPTOR_SCHEMA@ {
        Err(
            (
                ApplicationCode::InvalidSchema,
                pkg_path,
                "vmz.application.schema must be `"@ + APPLICATION_DESCRIPTOR_SCHEMA@ + "`, got `"@ + schema + "`"@,
                to_span(first_span(source, "schema"@)),
            ),
        )
    } else {
        match opt_str(app, "id"@) {
            None => Err(
                (
                    ApplicationCode::InvalidDescriptor,
                    pkg_path,
                    "vmz.application.id is required (explicit ApplicationId; never derived from directory name)"@,
                    to_span(first_span(source, "application"@)),
                ),
            ),
            Some(id) => if !valid_application_id(id) {
                Err(
                    (
                        ApplicationCode::InvalidDescriptor,
                        pkg_path,
                        "vmz.application.id must be a non-empty stable ApplicationId (letters, digits, `-`, `_`, `.`)"@,
                        to_span(first_span(source, "\u{22}id\u{22}"@)),
                    ),
                )
            } else {
                match opt_str(app, "entryRoute"@) {
                    Some(r) if r.len() > 0 => Ok(
                        (
                            schema,
                            id,
                            r,
                            opt_str(app, "title"@),
                            opt_str(app, "summary"@),
                            string_items(member(app, "tags"@)),
                            Some(root),
                            name,
                        ),
                    ),
                    _ => Err(
                        (
                            ApplicationCode::InvalidDescriptor,
                            pkg_path,
                            "vmz.application.entryRoute is required (stable RouteId, not a URL)"@,
                            to_span(first_span(source, "entryRoute"@)),
                        ),
                    ),
                }
            },
        }
    }
}

/// What a `package.json` text says: `Ok(None)` when it declares no
/// `vmz.application`, the descriptor when it declares a valid one, and an
/// error when it is no JSON or its descriptor is refused.
pub open spec fn package_descriptor(root: Seq<char>, pkg_path: Seq<char>, text: Seq<char>) -> Result<
    Option<(Seq<char>, Seq<char>, Seq<char>, Option<Seq<char>>, Option<Seq<char>>, Seq<Seq<char>>, Option<Seq<char>>, Option<Seq<char>>)>,
    (ApplicationCode, Seq<char>, Seq<char>, Option<SourceSpan>),
> {
    match json_of_text(text) {
        None => Err((ApplicationCode::InvalidDescriptor, pkg_path, "package.json is not JSON: "@ + json_error_of(text), None)),
        Some(v) => match member(v, "vmz"@) {
            Some(x) => match member(x, "application"@) {
                Some(app) => match descriptor_of(app, root, opt_str(v, "name"@), pkg_path, text) {
                    Ok(d) => Ok(Some(d)),
                    Err(e) => Err(e),
                },
                None => Ok(None),
            },
            None => Ok(None),
        },
    }
}

fn opt_str_exec(v: &JsonValue, k: &str) -> (r: Option<String>)
    ensures
        otext(r) == opt_str(v@, k@),
{
    match v.get(k) {
        Some(JsonValue::Str(s)) => Some(s.clone()),
        _ => None,
    }
}

fn text_of(s: &str) -> (r: String)
    ensures
        r@ == s@,
{
    from_chars(to_chars(s).as_slice())
}

fn refuse(code: ApplicationCode, pkg_path: &str, message: &str, span: Option<SourceSpan>) -> (d: ApplicationDiagnostic)
    ensures
        diag_view(d) == (code, pkg_path@, message@, span),
{
    ApplicationDiagnostic { code, path: text_of(pkg_path), message: text_of(message), span }
}

fn parse_descriptor(app: &JsonValue, root: &str, name: Option<String>, pkg_path: &str, source: &str) -> (r: Result<ApplicationDescriptor, ApplicationDiagnostic>)
    requires
        vstd::utf8::encode_utf8(source@).len() <= u32::MAX,
    ensures
        match r {
            Ok(d) => descriptor_of(app@, root@, otext(name), pkg_path@, source@) == Ok::<
                (Seq<char>, Seq<char>, Seq<char>, Option<Seq<char>>, Option<Seq<char>>, Seq<Seq<char>>, Option<Seq<char>>, Option<Seq<char>>),
                (ApplicationCode, Seq<char>, Seq<char>, Option<SourceSpan>),
            >(descriptor_view(d)),
            Err(e) => descriptor_of(app@, root@, otext(name), pkg_path@, source@) == Err::<
                (Seq<char>, Seq<char>, Seq<char>, Option<Seq<char>>, Option<Seq<char>>, Seq<Seq<char>>, Option<Seq<char>>, Option<Seq<char>>),
                (ApplicationCode, Seq<char>, Seq<char>, Option<SourceSpan>),
            >(diag_view(e)),
        },
{
    proof {
        reveal_strlit("");
        assert(""@ =~= Seq::<char>::empty());
    }
    let schema = match app.get("schema") {
        Some(JsonValue::Str(s)) => s.clone(),
        _ => text_of(""),
    };
    assert(schema@ == str_field(app@, "schema"@, Seq::empty()));
    let want = to_chars(APPLICATION_DESCRIPTOR_SCHEMA);
    if !chars_eq(to_chars(schema.as_str()).as_slice(), want.as_slice()) {
        let mut m = to_chars("vmz.application.schema must be `");
        push_str(&mut m, APPLICATION_DESCRIPTOR_SCHEMA);
        push_str(&mut m, "`, got `");
        push_str(&mut m, schema.as_str());
        push_str(&mut m, "`");
        assert(m@ == "vmz.application.schema must be `"@ + APPLICATION_DESCRIPTOR_SCHEMA@ + "`, got `"@ + schema@ + "`"@);
        return Err(
            ApplicationDiagnostic {
                code: ApplicationCode::InvalidSchema,
                path: text_of(pkg_path),
                message: from_chars(m.as_slice()),
                span: span_of(source, "schema"),
            },
        );
    }
    let id = match opt_str_exec(app, "id") {
        None => {
            return Err(
                refuse(
                    ApplicationCode::InvalidDescriptor,
                    pkg_path,
                    "vmz.application.id is required (explicit ApplicationId; never derived from directory name)",
                    span_of(source, "application"),
                ),
            );
        },
        Some(id) => id,
    };
    if !crate::application::is_valid_application_id(id.as_str()) {
        return Err(
            refuse(
                ApplicationCode::InvalidDescriptor,
                pkg_path,
                "vmz.application.id must be a non-empty stable ApplicationId (letters, digits, `-`, `_`, `.`)",
                span_of(source, "\u{22}id\u{22}"),
            ),
        );
    }
    let entry = match opt_str_exec(app, "entryRoute") {
        Some(r) => r,
        None => text_of(""),
    };
    if entry.unicode_len() == 0 {
        return Err(
            refuse(
                ApplicationCode::InvalidDescriptor,
                pkg_path,
                "vmz.application.entryRoute is required (stable RouteId, not a URL)",
                span_of(source, "entryRoute"),
            ),
        );
    }
    let tags = string_items_exec(app.get("tags"));
    let d = ApplicationDescriptor {
        schema,
        id,
        entry_route: entry,
        title: opt_str_exec(app, "title"),
        summary: opt_str_exec(app, "summary"),
        tags,
        package_root: Some(text_of(root)),
        package_name: name,
    };
    proof {
        reveal_strlit("");
    }
    Ok(d)
}

/// The application a `package.json` text at `pkg_path` (package root
/// `root`) declares (see `package_descriptor`).
pub fn descriptor_from_package_text(root: &str, pkg_path: &str, text: &str) -> (r: Result<Option<ApplicationDescriptor>, ApplicationDiagnostic>)
    requires
        vstd::utf8::encode_utf8(text@).len() <= u32::MAX,
    ensures
        match r {
            Ok(Some(d)) => package_descriptor(root@, pkg_path@, text@) == Ok::<
                Option<(Seq<char>, Seq<char>, Seq<char>, Option<Seq<char>>, Option<Seq<char>>, Seq<Seq<char>>, Option<Seq<char>>, Option<Seq<char>>)>,
                (ApplicationCode, Seq<char>, Seq<char>, Option<SourceSpan>),
            >(Some(descriptor_view(d))),
            Ok(None) => package_descriptor(root@, pkg_path@, text@) == Ok::<
                Option<(Seq<char>, Seq<char>, Seq<char>, Option<Seq<char>>, Option<Seq<char>>, Seq<Seq<char>>, Option<Seq<char>>, Option<Seq<char>>)>,
                (ApplicationCode, Seq<char>, Seq<char>, Option<SourceSpan>),
            >(None),
            Err(e) => package_descriptor(root@, pkg_path@, text@) == Err::<
                Option<(Seq<char>, Seq<char>, Seq<char>, Option<Seq<char>>, Option<Seq<char>>, Seq<Seq<char>>, Option<Seq<char>>, Option<Seq<char>>)>,
                (ApplicationCode, Seq<char>, Seq<char>, Option<SourceSpan>),
            >(diag_view(e)),
        },
{
    let v = match parse_json_text(text) {
        Ok(v) => v,
        Err(e) => {
            let mut m = to_chars("package.json is not JSON: ");
            push_str(&mut m, e.as_str());
            return Err(ApplicationDiagnostic { code: ApplicationCode::InvalidDescriptor, path: text_of(pkg_path), message: from_chars(m.as_slice()), span: None });
        },
    };
    let app = match v.get("vmz") {
        Some(x) => match x.get("application") {
            Some(a) => a,
            None => {
                return Ok(None);
            },
        },
        None => {
            return Ok(None);
        },
    };
    let name = opt_str_exec(&v, "name");
    match parse_descriptor(app, root, name, pkg_path, text) {
        Ok(d) => Ok(Some(d)),
        Err(e) => Err(e),
    }
}

/// One group of a collection: its id, title and applications in order.
#[derive(Debug, Clone)]
pub struct ApplicationGroup {
    pub id: String,
    pub title: Option<String>,
    pub applications: Vec<String>,
}

/// One collection of the host: its id and groups in order.
#[derive(Debug, Clone)]
pub struct ApplicationCollection {
    pub id: String,
    pub groups: Vec<ApplicationGroup>,
}

/// A collection as plain values: its id and the applications of each group.
pub open spec fn collection_view(c: ApplicationCollection) -> (Seq<char>, Seq<Seq<Seq<char>>>) {
    (c.id@, c.groups@.map_values(|g: ApplicationGroup| texts(g.applications@)))
}

/// Collections as plain values.
pub open spec fn collection_views(cs: Seq<ApplicationCollection>) -> Seq<(Seq<char>, Seq<Seq<Seq<char>>>)> {
    cs.map_values(|c: ApplicationCollection| collection_view(c))
}

/// The (collection id, ApplicationId) memberships of the groups of one
/// collection, in order.
pub open spec fn collection_members(cid: Seq<char>, groups: Seq<Seq<Seq<char>>>) -> Seq<(Seq<char>, Seq<char>)>
    decreases groups.len(),
{
    if groups.len() == 0 {
        Seq::empty()
    } else {
        collection_members(cid, groups.drop_last()) + groups.last().map_values(|a: Seq<char>| (cid, a))
    }
}

/// Every membership of every collection, in order.
pub open spec fn all_members(cols: Seq<(Seq<char>, Seq<Seq<Seq<char>>>)>) -> Seq<(Seq<char>, Seq<char>)>
    decreases cols.len(),
{
    if cols.len() == 0 {
        Seq::empty()
    } else {
        all_members(cols.drop_last()) + collection_members(cols.last().0, cols.last().1)
    }
}

fn push_group(out: &mut Vec<(String, String)>, cid: &String, apps: &Vec<String>)
    ensures
        crate::dep_graph::pair_views(final(out)@) == crate::dep_graph::pair_views(old(out)@) + texts(apps@).map_values(
            |a: Seq<char>| (cid@, a),
        ),
{
    let ghost before = crate::dep_graph::pair_views(out@);
    let ghost tv = texts(apps@);
    let mut k: usize = 0;
    while k < apps.len()
        invariant
            k <= apps.len(),
            tv == texts(apps@),
            crate::dep_graph::pair_views(out@) == before + tv.take(k as int).map_values(|a: Seq<char>| (cid@, a)),
        decreases apps.len() - k,
    {
        let ghost mid = crate::dep_graph::pair_views(out@);
        out.push((cid.clone(), apps[k].clone()));
        proof {
            assert(crate::dep_graph::pair_views(out@) =~= mid.push((cid@, apps@[k as int]@)));
            assert(tv.take(k + 1).map_values(|a: Seq<char>| (cid@, a)) =~= tv.take(k as int).map_values(|a: Seq<char>| (cid@, a)).push(
                (cid@, tv[k as int]),
            ));
        }
        k = k + 1;
    }
    proof {
        assert(tv.take(apps.len() as int) =~= tv);
    }
}

/// Every (collection id, ApplicationId) membership, in collection, group
/// and application order.
pub fn members_of(collections: &[ApplicationCollection]) -> (r: Vec<(String, String)>)
    ensures
        crate::dep_graph::pair_views(r@) == all_members(collection_views(collections@)),
{
    let ghost cv = collection_views(collections@);
    let mut out: Vec<(String, String)> = Vec::new();
    let mut i: usize = 0;
    proof {
        assert(cv.take(0) =~= Seq::<(Seq<char>, Seq<Seq<Seq<char>>>)>::empty());
        assert(crate::dep_graph::pair_views(out@) =~= all_members(cv.take(0)));
    }
    while i < collections.len()
        invariant
            i <= collections.len(),
            cv == collection_views(collections@),
            crate::dep_graph::pair_views(out@) == all_members(cv.take(i as int)),
        decreases collections.len() - i,
    {
        let c = &collections[i];
        let ghost gv = collection_view(*c).1;
        let ghost base = crate::dep_graph::pair_views(out@);
        proof {
            assert(cv[i as int] == collection_view(*c));
        }
        let mut g: usize = 0;
        proof {
            assert(gv.take(0) =~= Seq::<Seq<Seq<char>>>::empty());
            assert(crate::dep_graph::pair_views(out@) =~= base + collection_members(c.id@, gv.take(0)));
        }
        while g < c.groups.len()
            invariant
                g <= c.groups.len(),
                gv == c.groups@.map_values(|x: ApplicationGroup| texts(x.applications@)),
                crate::dep_graph::pair_views(out@) == base + collection_members(c.id@, gv.take(g as int)),
            decreases c.groups.len() - g,
        {
            proof {
                assert(gv.take(g + 1).drop_last() =~= gv.take(g as int));
                assert(gv.take(g + 1).last() == texts(c.groups@[g as int].applications@));
            }
            push_group(&mut out, &c.id, &c.groups[g].applications);
            proof {
                assert(crate::dep_graph::pair_views(out@) =~= base + collection_members(c.id@, gv.take(g + 1)));
            }
            g = g + 1;
        }
        proof {
            assert(gv.take(c.groups.len() as int) =~= gv);
            assert(cv.take(i + 1).drop_last() =~= cv.take(i as int));
            assert(cv.take(i + 1).last() == cv[i as int]);
            assert(crate::dep_graph::pair_views(out@) =~= all_members(cv.take(i + 1)));
        }
        i = i + 1;
    }
    proof {
        assert(cv.take(collections.len() as int) =~= cv);
    }
    out
}

/// The ApplicationIds of the memberships, each once, in first-seen order.
pub open spec fn first_seen(ms: Seq<(Seq<char>, Seq<char>)>) -> Seq<Seq<char>>
    decreases ms.len(),
{
    if ms.len() == 0 {
        Seq::empty()
    } else {
        let p = first_seen(ms.drop_last());
        if p.contains(ms.last().1) {
            p
        } else {
            p.push(ms.last().1)
        }
    }
}

/// The collection ids `id` is a member of, once per membership, in order.
pub open spec fn memberships(ms: Seq<(Seq<char>, Seq<char>)>, id: Seq<char>) -> Seq<Seq<char>>
    decreases ms.len(),
{
    if ms.len() == 0 {
        Seq::empty()
    } else {
        let p = memberships(ms.drop_last(), id);
        if ms.last().1 == id {
            p.push(ms.last().0)
        } else {
            p
        }
    }
}

/// The index of the last descriptor among the first `n` with ApplicationId `id`.
pub open spec fn last_descriptor(descs: Seq<ApplicationDescriptor>, id: Seq<char>, n: int) -> Option<int>
    decreases n,
{
    if n <= 0 {
        None
    } else if descs[n - 1].id@ == id {
        Some(n - 1)
    } else {
        last_descriptor(descs, id, n - 1)
    }
}

/// The raw base of the last mount among the first `n` of `id`.
pub open spec fn last_mount_base(ms: Seq<(Seq<char>, Seq<char>)>, id: Seq<char>, n: int) -> Option<Seq<char>>
    decreases n,
{
    if n <= 0 {
        None
    } else if ms[n - 1].0 == id {
        Some(ms[n - 1].1)
    } else {
        last_mount_base(ms, id, n - 1)
    }
}

/// One catalog entry.
#[derive(Debug, Clone)]
pub struct ApplicationCatalogEntry {
    pub id: String,
    pub entry_route: String,
    pub title: Option<String>,
    pub summary: Option<String>,
    pub tags: Vec<String>,
    pub collections: Vec<String>,
    pub route_base: Option<String>,
}

/// An entry as plain values: id, entry route, title, summary, tags,
/// collections, route base.
pub open spec fn entry_view(e: ApplicationCatalogEntry) -> (
    Seq<char>,
    Seq<char>,
    Option<Seq<char>>,
    Option<Seq<char>>,
    Seq<Seq<char>>,
    Seq<Seq<char>>,
    Option<Seq<char>>,
) {
    (e.id@, e.entry_route@, otext(e.title), otext(e.summary), texts(e.tags@), texts(e.collections@), otext(e.route_base))
}

/// Entries as plain values.
pub open spec fn entry_views(s: Seq<ApplicationCatalogEntry>) -> Seq<
    (Seq<char>, Seq<char>, Option<Seq<char>>, Option<Seq<char>>, Seq<Seq<char>>, Seq<Seq<char>>, Option<Seq<char>>),
> {
    s.map_values(|e: ApplicationCatalogEntry| entry_view(e))
}

/// The catalog entries of `ids`, in order, for those a descriptor declares
/// (the last one with that id): its entry route, title, summary and tags,
/// its collections, and the base of its last mount.
pub open spec fn catalog_entries(
    ids: Seq<Seq<char>>,
    descs: Seq<ApplicationDescriptor>,
    mounts: Seq<(Seq<char>, Seq<char>)>,
    ms: Seq<(Seq<char>, Seq<char>)>,
) -> Seq<(Seq<char>, Seq<char>, Option<Seq<char>>, Option<Seq<char>>, Seq<Seq<char>>, Seq<Seq<char>>, Option<Seq<char>>)>
    decreases ids.len(),
{
    if ids.len() == 0 {
        Seq::empty()
    } else {
        let p = catalog_entries(ids.drop_last(), descs, mounts, ms);
        let id = ids.last();
        match last_descriptor(descs, id, descs.len() as int) {
            Some(k) => p.push(
                (
                    id,
                    descs[k].entry_route@,
                    otext(descs[k].title),
                    otext(descs[k].summary),
                    texts(descs[k].tags@),
                    memberships(ms, id),
                    last_mount_base(mounts, id, mounts.len() as int),
                ),
            ),
            None => p,
        }
    }
}

/// The catalog of a host: one entry per ApplicationId its collections name
/// (first-seen order) that a descriptor declares.
pub open spec fn catalog_of(
    descs: Seq<ApplicationDescriptor>,
    cols: Seq<(Seq<char>, Seq<Seq<Seq<char>>>)>,
    mounts: Seq<(Seq<char>, Seq<char>)>,
) -> Seq<(Seq<char>, Seq<char>, Option<Seq<char>>, Option<Seq<char>>, Seq<Seq<char>>, Seq<Seq<char>>, Option<Seq<char>>)> {
    let ms = all_members(cols);
    catalog_entries(first_seen(ms), descs, mounts, ms)
}

fn first_seen_exec(ms: &Vec<(String, String)>) -> (r: Vec<String>)
    ensures
        texts(r@) == first_seen(crate::dep_graph::pair_views(ms@)),
{
    let ghost mv = crate::dep_graph::pair_views(ms@);
    let mut out: Vec<String> = Vec::new();
    let mut k: usize = 0;
    proof {
        assert(texts(out@) =~= first_seen(mv.take(0)));
    }
    while k < ms.len()
        invariant
            k <= ms.len(),
            mv == crate::dep_graph::pair_views(ms@),
            texts(out@) == first_seen(mv.take(k as int)),
        decreases ms.len() - k,
    {
        proof {
            assert(mv.take(k + 1).drop_last() =~= mv.take(k as int));
            assert(mv.take(k + 1).last() == mv[k as int]);
            assert(mv[k as int].1 == ms@[k as int].1@);
        }
        if !texts_contain(&out, to_chars(ms[k].1.as_str()).as_slice()) {
            let ghost before = texts(out@);
            out.push(ms[k].1.clone());
            proof {
                assert(texts(out@) =~= before.push(ms@[k as int].1@));
            }
        }
        k = k + 1;
    }
    proof {
        assert(mv.take(ms.len() as int) =~= mv);
    }
    out
}

fn memberships_exec(ms: &Vec<(String, String)>, id: &[char]) -> (r: Vec<String>)
    ensures
        texts(r@) == memberships(crate::dep_graph::pair_views(ms@), id@),
{
    let ghost mv = crate::dep_graph::pair_views(ms@);
    let mut out: Vec<String> = Vec::new();
    let mut k: usize = 0;
    proof {
        assert(texts(out@) =~= memberships(mv.take(0), id@));
    }
    while k < ms.len()
        invariant
            k <= ms.len(),
            mv == crate::dep_graph::pair_views(ms@),
            texts(out@) == memberships(mv.take(k as int), id@),
        decreases ms.len() - k,
    {
        proof {
            assert(mv.take(k + 1).drop_last() =~= mv.take(k as int));
            assert(mv.take(k + 1).last() == mv[k as int]);
            assert(mv[k as int] == (ms@[k as int].0@, ms@[k as int].1@));
        }
        if chars_eq(to_chars(ms[k].1.as_str()).as_slice(), id) {
            let ghost before = texts(out@);
            out.push(ms[k].0.clone());
            proof {
                assert(texts(out@) =~= before.push(ms@[k as int].0@));
            }
        }
        k = k + 1;
    }
    proof {
        assert(mv.take(ms.len() as int) =~= mv);
    }
    out
}

fn last_descriptor_exec(descs: &[ApplicationDescriptor], id: &[char]) -> (r: Option<usize>)
    ensures
        match r {
            Some(k) => k < descs.len() && last_descriptor(descs@, id@, descs@.len() as int) == Some(k as int),
            None => last_descriptor(descs@, id@, descs@.len() as int) is None,
        },
{
    let mut n: usize = descs.len();
    while n > 0
        invariant
            n <= descs.len(),
            last_descriptor(descs@, id@, descs@.len() as int) == last_descriptor(descs@, id@, n as int),
        decreases n,
    {
        if chars_eq(to_chars(descs[n - 1].id.as_str()).as_slice(), id) {
            return Some(n - 1);
        }
        n = n - 1;
    }
    None
}

fn last_mount_base_exec(mounts: &[ApplicationMount], id: &[char]) -> (r: Option<String>)
    ensures
        otext(r) == last_mount_base(mount_views(mounts@), id@, mounts@.len() as int),
{
    let ghost mv = mount_views(mounts@);
    let mut n: usize = mounts.len();
    while n > 0
        invariant
            n <= mounts.len(),
            mv == mount_views(mounts@),
            last_mount_base(mv, id@, mounts@.len() as int) == last_mount_base(mv, id@, n as int),
        decreases n,
    {
        proof {
            assert(mv[n - 1] == (mounts@[n - 1].application@, mounts@[n - 1].route_base@));
        }
        if chars_eq(to_chars(mounts[n - 1].application.as_str()).as_slice(), id) {
            return Some(mounts[n - 1].route_base.clone());
        }
        n = n - 1;
    }
    None
}

fn clone_opt(o: &Option<String>) -> (r: Option<String>)
    ensures
        otext(r) == otext(*o),
{
    match o {
        Some(s) => Some(s.clone()),
        None => None,
    }
}

fn clone_texts(v: &Vec<String>) -> (r: Vec<String>)
    ensures
        texts(r@) == texts(v@),
{
    let mut out: Vec<String> = Vec::new();
    let mut k: usize = 0;
    while k < v.len()
        invariant
            k <= v.len(),
            texts(out@) == texts(v@).take(k as int),
        decreases v.len() - k,
    {
        let ghost before = texts(out@);
        let c = v[k].clone();
        out.push(c);
        proof {
            assert(c@ == v@[k as int]@);
            assert(texts(out@) =~= before.push(c@));
            assert(texts(v@).take(k + 1) =~= texts(v@).take(k as int).push(v@[k as int]@));
        }
        k = k + 1;
    }
    proof {
        assert(texts(v@).take(v.len() as int) =~= texts(v@));
    }
    out
}

/// The catalog entries of a host (see `catalog_of`).
pub fn build_catalog(
    descriptors: &[ApplicationDescriptor],
    collections: &[ApplicationCollection],
    mounts: &[ApplicationMount],
) -> (r: Vec<ApplicationCatalogEntry>)
    ensures
        entry_views(r@) == catalog_of(descriptors@, collection_views(collections@), mount_views(mounts@)),
{
    let ms = members_of(collections);
    let ghost mv = crate::dep_graph::pair_views(ms@);
    let ids = first_seen_exec(&ms);
    let ghost iv = texts(ids@);
    let mut out: Vec<ApplicationCatalogEntry> = Vec::new();
    let mut i: usize = 0;
    proof {
        assert(entry_views(out@) =~= catalog_entries(iv.take(0), descriptors@, mount_views(mounts@), mv));
    }
    while i < ids.len()
        invariant
            i <= ids.len(),
            iv == texts(ids@),
            mv == crate::dep_graph::pair_views(ms@),
            entry_views(out@) == catalog_entries(iv.take(i as int), descriptors@, mount_views(mounts@), mv),
        decreases ids.len() - i,
    {
        proof {
            assert(iv.take(i + 1).drop_last() =~= iv.take(i as int));
            assert(iv.take(i + 1).last() == ids@[i as int]@);
        }
        let id = to_chars(ids[i].as_str());
        match last_descriptor_exec(descriptors, id.as_slice()) {
            Some(k) => {
                let d = &descriptors[k];
                let e = ApplicationCatalogEntry {
                    id: ids[i].clone(),
                    entry_route: d.entry_route.clone(),
                    title: clone_opt(&d.title),
                    summary: clone_opt(&d.summary),
                    tags: clone_texts(&d.tags),
                    collections: memberships_exec(&ms, id.as_slice()),
                    route_base: last_mount_base_exec(mounts, id.as_slice()),
                };
                let ghost before = entry_views(out@);
                out.push(e);
                proof {
                    assert(entry_views(out@) =~= before.push(entry_view(e)));
                }
            },
            None => {},
        }
        i = i + 1;
    }
    proof {
        assert(iv.take(ids.len() as int) =~= iv);
    }
    out
}

/// The schema the host's applications config names.
pub const APPLICATIONS_CONFIG_SCHEMA: &'static str = "vmz.applications.v0";

/// A group as plain values: id, title, applications.
pub open spec fn group_full_view(g: ApplicationGroup) -> (Seq<char>, Option<Seq<char>>, Seq<Seq<char>>) {
    (g.id@, otext(g.title), texts(g.applications@))
}

/// A collection as plain values, with its groups' ids and titles.
pub open spec fn collection_full_view(c: ApplicationCollection) -> (Seq<char>, Seq<(Seq<char>, Option<Seq<char>>, Seq<Seq<char>>)>) {
    (c.id@, c.groups@.map_values(|g: ApplicationGroup| group_full_view(g)))
}

/// A mount as plain values: application, raw route base, deployment ref.
pub open spec fn mount_full_view(m: ApplicationMount) -> (Seq<char>, Seq<char>, Option<Seq<char>>) {
    (m.application@, m.route_base@, otext(m.deployment_ref))
}

/// The non-empty string member `k` of `v`, if any.
pub open spec fn nonempty_str(v: Json, k: Seq<char>) -> Option<Seq<char>> {
    match opt_str(v, k) {
        Some(s) => if s.len() > 0 {
            Some(s)
        } else {
            None
        },
        None => None,
    }
}

/// `[i]`.
pub open spec fn idx(i: int) -> Seq<char> {
    "["@ + decimal(i as nat) + "]"@
}

/// A config error.
pub open spec fn config_err(path: Seq<char>, msg: Seq<char>, source: Seq<char>, at: Seq<char>) -> (
    ApplicationCode,
    Seq<char>,
    Seq<char>,
    Option<SourceSpan>,
) {
    (ApplicationCode::InvalidConfig, path, msg, to_span(first_span(source, at)))
}

/// Group `gi` of collection `ci`.
pub open spec fn group_of(g: Json, path: Seq<char>, source: Seq<char>, ci: int, gi: int) -> Result<
    (Seq<char>, Option<Seq<char>>, Seq<Seq<char>>),
    (ApplicationCode, Seq<char>, Seq<char>, Option<SourceSpan>),
> {
    let at = "collections"@ + idx(ci) + ".groups"@ + idx(gi);
    match nonempty_str(g, "id"@) {
        None => Err(config_err(path, at + ".id is required"@, source, "groups"@)),
        Some(id) => match member(g, "applications"@) {
            Some(Json::Array(apps)) => Ok((id, opt_str(g, "title"@), crate::token_file::strings_of(apps))),
            _ => Err(config_err(path, at + ".applications must be an array"@, source, id)),
        },
    }
}

/// The first `n` groups of collection `ci`, or the first error.
pub open spec fn groups_of(gs: Seq<Json>, path: Seq<char>, source: Seq<char>, ci: int, n: int) -> Result<
    Seq<(Seq<char>, Option<Seq<char>>, Seq<Seq<char>>)>,
    (ApplicationCode, Seq<char>, Seq<char>, Option<SourceSpan>),
>
    decreases n,
{
    if n <= 0 {
        Ok(Seq::empty())
    } else {
        match groups_of(gs, path, source, ci, n - 1) {
            Err(e) => Err(e),
            Ok(p) => match group_of(gs[n - 1], path, source, ci, n - 1) {
                Err(e) => Err(e),
                Ok(g) => Ok(p.push(g)),
            },
        }
    }
}

/// Collection `ci`.
pub open spec fn collection_of(c: Json, path: Seq<char>, source: Seq<char>, ci: int) -> Result<
    (Seq<char>, Seq<(Seq<char>, Option<Seq<char>>, Seq<Seq<char>>)>),
    (ApplicationCode, Seq<char>, Seq<char>, Option<SourceSpan>),
> {
    let at = "collections"@ + idx(ci);
    match nonempty_str(c, "id"@) {
        None => Err(config_err(path, at + ".id is required"@, source, "collections"@)),
        Some(id) => match member(c, "groups"@) {
            None => Err(config_err(path, at + ".groups is required"@, source, id)),
            Some(Json::Array(gs)) => match groups_of(gs, path, source, ci, gs.len() as int) {
                Err(e) => Err(e),
                Ok(groups) => Ok((id, groups)),
            },
            Some(_) => Err(config_err(path, at + ".groups must be an array"@, source, id)),
        },
    }
}

/// The first `n` collections, or the first error.
pub open spec fn collections_of(cs: Seq<Json>, path: Seq<char>, source: Seq<char>, n: int) -> Result<
    Seq<(Seq<char>, Seq<(Seq<char>, Option<Seq<char>>, Seq<Seq<char>>)>)>,
    (ApplicationCode, Seq<char>, Seq<char>, Option<SourceSpan>),
>
    decreases n,
{
    if n <= 0 {
        Ok(Seq::empty())
    } else {
        match collections_of(cs, path, source, n - 1) {
            Err(e) => Err(e),
            Ok(p) => match collection_of(cs[n - 1], path, source, n - 1) {
                Err(e) => Err(e),
                Ok(c) => Ok(p.push(c)),
            },
        }
    }
}

/// Mount `i`.
pub open spec fn mount_of(m: Json, path: Seq<char>, source: Seq<char>, i: int) -> Result<
    (Seq<char>, Seq<char>, Option<Seq<char>>),
    (ApplicationCode, Seq<char>, Seq<char>, Option<SourceSpan>),
> {
    let at = "mounts"@ + idx(i);
    match nonempty_str(m, "application"@) {
        None => Err(config_err(path, at + ".application is required"@, source, "mounts"@)),
        Some(app) => match nonempty_str(m, "routeBase"@) {
            None => Err(config_err(path, at + ".routeBase is required"@, source, app)),
            Some(base) => Ok((app, base, opt_str(m, "deploymentRef"@))),
        },
    }
}

/// The first `n` mounts, or the first error.
pub open spec fn mounts_of(ms: Seq<Json>, path: Seq<char>, source: Seq<char>, n: int) -> Result<
    Seq<(Seq<char>, Seq<char>, Option<Seq<char>>)>,
    (ApplicationCode, Seq<char>, Seq<char>, Option<SourceSpan>),
>
    decreases n,
{
    if n <= 0 {
        Ok(Seq::empty())
    } else {
        match mounts_of(ms, path, source, n - 1) {
            Err(e) => Err(e),
            Ok(p) => match mount_of(ms[n - 1], path, source, n - 1) {
                Err(e) => Err(e),
                Ok(x) => Ok(p.push(x)),
            },
        }
    }
}

/// What a parsed applications config says: its collections and mounts, or
/// the first error (a wrong schema, then collections, then mounts).
pub open spec fn config_of(v: Json, path: Seq<char>, source: Seq<char>) -> Result<
    (Seq<(Seq<char>, Seq<(Seq<char>, Option<Seq<char>>, Seq<Seq<char>>)>)>, Seq<(Seq<char>, Seq<char>, Option<Seq<char>>)>),
    (ApplicationCode, Seq<char>, Seq<char>, Option<SourceSpan>),
> {
    let schema = str_field(v, "schema"@, Seq::empty());
    if schema != APPLICATIONS_CONFIG_SCHEMA@ {
        Err(
            (
                ApplicationCode::InvalidSchema,
                path,
                "applications.config schema must be `"@ + APPLICATIONS_CONFIG_SCHEMA@ + "`, got `"@ + schema + "`"@,
                to_span(first_span(source, "schema"@)),
            ),
        )
    } else {
        let cols = match member(v, "collections"@) {
            None => Ok(Seq::empty()),
            Some(Json::Array(cs)) => collections_of(cs, path, source, cs.len() as int),
            Some(_) => Err(config_err(path, "`collections` must be an array (explicit order)"@, source, "collections"@)),
        };
        match cols {
            Err(e) => Err(e),
            Ok(c) => {
                let mounts = match member(v, "mounts"@) {
                    None => Ok(Seq::empty()),
                    Some(Json::Array(ms)) => mounts_of(ms, path, source, ms.len() as int),
                    Some(_) => Err(config_err(path, "`mounts` must be an array"@, source, "mounts"@)),
                };
                match mounts {
                    Err(e) => Err(e),
                    Ok(m) => Ok((c, m)),
                }
            },
        }
    }
}

/// What an `applications.config.json5` text at `path` says (see
/// `config_of`); an error when it is no JSON5.
pub open spec fn config_from_source(path: Seq<char>, text: Seq<char>) -> Result<
    (Seq<(Seq<char>, Seq<(Seq<char>, Option<Seq<char>>, Seq<Seq<char>>)>)>, Seq<(Seq<char>, Seq<char>, Option<Seq<char>>)>),
    (ApplicationCode, Seq<char>, Seq<char>, Option<SourceSpan>),
> {
    match crate::json::json5_of_text(text) {
        None => Err((ApplicationCode::InvalidConfig, path, "JSON5 parse error: "@ + crate::json::json5_error_of(text), None)),
        Some(v) => config_of(v, path, text),
    }
}

proof fn lemma_groups_err_sticky(gs: Seq<Json>, path: Seq<char>, source: Seq<char>, ci: int, m: int, n: int)
    requires
        0 <= m <= n,
        groups_of(gs, path, source, ci, m) is Err,
    ensures
        groups_of(gs, path, source, ci, n) == groups_of(gs, path, source, ci, m),
    decreases n - m,
{
    if n > m {
        lemma_groups_err_sticky(gs, path, source, ci, m, n - 1);
    }
}

proof fn lemma_collections_err_sticky(cs: Seq<Json>, path: Seq<char>, source: Seq<char>, m: int, n: int)
    requires
        0 <= m <= n,
        collections_of(cs, path, source, m) is Err,
    ensures
        collections_of(cs, path, source, n) == collections_of(cs, path, source, m),
    decreases n - m,
{
    if n > m {
        lemma_collections_err_sticky(cs, path, source, m, n - 1);
    }
}

proof fn lemma_mounts_err_sticky(ms: Seq<Json>, path: Seq<char>, source: Seq<char>, m: int, n: int)
    requires
        0 <= m <= n,
        mounts_of(ms, path, source, m) is Err,
    ensures
        mounts_of(ms, path, source, n) == mounts_of(ms, path, source, m),
    decreases n - m,
{
    if n > m {
        lemma_mounts_err_sticky(ms, path, source, m, n - 1);
    }
}

fn cerr(path: &str, msg: Vec<char>, source: &str, at: &str) -> (d: ApplicationDiagnostic)
    requires
        vstd::utf8::encode_utf8(source@).len() <= u32::MAX,
    ensures
        diag_view(d) == config_err(path@, msg@, source@, at@),
{
    ApplicationDiagnostic { code: ApplicationCode::InvalidConfig, path: text_of(path), message: from_chars(msg.as_slice()), span: span_of(source, at) }
}

fn nonempty_str_exec(v: &JsonValue, k: &str) -> (r: Option<String>)
    ensures
        otext(r) == nonempty_str(v@, k@),
{
    match opt_str_exec(v, k) {
        Some(s) => if s.unicode_len() > 0 {
            Some(s)
        } else {
            None
        },
        None => None,
    }
}

fn push_idx(m: &mut Vec<char>, i: usize)
    ensures
        final(m)@ == old(m)@ + idx(i as int),
{
    let ghost before = m@;
    push_str(m, "[");
    let d = decimal_exec(i as u64);
    push_all(m, d.as_slice());
    push_str(m, "]");
    proof {
        assert(m@ =~= before + idx(i as int));
    }
}

fn indexed(prefix: &str, i: usize) -> (r: Vec<char>)
    ensures
        r@ == prefix@ + idx(i as int),
{
    let mut m = to_chars(prefix);
    push_idx(&mut m, i);
    m
}

fn parse_group(g: &JsonValue, path: &str, source: &str, ci: usize, gi: usize) -> (r: Result<ApplicationGroup, ApplicationDiagnostic>)
    requires
        vstd::utf8::encode_utf8(source@).len() <= u32::MAX,
    ensures
        match r {
            Ok(x) => group_of(g@, path@, source@, ci as int, gi as int) == Ok::<
                (Seq<char>, Option<Seq<char>>, Seq<Seq<char>>),
                (ApplicationCode, Seq<char>, Seq<char>, Option<SourceSpan>),
            >(group_full_view(x)),
            Err(e) => group_of(g@, path@, source@, ci as int, gi as int) == Err::<
                (Seq<char>, Option<Seq<char>>, Seq<Seq<char>>),
                (ApplicationCode, Seq<char>, Seq<char>, Option<SourceSpan>),
            >(diag_view(e)),
        },
{
    let mut at = indexed("collections", ci);
    push_str(&mut at, ".groups");
    push_idx(&mut at, gi);
    let id = match nonempty_str_exec(g, "id") {
        None => {
            let mut m = at.clone();
            push_str(&mut m, ".id is required");
            return Err(cerr(path, m, source, "groups"));
        },
        Some(id) => id,
    };
    match g.get("applications") {
        Some(JsonValue::Array(a)) => {
            let apps = string_items_exec(g.get("applications"));
            Ok(ApplicationGroup { id, title: opt_str_exec(g, "title"), applications: apps })
        },
        _ => {
            let mut m = at.clone();
            push_str(&mut m, ".applications must be an array");
            Err(cerr(path, m, source, id.as_str()))
        },
    }
}

fn parse_groups(gs: &Vec<JsonValue>, path: &str, source: &str, ci: usize) -> (r: Result<Vec<ApplicationGroup>, ApplicationDiagnostic>)
    requires
        vstd::utf8::encode_utf8(source@).len() <= u32::MAX,
    ensures
        match r {
            Ok(v) => groups_of(crate::json::json_views(gs@), path@, source@, ci as int, gs@.len() as int) == Ok::<
                Seq<(Seq<char>, Option<Seq<char>>, Seq<Seq<char>>)>,
                (ApplicationCode, Seq<char>, Seq<char>, Option<SourceSpan>),
            >(v@.map_values(|x: ApplicationGroup| group_full_view(x))),
            Err(e) => groups_of(crate::json::json_views(gs@), path@, source@, ci as int, gs@.len() as int) == Err::<
                Seq<(Seq<char>, Option<Seq<char>>, Seq<Seq<char>>)>,
                (ApplicationCode, Seq<char>, Seq<char>, Option<SourceSpan>),
            >(diag_view(e)),
        },
{
    proof {
        crate::json::lemma_json_views(gs@);
    }
    let ghost gv = crate::json::json_views(gs@);
    let mut out: Vec<ApplicationGroup> = Vec::new();
    let mut i: usize = 0;
    proof {
        assert(out@.map_values(|x: ApplicationGroup| group_full_view(x)) =~= Seq::<(Seq<char>, Option<Seq<char>>, Seq<Seq<char>>)>::empty());
    }
    while i < gs.len()
        invariant
            i <= gs.len(),
            gv == crate::json::json_views(gs@),
            gv.len() == gs@.len(),
            forall|j: int| 0 <= j < gs@.len() ==> #[trigger] gv[j] == crate::json::json_view(gs@[j]),
            vstd::utf8::encode_utf8(source@).len() <= u32::MAX,
            groups_of(gv, path@, source@, ci as int, i as int) == Ok::<
                Seq<(Seq<char>, Option<Seq<char>>, Seq<Seq<char>>)>,
                (ApplicationCode, Seq<char>, Seq<char>, Option<SourceSpan>),
            >(out@.map_values(|x: ApplicationGroup| group_full_view(x))),
        decreases gs.len() - i,
    {
        proof {
            assert(gv[i as int] == gs@[i as int]@);
        }
        match parse_group(&gs[i], path, source, ci, i) {
            Err(e) => {
                proof {
                    lemma_groups_err_sticky(gv, path@, source@, ci as int, i + 1, gs@.len() as int);
                }
                return Err(e);
            },
            Ok(g) => {
                let ghost before = out@.map_values(|x: ApplicationGroup| group_full_view(x));
                out.push(g);
                proof {
                    assert(out@.map_values(|x: ApplicationGroup| group_full_view(x)) =~= before.push(group_full_view(g)));
                }
            },
        }
        i = i + 1;
    }
    Ok(out)
}

fn parse_collection(c: &JsonValue, path: &str, source: &str, ci: usize) -> (r: Result<ApplicationCollection, ApplicationDiagnostic>)
    requires
        vstd::utf8::encode_utf8(source@).len() <= u32::MAX,
    ensures
        match r {
            Ok(x) => collection_of(c@, path@, source@, ci as int) == Ok::<
                (Seq<char>, Seq<(Seq<char>, Option<Seq<char>>, Seq<Seq<char>>)>),
                (ApplicationCode, Seq<char>, Seq<char>, Option<SourceSpan>),
            >(collection_full_view(x)),
            Err(e) => collection_of(c@, path@, source@, ci as int) == Err::<
                (Seq<char>, Seq<(Seq<char>, Option<Seq<char>>, Seq<Seq<char>>)>),
                (ApplicationCode, Seq<char>, Seq<char>, Option<SourceSpan>),
            >(diag_view(e)),
        },
{
    let at = indexed("collections", ci);
    let id = match nonempty_str_exec(c, "id") {
        None => {
            let mut m = at.clone();
            push_str(&mut m, ".id is required");
            return Err(cerr(path, m, source, "collections"));
        },
        Some(id) => id,
    };
    match c.get("groups") {
        None => {
            let mut m = at.clone();
            push_str(&mut m, ".groups is required");
            let e = cerr(path, m, source, id.as_str());
            assert(collection_of(c@, path@, source@, ci as int) == Err::<
                (Seq<char>, Seq<(Seq<char>, Option<Seq<char>>, Seq<Seq<char>>)>),
                (ApplicationCode, Seq<char>, Seq<char>, Option<SourceSpan>),
            >(diag_view(e)));
            Err(e)
        },
        Some(JsonValue::Array(gs)) => match parse_groups(gs, path, source, ci) {
            Err(e) => {
                proof {
                    crate::json::lemma_json_views(gs@);
                    assert(member(c@, "groups"@) == Some(Json::Array(crate::json::json_views(gs@))));
                }
                Err(e)
            },
            Ok(groups) => {
                let r = ApplicationCollection { id, groups };
                proof {
                    crate::json::lemma_json_views(gs@);
                    assert(member(c@, "groups"@) == Some(Json::Array(crate::json::json_views(gs@))));
                    assert(collection_full_view(r).1 =~= r.groups@.map_values(|x: ApplicationGroup| group_full_view(x)));
                }
                Ok(r)
            },
        },
        Some(x) => {
            let mut m = at.clone();
            push_str(&mut m, ".groups must be an array");
            let e = cerr(path, m, source, id.as_str());
            assert(!(x@ is Array));
            assert(collection_of(c@, path@, source@, ci as int) == Err::<
                (Seq<char>, Seq<(Seq<char>, Option<Seq<char>>, Seq<Seq<char>>)>),
                (ApplicationCode, Seq<char>, Seq<char>, Option<SourceSpan>),
            >(diag_view(e)));
            Err(e)
        },
    }
}

fn parse_mount(v: &JsonValue, path: &str, source: &str, i: usize) -> (r: Result<ApplicationMount, ApplicationDiagnostic>)
    requires
        vstd::utf8::encode_utf8(source@).len() <= u32::MAX,
    ensures
        match r {
            Ok(x) => mount_of(v@, path@, source@, i as int) == Ok::<
                (Seq<char>, Seq<char>, Option<Seq<char>>),
                (ApplicationCode, Seq<char>, Seq<char>, Option<SourceSpan>),
            >(mount_full_view(x)),
            Err(e) => mount_of(v@, path@, source@, i as int) == Err::<
                (Seq<char>, Seq<char>, Option<Seq<char>>),
                (ApplicationCode, Seq<char>, Seq<char>, Option<SourceSpan>),
            >(diag_view(e)),
        },
{
    let at = indexed("mounts", i);
    let app = match nonempty_str_exec(v, "application") {
        None => {
            let mut m = at.clone();
            push_str(&mut m, ".application is required");
            return Err(cerr(path, m, source, "mounts"));
        },
        Some(a) => a,
    };
    match nonempty_str_exec(v, "routeBase") {
        None => {
            let mut m = at.clone();
            push_str(&mut m, ".routeBase is required");
            Err(cerr(path, m, source, app.as_str()))
        },
        Some(base) => Ok(ApplicationMount { application: app, route_base: base, deployment_ref: opt_str_exec(v, "deploymentRef") }),
    }
}

fn parse_collections(cs: &Vec<JsonValue>, path: &str, source: &str) -> (r: Result<Vec<ApplicationCollection>, ApplicationDiagnostic>)
    requires
        vstd::utf8::encode_utf8(source@).len() <= u32::MAX,
    ensures
        match r {
            Ok(v) => collections_of(crate::json::json_views(cs@), path@, source@, cs@.len() as int) == Ok::<
                Seq<(Seq<char>, Seq<(Seq<char>, Option<Seq<char>>, Seq<Seq<char>>)>)>,
                (ApplicationCode, Seq<char>, Seq<char>, Option<SourceSpan>),
            >(v@.map_values(|x: ApplicationCollection| collection_full_view(x))),
            Err(e) => collections_of(crate::json::json_views(cs@), path@, source@, cs@.len() as int) == Err::<
                Seq<(Seq<char>, Seq<(Seq<char>, Option<Seq<char>>, Seq<Seq<char>>)>)>,
                (ApplicationCode, Seq<char>, Seq<char>, Option<SourceSpan>),
            >(diag_view(e)),
        },
{
    proof {
        crate::json::lemma_json_views(cs@);
    }
    let ghost cv = crate::json::json_views(cs@);
    let mut out: Vec<ApplicationCollection> = Vec::new();
    let mut i: usize = 0;
    proof {
        assert(out@.map_values(|x: ApplicationCollection| collection_full_view(x)) =~= Seq::<
            (Seq<char>, Seq<(Seq<char>, Option<Seq<char>>, Seq<Seq<char>>)>),
        >::empty());
    }
    while i < cs.len()
        invariant
            i <= cs.len(),
            cv == crate::json::json_views(cs@),
            cv.len() == cs@.len(),
            forall|j: int| 0 <= j < cs@.len() ==> #[trigger] cv[j] == crate::json::json_view(cs@[j]),
            vstd::utf8::encode_utf8(source@).len() <= u32::MAX,
            collections_of(cv, path@, source@, i as int) == Ok::<
                Seq<(Seq<char>, Seq<(Seq<char>, Option<Seq<char>>, Seq<Seq<char>>)>)>,
                (ApplicationCode, Seq<char>, Seq<char>, Option<SourceSpan>),
            >(out@.map_values(|x: ApplicationCollection| collection_full_view(x))),
        decreases cs.len() - i,
    {
        proof {
            assert(cv[i as int] == cs@[i as int]@);
        }
        match parse_collection(&cs[i], path, source, i) {
            Err(e) => {
                proof {
                    lemma_collections_err_sticky(cv, path@, source@, i + 1, cs@.len() as int);
                }
                return Err(e);
            },
            Ok(c) => {
                let ghost before = out@.map_values(|x: ApplicationCollection| collection_full_view(x));
                out.push(c);
                proof {
                    assert(out@.map_values(|x: ApplicationCollection| collection_full_view(x)) =~= before.push(collection_full_view(c)));
                }
            },
        }
        i = i + 1;
    }
    Ok(out)
}

fn parse_mounts(ms: &Vec<JsonValue>, path: &str, source: &str) -> (r: Result<Vec<ApplicationMount>, ApplicationDiagnostic>)
    requires
        vstd::utf8::encode_utf8(source@).len() <= u32::MAX,
    ensures
        match r {
            Ok(v) => mounts_of(crate::json::json_views(ms@), path@, source@, ms@.len() as int) == Ok::<
                Seq<(Seq<char>, Seq<char>, Option<Seq<char>>)>,
                (ApplicationCode, Seq<char>, Seq<char>, Option<SourceSpan>),
            >(v@.map_values(|x: ApplicationMount| mount_full_view(x))),
            Err(e) => mounts_of(crate::json::json_views(ms@), path@, source@, ms@.len() as int) == Err::<
                Seq<(Seq<char>, Seq<char>, Option<Seq<char>>)>,
                (ApplicationCode, Seq<char>, Seq<char>, Option<SourceSpan>),
            >(diag_view(e)),
        },
{
    proof {
        crate::json::lemma_json_views(ms@);
    }
    let ghost mv = crate::json::json_views(ms@);
    let mut out: Vec<ApplicationMount> = Vec::new();
    let mut i: usize = 0;
    proof {
        assert(out@.map_values(|x: ApplicationMount| mount_full_view(x)) =~= Seq::<(Seq<char>, Seq<char>, Option<Seq<char>>)>::empty());
    }
    while i < ms.len()
        invariant
            i <= ms.len(),
            mv == crate::json::json_views(ms@),
            mv.len() == ms@.len(),
            forall|j: int| 0 <= j < ms@.len() ==> #[trigger] mv[j] == crate::json::json_view(ms@[j]),
            vstd::utf8::encode_utf8(source@).len() <= u32::MAX,
            mounts_of(mv, path@, source@, i as int) == Ok::<
                Seq<(Seq<char>, Seq<char>, Option<Seq<char>>)>,
                (ApplicationCode, Seq<char>, Seq<char>, Option<SourceSpan>),
            >(out@.map_values(|x: ApplicationMount| mount_full_view(x))),
        decreases ms.len() - i,
    {
        proof {
            assert(mv[i as int] == ms@[i as int]@);
        }
        match parse_mount(&ms[i], path, source, i) {
            Err(e) => {
                proof {
                    lemma_mounts_err_sticky(mv, path@, source@, i + 1, ms@.len() as int);
                }
                return Err(e);
            },
            Ok(m) => {
                let ghost before = out@.map_values(|x: ApplicationMount| mount_full_view(x));
                out.push(m);
                proof {
                    assert(out@.map_values(|x: ApplicationMount| mount_full_view(x)) =~= before.push(mount_full_view(m)));
                }
            },
        }
        i = i + 1;
    }
    Ok(out)
}

/// The collections and mounts of a host's applications config.
#[derive(Debug, Clone)]
pub struct ApplicationsConfig {
    pub schema: String,
    pub collections: Vec<ApplicationCollection>,
    pub mounts: Vec<ApplicationMount>,
}

/// A config as plain values: its collections and mounts.
pub open spec fn config_view(c: ApplicationsConfig) -> (
    Seq<(Seq<char>, Seq<(Seq<char>, Option<Seq<char>>, Seq<Seq<char>>)>)>,
    Seq<(Seq<char>, Seq<char>, Option<Seq<char>>)>,
) {
    (
        c.collections@.map_values(|x: ApplicationCollection| collection_full_view(x)),
        c.mounts@.map_values(|x: ApplicationMount| mount_full_view(x)),
    )
}

/// Parse the text of the host's `applications.config.json5` at `path`
/// (see `config_from_source`); the schema kept is the one it names.
pub fn config_from_text(path: &str, text: &str) -> (r: Result<ApplicationsConfig, ApplicationDiagnostic>)
    requires
        vstd::utf8::encode_utf8(text@).len() <= u32::MAX,
    ensures
        match r {
            Ok(c) => config_from_source(path@, text@) == Ok::<
                (Seq<(Seq<char>, Seq<(Seq<char>, Option<Seq<char>>, Seq<Seq<char>>)>)>, Seq<(Seq<char>, Seq<char>, Option<Seq<char>>)>),
                (ApplicationCode, Seq<char>, Seq<char>, Option<SourceSpan>),
            >(config_view(c)) && c.schema@ == APPLICATIONS_CONFIG_SCHEMA@,
            Err(e) => config_from_source(path@, text@) == Err::<
                (Seq<(Seq<char>, Seq<(Seq<char>, Option<Seq<char>>, Seq<Seq<char>>)>)>, Seq<(Seq<char>, Seq<char>, Option<Seq<char>>)>),
                (ApplicationCode, Seq<char>, Seq<char>, Option<SourceSpan>),
            >(diag_view(e)),
        },
{
    proof {
        reveal_strlit("");
        assert(""@ =~= Seq::<char>::empty());
    }
    let v = match crate::json::parse_json5_text(text) {
        Ok(v) => v,
        Err(e) => {
            let mut m = to_chars("JSON5 parse error: ");
            push_str(&mut m, e.as_str());
            return Err(ApplicationDiagnostic { code: ApplicationCode::InvalidConfig, path: text_of(path), message: from_chars(m.as_slice()), span: None });
        },
    };
    let schema = match v.get("schema") {
        Some(JsonValue::Str(s)) => s.clone(),
        _ => text_of(""),
    };
    assert(schema@ == str_field(v@, "schema"@, Seq::empty()));
    let want = to_chars(APPLICATIONS_CONFIG_SCHEMA);
    if !chars_eq(to_chars(schema.as_str()).as_slice(), want.as_slice()) {
        let mut m = to_chars("applications.config schema must be `");
        push_str(&mut m, APPLICATIONS_CONFIG_SCHEMA);
        push_str(&mut m, "`, got `");
        push_str(&mut m, schema.as_str());
        push_str(&mut m, "`");
        assert(m@ == "applications.config schema must be `"@ + APPLICATIONS_CONFIG_SCHEMA@ + "`, got `"@ + schema@ + "`"@);
        return Err(
            ApplicationDiagnostic { code: ApplicationCode::InvalidSchema, path: text_of(path), message: from_chars(m.as_slice()), span: span_of(text, "schema") },
        );
    }
    let collections = match v.get("collections") {
        None => {
            let e: Vec<ApplicationCollection> = Vec::new();
            proof {
                assert(e@.map_values(|x: ApplicationCollection| collection_full_view(x)) =~= Seq::<
                    (Seq<char>, Seq<(Seq<char>, Option<Seq<char>>, Seq<Seq<char>>)>),
                >::empty());
            }
            e
        },
        Some(JsonValue::Array(cs)) => {
            proof {
                crate::json::lemma_json_views(cs@);
            }
            match parse_collections(cs, path, text) {
                Ok(c) => c,
                Err(e) => {
                    return Err(e);
                },
            }
        },
        Some(x) => {
            assert(!(x@ is Array));
            return Err(cerr(path, to_chars("`collections` must be an array (explicit order)"), text, "collections"));
        },
    };
    let mounts = match v.get("mounts") {
        None => {
            let e: Vec<ApplicationMount> = Vec::new();
            proof {
                assert(e@.map_values(|x: ApplicationMount| mount_full_view(x)) =~= Seq::<(Seq<char>, Seq<char>, Option<Seq<char>>)>::empty());
            }
            e
        },
        Some(JsonValue::Array(ms)) => {
            proof {
                crate::json::lemma_json_views(ms@);
            }
            match parse_mounts(ms, path, text) {
                Ok(m) => m,
                Err(e) => {
                    return Err(e);
                },
            }
        },
        Some(x) => {
            assert(!(x@ is Array));
            return Err(cerr(path, to_chars("`mounts` must be an array"), text, "mounts"));
        },
    };
    let c = ApplicationsConfig { schema, collections, mounts };
    proof {
        assert(config_view(c).0 =~= c.collections@.map_values(|x: ApplicationCollection| collection_full_view(x)));
    }
    Ok(c)
}

/// Errors for the first `n` applications of group `gid` of collection `cid`
/// that no descriptor declares.
pub open spec fn group_refs(
    cid: Seq<char>,
    gid: Seq<char>,
    apps: Seq<Seq<char>>,
    known: Seq<Seq<char>>,
    path: Seq<char>,
    source: Seq<char>,
    n: int,
) -> Seq<(ApplicationCode, Seq<char>, Seq<char>, Option<SourceSpan>)>
    decreases n,
{
    if n <= 0 {
        Seq::empty()
    } else {
        let p = group_refs(cid, gid, apps, known, path, source, n - 1);
        let a = apps[n - 1];
        if known.contains(a) {
            p
        } else {
            p.push(
                (
                    ApplicationCode::UnknownReference,
                    path,
                    "collection `"@ + cid + "` / group `"@ + gid + "` references unknown ApplicationId `"@ + a
                        + "` (no package.json#vmz.application with this id)"@,
                    to_span(first_span(source, a)),
                ),
            )
        }
    }
}

/// The reference errors of the first `n` groups of collection `cid`.
pub open spec fn collection_refs(
    cid: Seq<char>,
    groups: Seq<(Seq<char>, Option<Seq<char>>, Seq<Seq<char>>)>,
    known: Seq<Seq<char>>,
    path: Seq<char>,
    source: Seq<char>,
    n: int,
) -> Seq<(ApplicationCode, Seq<char>, Seq<char>, Option<SourceSpan>)>
    decreases n,
{
    if n <= 0 {
        Seq::empty()
    } else {
        collection_refs(cid, groups, known, path, source, n - 1) + group_refs(
            cid,
            groups[n - 1].0,
            groups[n - 1].2,
            known,
            path,
            source,
            groups[n - 1].2.len() as int,
        )
    }
}

/// The reference errors of the first `n` collections.
pub open spec fn all_collection_refs(
    cols: Seq<(Seq<char>, Seq<(Seq<char>, Option<Seq<char>>, Seq<Seq<char>>)>)>,
    known: Seq<Seq<char>>,
    path: Seq<char>,
    source: Seq<char>,
    n: int,
) -> Seq<(ApplicationCode, Seq<char>, Seq<char>, Option<SourceSpan>)>
    decreases n,
{
    if n <= 0 {
        Seq::empty()
    } else {
        all_collection_refs(cols, known, path, source, n - 1) + collection_refs(
            cols[n - 1].0,
            cols[n - 1].1,
            known,
            path,
            source,
            cols[n - 1].1.len() as int,
        )
    }
}

fn check_group_refs(
    cid: &String,
    g: &ApplicationGroup,
    known_ids: &Vec<String>,
    config_path: &str,
    source: &str,
    diagnostics: &mut Vec<ApplicationDiagnostic>,
)
    requires
        vstd::utf8::encode_utf8(source@).len() <= u32::MAX,
    ensures
        adiags_view(final(diagnostics)@) == adiags_view(old(diagnostics)@) + group_refs(
            cid@,
            g.id@,
            texts(g.applications@),
            texts(known_ids@),
            config_path@,
            source@,
            g.applications@.len() as int,
        ),
{
    let ghost d0 = adiags_view(diagnostics@);
    let ghost av = texts(g.applications@);
    let mut k: usize = 0;
    while k < g.applications.len()
        invariant
            k <= g.applications.len(),
            av == texts(g.applications@),
            vstd::utf8::encode_utf8(source@).len() <= u32::MAX,
            adiags_view(diagnostics@) == d0 + group_refs(cid@, g.id@, av, texts(known_ids@), config_path@, source@, k as int),
        decreases g.applications.len() - k,
    {
        let a = g.applications[k].as_str();
        proof {
            assert(av[k as int] == a@);
        }
        if !texts_contain(known_ids, to_chars(a).as_slice()) {
            let mut m = to_chars("collection `");
            push_str(&mut m, cid.as_str());
            push_str(&mut m, "` / group `");
            push_str(&mut m, g.id.as_str());
            push_str(&mut m, "` references unknown ApplicationId `");
            push_str(&mut m, a);
            push_str(&mut m, "` (no package.json#vmz.application with this id)");
            push_adiag(
                diagnostics,
                ApplicationDiagnostic {
                    code: ApplicationCode::UnknownReference,
                    path: text_of(config_path),
                    message: from_chars(m.as_slice()),
                    span: span_of(source, a),
                },
            );
        }
        proof {
            assert(adiags_view(diagnostics@) =~= d0 + group_refs(cid@, g.id@, av, texts(known_ids@), config_path@, source@, k + 1));
        }
        k = k + 1;
    }
}

/// Errors for every application a collection group names that no
/// descriptor declares, in collection, group and application order.
pub fn validate_collection_refs(
    collections: &[ApplicationCollection],
    known_ids: &Vec<String>,
    config_path: &str,
    source: &str,
    diagnostics: &mut Vec<ApplicationDiagnostic>,
)
    requires
        vstd::utf8::encode_utf8(source@).len() <= u32::MAX,
    ensures
        adiags_view(final(diagnostics)@) == adiags_view(old(diagnostics)@) + all_collection_refs(
            collections@.map_values(|x: ApplicationCollection| collection_full_view(x)),
            texts(known_ids@),
            config_path@,
            source@,
            collections@.len() as int,
        ),
{
    let ghost cv = collections@.map_values(|x: ApplicationCollection| collection_full_view(x));
    let ghost kn = texts(known_ids@);
    let ghost d0 = adiags_view(diagnostics@);
    let mut i: usize = 0;
    while i < collections.len()
        invariant
            i <= collections.len(),
            cv == collections@.map_values(|x: ApplicationCollection| collection_full_view(x)),
            kn == texts(known_ids@),
            vstd::utf8::encode_utf8(source@).len() <= u32::MAX,
            adiags_view(diagnostics@) == d0 + all_collection_refs(cv, kn, config_path@, source@, i as int),
        decreases collections.len() - i,
    {
        let c = &collections[i];
        let ghost gv = collection_full_view(*c).1;
        let ghost d1 = adiags_view(diagnostics@);
        proof {
            assert(cv[i as int] == collection_full_view(*c));
        }
        let mut g: usize = 0;
        while g < c.groups.len()
            invariant
                g <= c.groups.len(),
                gv == c.groups@.map_values(|x: ApplicationGroup| group_full_view(x)),
                kn == texts(known_ids@),
                vstd::utf8::encode_utf8(source@).len() <= u32::MAX,
                adiags_view(diagnostics@) == d1 + collection_refs(c.id@, gv, kn, config_path@, source@, g as int),
            decreases c.groups.len() - g,
        {
            proof {
                assert(gv[g as int] == group_full_view(c.groups@[g as int]));
            }
            check_group_refs(&c.id, &c.groups[g], known_ids, config_path, source, diagnostics);
            proof {
                assert(adiags_view(diagnostics@) =~= d1 + collection_refs(c.id@, gv, kn, config_path@, source@, g + 1));
            }
            g = g + 1;
        }
        proof {
            assert(adiags_view(diagnostics@) =~= d0 + all_collection_refs(cv, kn, config_path@, source@, i + 1));
        }
        i = i + 1;
    }
}

/// `Path::new(dir).join(name)` displayed as text.
pub uninterp spec fn path_join_text(dir: Seq<char>, name: Seq<char>) -> Seq<char>;

/// `std::path::Path::join` of `dir` and `name`, displayed. The contract
/// names the result; the separator the platform inserts is not stated.
#[verifier::external_body]
fn path_join(dir: &str, name: &str) -> (r: String)
    ensures
        r@ == path_join_text(dir@, name@),
{
    std::path::Path::new(dir).join(name).display().to_string()
}

/// The package root of a descriptor as shown in messages.
pub open spec fn root_shown(d: ApplicationDescriptor) -> Seq<char> {
    match d.package_root {
        Some(r) => r@,
        None => "(unknown)"@,
    }
}

/// The index of the first descriptor among the first `n` with `id`.
pub open spec fn first_descriptor(descs: Seq<ApplicationDescriptor>, id: Seq<char>, n: int) -> Option<int>
    decreases n,
{
    if n <= 0 {
        None
    } else {
        match first_descriptor(descs, id, n - 1) {
            Some(k) => Some(k),
            None => if descs[n - 1].id@ == id {
                Some(n - 1)
            } else {
                None
            },
        }
    }
}

/// An error for each of the first `n` descriptors whose ApplicationId an
/// earlier descriptor already declares (named with the first one's root).
pub open spec fn duplicate_id_diags(descs: Seq<ApplicationDescriptor>, n: int) -> Seq<
    (ApplicationCode, Seq<char>, Seq<char>, Option<SourceSpan>),
>
    decreases n,
{
    if n <= 0 {
        Seq::empty()
    } else {
        let p = duplicate_id_diags(descs, n - 1);
        let d = descs[n - 1];
        match first_descriptor(descs, d.id@, n - 1) {
            Some(k) => p.push(
                (
                    ApplicationCode::DuplicateId,
                    path_join_text(root_shown(d), "package.json"@),
                    "ApplicationId `"@ + d.id@ + "` declared in both `"@ + root_shown(descs[k]) + "` and `"@ + root_shown(d)
                        + "`; ApplicationId must be unique and explicit"@,
                    None,
                ),
            ),
            None => p,
        }
    }
}

fn root_shown_exec(d: &ApplicationDescriptor) -> (r: String)
    ensures
        r@ == root_shown(*d),
{
    match &d.package_root {
        Some(r) => r.clone(),
        None => text_of("(unknown)"),
    }
}

fn first_descriptor_exec(descs: &[ApplicationDescriptor], id: &[char], n: usize) -> (r: Option<usize>)
    requires
        n <= descs.len(),
    ensures
        match r {
            Some(k) => k < n && first_descriptor(descs@, id@, n as int) == Some(k as int),
            None => first_descriptor(descs@, id@, n as int) is None,
        },
{
    let mut k: usize = 0;
    while k < n
        invariant
            k <= n <= descs.len(),
            first_descriptor(descs@, id@, k as int) is None,
        decreases n - k,
    {
        if chars_eq(to_chars(descs[k].id.as_str()).as_slice(), id) {
            proof {
                lemma_first_descriptor_stays(descs@, id@, k + 1, n as int);
            }
            return Some(k);
        }
        k = k + 1;
    }
    None
}

proof fn lemma_first_descriptor_stays(descs: Seq<ApplicationDescriptor>, id: Seq<char>, m: int, n: int)
    requires
        0 <= m <= n,
        first_descriptor(descs, id, m) is Some,
    ensures
        first_descriptor(descs, id, n) == first_descriptor(descs, id, m),
    decreases n - m,
{
    if n > m {
        lemma_first_descriptor_stays(descs, id, m, n - 1);
    }
}

/// An error for each descriptor whose ApplicationId an earlier one already
/// declares; the first declaration is the one kept.
pub fn index_descriptors(descriptors: &[ApplicationDescriptor], diagnostics: &mut Vec<ApplicationDiagnostic>)
    ensures
        adiags_view(final(diagnostics)@) == adiags_view(old(diagnostics)@) + duplicate_id_diags(descriptors@, descriptors@.len() as int),
{
    let ghost d0 = adiags_view(diagnostics@);
    let mut i: usize = 0;
    while i < descriptors.len()
        invariant
            i <= descriptors.len(),
            adiags_view(diagnostics@) == d0 + duplicate_id_diags(descriptors@, i as int),
        decreases descriptors.len() - i,
    {
        let d = &descriptors[i];
        match first_descriptor_exec(descriptors, to_chars(d.id.as_str()).as_slice(), i) {
            Some(k) => {
                let cur = root_shown_exec(d);
                let prev = root_shown_exec(&descriptors[k]);
                let mut m = to_chars("ApplicationId `");
                push_str(&mut m, d.id.as_str());
                push_str(&mut m, "` declared in both `");
                push_str(&mut m, prev.as_str());
                push_str(&mut m, "` and `");
                push_str(&mut m, cur.as_str());
                push_str(&mut m, "`; ApplicationId must be unique and explicit");
                push_adiag(
                    diagnostics,
                    ApplicationDiagnostic {
                        code: ApplicationCode::DuplicateId,
                        path: path_join(cur.as_str(), "package.json"),
                        message: from_chars(m.as_slice()),
                        span: None,
                    },
                );
            },
            None => {},
        }
        proof {
            assert(adiags_view(diagnostics@) =~= d0 + duplicate_id_diags(descriptors@, i + 1));
        }
        i = i + 1;
    }
}

} // verus!
