//! Dirty-path to affected-application selection for a host and its mounted
//! applications: a change under a package root rebuilds that application
//! (and the host for a descriptor change), the mount config rebuilds the
//! host, a host change rebuilds the collection UI, and a change outside
//! every package rebuilds everything.

use vstd::prelude::*;
use crate::application::{normalize_path, normalized_dir};
use crate::isolation::ArtifactIdentity;
use crate::order::{ins_sorted, insert_sorted_unique, lemma_ins_sorted_at, lemma_stable_sort_push, lex_lt, stable_sort, strictly_sorted, text_order, texts, texts_contain};
use crate::text::{chars_eq, from_chars, has_prefix, push_str, starts_with, to_chars};

verus! {

/// The file name of a path (`Path::file_name`), when it has one.
pub uninterp spec fn path_file_name(p: Seq<char>) -> Option<Seq<char>>;

/// `Path::file_name` of `p`, as text. The contract names the result; which
/// component the standard library takes as the file name is not stated.
#[verifier::external_body]
fn file_name(p: &str) -> (r: Option<String>)
    ensures
        match r {
            Some(n) => path_file_name(p@) == Some(n@),
            None => path_file_name(p@) is None,
        },
{
    std::path::Path::new(p).file_name().map(|n| n.to_string_lossy().into_owned())
}

/// Why an application is rebuilt.
#[derive(Debug, Clone, Copy, PartialEq, Eq, Structural)]
pub enum AffectedReason {
    /// The host's mount config changed.
    MountConfig,
    /// A package descriptor (`package.json`) changed.
    Descriptor,
    /// A source file of a mounted application changed.
    ChildSource,
    /// A host file outside every application changed.
    CollectionUi,
    /// A file outside the host and every application changed.
    SharedPackage,
}

/// The text of a reason, by which units are ordered.
pub open spec fn reason_text(r: AffectedReason) -> Seq<char> {
    match r {
        AffectedReason::MountConfig => "mount_config"@,
        AffectedReason::Descriptor => "descriptor"@,
        AffectedReason::ChildSource => "child_source"@,
        AffectedReason::CollectionUi => "collection_ui"@,
        AffectedReason::SharedPackage => "shared_package"@,
    }
}

impl AffectedReason {
    /// The text of this reason.
    pub fn as_str(&self) -> (r: &'static str)
        ensures
            r@ == reason_text(*self),
    {
        match self {
            AffectedReason::MountConfig => "mount_config",
            AffectedReason::Descriptor => "descriptor",
            AffectedReason::ChildSource => "child_source",
            AffectedReason::CollectionUi => "collection_ui",
            AffectedReason::SharedPackage => "shared_package",
        }
    }
}

/// One application to rebuild, and why.
#[derive(Debug, Clone)]
pub struct AffectedUnit {
    pub application_id: String,
    pub reason: AffectedReason,
}

/// A unit as plain values.
pub open spec fn unit_view(u: AffectedUnit) -> (Seq<char>, AffectedReason) {
    (u.application_id@, u.reason)
}

/// Units as plain values.
pub open spec fn unit_views(s: Seq<AffectedUnit>) -> Seq<(Seq<char>, AffectedReason)> {
    s.map_values(|u: AffectedUnit| unit_view(u))
}

/// The host's mount config file: `applications.config.json5` joined to the
/// host root (no separator added after an empty root or one ending in `/`).
pub open spec fn config_path(host_root: Seq<char>) -> Seq<char> {
    if host_root.len() == 0 {
        "applications.config.json5"@
    } else if host_root.last() == '/' {
        host_root + "applications.config.json5"@
    } else {
        host_root + "/applications.config.json5"@
    }
}

/// Package root `r` (normalized, not empty) holds path `d`: `d` is `r` or
/// continues it after a separator.
pub open spec fn covers(r: Seq<char>, d: Seq<char>) -> bool {
    &&& r.len() > 0
    &&& has_prefix(d, r)
    &&& (d.len() == r.len() || d[r.len() as int] == '/' || d[r.len() as int] == '\\')
}

/// The application of the longest package root among the first `n`
/// artifacts that holds `d` (the last artifact with that root), with the
/// root's length.
pub open spec fn longest_owner(arts: Seq<ArtifactIdentity>, d: Seq<char>, n: int) -> Option<(int, Seq<char>)>
    decreases n,
{
    if n <= 0 {
        None
    } else {
        let b = longest_owner(arts, d, n - 1);
        let a = arts[n - 1];
        match a.package_root {
            Some(root) => {
                let r = normalized_dir(root@);
                if covers(r, d) && match b {
                    Some(x) => x.0 <= r.len(),
                    None => true,
                } {
                    Some((r.len() as int, a.application_id@))
                } else {
                    b
                }
            },
            None => b,
        }
    }
}

/// The application of the lexicographically least package root among the
/// first `n` artifacts that is a text prefix of `d` (the last artifact with
/// that root), with the root.
pub open spec fn least_prefix_owner(arts: Seq<ArtifactIdentity>, d: Seq<char>, n: int) -> Option<(Seq<char>, Seq<char>)>
    decreases n,
{
    if n <= 0 {
        None
    } else {
        let b = least_prefix_owner(arts, d, n - 1);
        let a = arts[n - 1];
        match a.package_root {
            Some(root) => {
                let r = normalized_dir(root@);
                if has_prefix(d, r) && match b {
                    Some(x) => !lex_lt(x.0, r),
                    None => true,
                } {
                    Some((r, a.application_id@))
                } else {
                    b
                }
            },
            None => b,
        }
    }
}

/// Every artifact's application, in order, rebuilt for a shared package.
pub open spec fn shared_units(arts: Seq<ArtifactIdentity>) -> Seq<(Seq<char>, AffectedReason)> {
    arts.map_values(|a: ArtifactIdentity| (a.application_id@, AffectedReason::SharedPackage))
}

/// The units one dirty path selects.
pub open spec fn dirty_units(arts: Seq<ArtifactIdentity>, host_root: Seq<char>, host: Seq<char>, raw: Seq<char>) -> Seq<
    (Seq<char>, AffectedReason),
> {
    let d = normalized_dir(raw);
    let name = path_file_name(raw);
    if d == normalized_dir(config_path(host_root)) || name == Some("applications.config.json5"@) {
        seq![(host, AffectedReason::MountConfig)]
    } else {
        match longest_owner(arts, d, arts.len() as int) {
            Some(m) => if name == Some("package.json"@) {
                seq![(m.1, AffectedReason::Descriptor), (host, AffectedReason::Descriptor)]
            } else {
                seq![(m.1, AffectedReason::ChildSource)]
            },
            None => if has_prefix(d, normalized_dir(host_root)) {
                seq![(host, AffectedReason::CollectionUi)]
            } else {
                shared_units(arts).push((host, AffectedReason::SharedPackage))
            },
        }
    }
}

fn text_eq(a: &str, b: &str) -> (r: bool)
    ensures
        r == (a@ == b@),
{
    let x = to_chars(a);
    let y = to_chars(b);
    chars_eq(x.as_slice(), y.as_slice())
}

fn name_is(name: &Option<String>, lit: &str) -> (r: bool)
    ensures
        r == (match name {
            Some(n) => n@ == lit@,
            None => false,
        }),
{
    match name {
        Some(n) => text_eq(n.as_str(), lit),
        None => false,
    }
}

fn config_path_exec(host_root: &str) -> (r: String)
    ensures
        r@ == config_path(host_root@),
{
    let mut v = to_chars(host_root);
    if v.len() == 0 {
        String::from_str("applications.config.json5")
    } else if v[v.len() - 1] == '/' {
        push_str(&mut v, "applications.config.json5");
        from_chars(v.as_slice())
    } else {
        push_str(&mut v, "/applications.config.json5");
        from_chars(v.as_slice())
    }
}

fn covers_exec(r: &[char], d: &[char]) -> (b: bool)
    ensures
        b == covers(r@, d@),
{
    if r.len() == 0 || !starts_with(d, r) {
        return false;
    }
    d.len() == r.len() || d[r.len()] == '/' || d[r.len()] == '\\'
}

fn longest_owner_exec(arts: &[ArtifactIdentity], d: &[char]) -> (r: Option<(usize, String)>)
    ensures
        match r {
            Some(m) => longest_owner(arts@, d@, arts@.len() as int) == Some((m.0 as int, m.1@)),
            None => longest_owner(arts@, d@, arts@.len() as int) is None,
        },
{
    let mut best: Option<(usize, String)> = None;
    let mut i: usize = 0;
    while i < arts.len()
        invariant
            i <= arts.len(),
            match best {
                Some(m) => longest_owner(arts@, d@, i as int) == Some((m.0 as int, m.1@)),
                None => longest_owner(arts@, d@, i as int) is None,
            },
        decreases arts.len() - i,
    {
        match &arts[i].package_root {
            Some(root) => {
                let rn = normalize_path(root.as_str());
                let rc = to_chars(rn.as_str());
                if covers_exec(rc.as_slice(), d) {
                    let take = match &best {
                        Some(m) => m.0 <= rc.len(),
                        None => true,
                    };
                    if take {
                        best = Some((rc.len(), arts[i].application_id.clone()));
                    }
                }
            },
            None => {},
        }
        i = i + 1;
    }
    best
}

fn least_prefix_owner_exec(arts: &[ArtifactIdentity], d: &[char]) -> (r: Option<(String, String)>)
    ensures
        match r {
            Some(m) => least_prefix_owner(arts@, d@, arts@.len() as int) == Some((m.0@, m.1@)),
            None => least_prefix_owner(arts@, d@, arts@.len() as int) is None,
        },
{
    let mut best: Option<(String, String)> = None;
    let mut i: usize = 0;
    while i < arts.len()
        invariant
            i <= arts.len(),
            match best {
                Some(m) => least_prefix_owner(arts@, d@, i as int) == Some((m.0@, m.1@)),
                None => least_prefix_owner(arts@, d@, i as int) is None,
            },
        decreases arts.len() - i,
    {
        match &arts[i].package_root {
            Some(root) => {
                let rn = normalize_path(root.as_str());
                let rc = to_chars(rn.as_str());
                if starts_with(d, rc.as_slice()) {
                    let take = match &best {
                        Some(m) => text_order(&m.0, &rn) >= 0,
                        None => true,
                    };
                    if take {
                        best = Some((rn, arts[i].application_id.clone()));
                    }
                }
            },
            None => {},
        }
        i = i + 1;
    }
    best
}

fn push_unit(units: &mut Vec<AffectedUnit>, id: String, reason: AffectedReason)
    ensures
        unit_views(final(units)@) == unit_views(old(units)@).push((id@, reason)),
{
    let ghost before = units@;
    let u = AffectedUnit { application_id: id, reason };
    units.push(u);
    proof {
        assert(unit_views(units@) =~= unit_views(before).push(unit_view(u)));
    }
}

/// Append the units that one dirty path selects.
fn push_dirty_units(
    units: &mut Vec<AffectedUnit>,
    arts: &[ArtifactIdentity],
    host_root: &str,
    host_id: &str,
    raw: &str,
)
    ensures
        unit_views(final(units)@) == unit_views(old(units)@) + dirty_units(arts@, host_root@, host_id@, raw@),
{
    let ghost base = unit_views(units@);
    let d = normalize_path(raw);
    let name = file_name(raw);
    let cfg = normalize_path(config_path_exec(host_root).as_str());
    let dc = to_chars(d.as_str());
    if text_eq(d.as_str(), cfg.as_str()) || name_is(&name, "applications.config.json5") {
        push_unit(units, String::from_str(host_id), AffectedReason::MountConfig);
        proof {
            assert(unit_views(units@) =~= base + dirty_units(arts@, host_root@, host_id@, raw@));
        }
        return;
    }
    match longest_owner_exec(arts, dc.as_slice()) {
        Some(m) => {
            if name_is(&name, "package.json") {
                push_unit(units, m.1, AffectedReason::Descriptor);
                push_unit(units, String::from_str(host_id), AffectedReason::Descriptor);
            } else {
                push_unit(units, m.1, AffectedReason::ChildSource);
            }
            proof {
                assert(unit_views(units@) =~= base + dirty_units(arts@, host_root@, host_id@, raw@));
            }
        },
        None => {
            let hn = normalize_path(host_root);
            let hc = to_chars(hn.as_str());
            if starts_with(dc.as_slice(), hc.as_slice()) {
                push_unit(units, String::from_str(host_id), AffectedReason::CollectionUi);
                proof {
                    assert(unit_views(units@) =~= base + dirty_units(arts@, host_root@, host_id@, raw@));
                }
            } else {
                let mut i: usize = 0;
                while i < arts.len()
                    invariant
                        i <= arts.len(),
                        unit_views(units@) == base + shared_units(arts@).take(i as int),
                    decreases arts.len() - i,
                {
                    push_unit(units, arts[i].application_id.clone(), AffectedReason::SharedPackage);
                    proof {
                        assert(shared_units(arts@).take(i + 1) =~= shared_units(arts@).take(i as int).push(
                            shared_units(arts@)[i as int],
                        ));
                    }
                    i = i + 1;
                }
                push_unit(units, String::from_str(host_id), AffectedReason::SharedPackage);
                proof {
                    assert(shared_units(arts@).take(arts@.len() as int) =~= shared_units(arts@));
                    assert(unit_views(units@) =~= base + dirty_units(arts@, host_root@, host_id@, raw@));
                }
            }
        },
    }
}

/// The units the first `n` dirty paths select, path by path.
pub open spec fn all_dirty_units(
    arts: Seq<ArtifactIdentity>,
    host_root: Seq<char>,
    host: Seq<char>,
    dirty: Seq<Seq<char>>,
    n: int,
) -> Seq<(Seq<char>, AffectedReason)>
    decreases n,
{
    if n <= 0 {
        Seq::empty()
    } else {
        all_dirty_units(arts, host_root, host, dirty, n - 1) + dirty_units(arts, host_root, host, dirty[n - 1])
    }
}

/// Units ordered by application, then by reason text.
pub open spec fn unit_lt() -> spec_fn((Seq<char>, AffectedReason), (Seq<char>, AffectedReason)) -> bool {
    |a: (Seq<char>, AffectedReason), b: (Seq<char>, AffectedReason)|
        lex_lt(a.0, b.0) || (a.0 == b.0 && lex_lt(reason_text(a.1), reason_text(b.1)))
}

/// `s` without elements equal to the one just before them.
pub open spec fn dedup_units(s: Seq<(Seq<char>, AffectedReason)>) -> Seq<(Seq<char>, AffectedReason)>
    decreases s.len(),
{
    if s.len() == 0 {
        Seq::empty()
    } else {
        let d = dedup_units(s.drop_last());
        if s.len() > 1 && s[s.len() - 2] == s.last() {
            d
        } else {
            d.push(s.last())
        }
    }
}

/// The units of a plan: those the dirty paths select, sorted by application
/// and reason, each once.
pub open spec fn planned_units(arts: Seq<ArtifactIdentity>, host_root: Seq<char>, host: Seq<char>, dirty: Seq<Seq<char>>) -> Seq<
    (Seq<char>, AffectedReason),
> {
    dedup_units(stable_sort(all_dirty_units(arts, host_root, host, dirty, dirty.len() as int), unit_lt()))
}

/// The applications some unit rebuilds.
pub open spec fn rebuilt_ids(units: Seq<(Seq<char>, AffectedReason)>) -> Set<Seq<char>> {
    units.map_values(|u: (Seq<char>, AffectedReason)| u.0).to_set()
}

/// Every artifact's application and the host.
pub open spec fn candidate_ids(arts: Seq<ArtifactIdentity>, host: Seq<char>) -> Seq<Seq<char>> {
    arts.map_values(|a: ArtifactIdentity| a.application_id@).push(host)
}

/// A dirty-path diagnostic: the path and its message.
#[derive(Debug, Clone)]
pub struct AffectedDiagnostic {
    pub path: String,
    pub message: String,
}

/// The leak error: with one dirty path that is no descriptor nor mount
/// config, under the lexicographically least package root it starts with,
/// a child-source unit of another application than that root's and the
/// host's is a leak.
pub open spec fn leak_diags(
    arts: Seq<ArtifactIdentity>,
    host: Seq<char>,
    dirty: Seq<Seq<char>>,
    units: Seq<(Seq<char>, AffectedReason)>,
) -> Seq<(Seq<char>, Seq<char>)> {
    if dirty.len() == 1 {
        match least_prefix_owner(arts, normalized_dir(dirty[0]), arts.len() as int) {
            Some(m) => {
                let name = path_file_name(dirty[0]);
                if name != Some("package.json"@) && name != Some("applications.config.json5"@) && exists|k: int|
                    0 <= k < units.len() && #[trigger] units[k].0 != m.1 && units[k].0 != host && units[k].1
                        == AffectedReason::ChildSource {
                    seq![(
                        dirty[0],
                        "child_source change under `"@ + m.1 + "` leaked rebuild to sibling applications"@,
                    )]
                } else {
                    Seq::empty()
                }
            },
            None => Seq::empty(),
        }
    } else {
        Seq::empty()
    }
}

/// The applications a set of dirty paths rebuilds, and why.
#[derive(Debug, Clone)]
pub struct AffectedPlan {
    pub dirty: Vec<String>,
    pub units: Vec<AffectedUnit>,
    pub not_rebuilt: Vec<String>,
    pub diagnostics: Vec<AffectedDiagnostic>,
}

fn unit_before(a: &AffectedUnit, b: &AffectedUnit) -> (r: bool)
    ensures
        r == (unit_lt())(unit_view(*a), unit_view(*b)),
{
    let c = text_order(&a.application_id, &b.application_id);
    if c < 0 {
        true
    } else if c > 0 {
        false
    } else {
        let ra = String::from_str(a.reason.as_str());
        let rb = String::from_str(b.reason.as_str());
        text_order(&ra, &rb) < 0
    }
}

fn insert_unit(v: &mut Vec<AffectedUnit>, x: AffectedUnit)
    ensures
        unit_views(final(v)@) == ins_sorted(unit_views(old(v)@), unit_view(x), unit_lt()),
{
    let ghost t = unit_views(v@);
    let ghost xv = unit_view(x);
    let mut p: usize = 0;
    while p < v.len() && !unit_before(&x, &v[p])
        invariant
            p <= v.len(),
            t == unit_views(v@),
            xv == unit_view(x),
            forall|j: int| 0 <= j < p ==> !(unit_lt())(xv, #[trigger] t[j]),
        decreases v.len() - p,
    {
        p = p + 1;
    }
    proof {
        lemma_ins_sorted_at(t, xv, unit_lt(), p as int);
    }
    v.insert(p, x);
    proof {
        assert(unit_views(v@) =~= t.take(p as int) + seq![xv] + t.skip(p as int));
    }
}

fn copy_unit(u: &AffectedUnit) -> (r: AffectedUnit)
    ensures
        unit_view(r) == unit_view(*u),
{
    AffectedUnit { application_id: u.application_id.clone(), reason: u.reason }
}

fn sort_dedup_units(raw: &[AffectedUnit]) -> (r: Vec<AffectedUnit>)
    ensures
        unit_views(r@) == dedup_units(stable_sort(unit_views(raw@), unit_lt())),
{
    let mut sorted: Vec<AffectedUnit> = Vec::new();
    let mut i: usize = 0;
    while i < raw.len()
        invariant
            i <= raw.len(),
            unit_views(sorted@) == stable_sort(unit_views(raw@.take(i as int)), unit_lt()),
        decreases raw.len() - i,
    {
        proof {
            assert(unit_views(raw@.take(i + 1)) =~= unit_views(raw@.take(i as int)).push(unit_view(raw@[i as int])));
            lemma_stable_sort_push(unit_views(raw@.take(i as int)), unit_view(raw@[i as int]), unit_lt());
        }
        insert_unit(&mut sorted, copy_unit(&raw[i]));
        i = i + 1;
    }
    proof {
        assert(raw@.take(raw@.len() as int) =~= raw@);
    }
    let ghost t = unit_views(sorted@);
    let mut out: Vec<AffectedUnit> = Vec::new();
    let mut k: usize = 0;
    while k < sorted.len()
        invariant
            k <= sorted.len(),
            t == unit_views(sorted@),
            unit_views(out@) == dedup_units(t.take(k as int)),
        decreases sorted.len() - k,
    {
        proof {
            assert(t.take(k + 1).drop_last() =~= t.take(k as int));
        }
        let dup = k > 0 && sorted[k - 1].reason == sorted[k].reason && text_eq(
            sorted[k - 1].application_id.as_str(),
            sorted[k].application_id.as_str(),
        );
        proof {
            if k > 0 {
                assert(dup == (t[k - 1] == t[k as int]));
            }
        }
        if !dup {
            let ghost before = unit_views(out@);
            let u = copy_unit(&sorted[k]);
            out.push(u);
            proof {
                assert(unit_views(out@) =~= before.push(t[k as int]));
            }
        }
        k = k + 1;
    }
    proof {
        assert(t.take(t.len() as int) =~= t);
    }
    out
}

fn unit_ids(units: &[AffectedUnit]) -> (r: Vec<String>)
    ensures
        texts(r@) == unit_views(units@).map_values(|u: (Seq<char>, AffectedReason)| u.0),
{
    let mut out: Vec<String> = Vec::new();
    let mut i: usize = 0;
    while i < units.len()
        invariant
            i <= units.len(),
            texts(out@) == unit_views(units@).map_values(|u: (Seq<char>, AffectedReason)| u.0).take(i as int),
        decreases units.len() - i,
    {
        let ghost before = out@;
        out.push(units[i].application_id.clone());
        proof {
            assert(texts(out@) =~= texts(before).push(units@[i as int].application_id@));
            assert(texts(out@) =~= unit_views(units@).map_values(|u: (Seq<char>, AffectedReason)| u.0).take(i + 1));
        }
        i = i + 1;
    }
    proof {
        assert(unit_views(units@).map_values(|u: (Seq<char>, AffectedReason)| u.0).take(units@.len() as int)
            =~= unit_views(units@).map_values(|u: (Seq<char>, AffectedReason)| u.0));
    }
    out
}

/// The affected plan of `dirty` for a host (its root and ApplicationId) and
/// the artifacts of its applications: the dirty paths as given, the units
/// to rebuild (sorted by application then reason, each once), the
/// applications not rebuilt (sorted, each once) and the leak error.
pub fn plan_affected(host_root: &str, host_id: &str, artifacts: &[ArtifactIdentity], dirty: &[String]) -> (r: AffectedPlan)
    ensures
        texts(r.dirty@) == texts(dirty@),
        unit_views(r.units@) == planned_units(artifacts@, host_root@, host_id@, texts(dirty@)),
        strictly_sorted(texts(r.not_rebuilt@)),
        texts(r.not_rebuilt@).to_set() == candidate_ids(artifacts@, host_id@).to_set().difference(
            rebuilt_ids(all_dirty_units(artifacts@, host_root@, host_id@, texts(dirty@), dirty@.len() as int)),
        ),
        r.diagnostics@.map_values(|d: AffectedDiagnostic| (d.path@, d.message@)) == leak_diags(
            artifacts@,
            host_id@,
            texts(dirty@),
            all_dirty_units(artifacts@, host_root@, host_id@, texts(dirty@), dirty@.len() as int),
        ),
{
    let ghost dt = texts(dirty@);
    let mut raw: Vec<AffectedUnit> = Vec::new();
    let mut dirty_out: Vec<String> = Vec::new();
    let mut i: usize = 0;
    while i < dirty.len()
        invariant
            i <= dirty.len(),
            dt == texts(dirty@),
            unit_views(raw@) == all_dirty_units(artifacts@, host_root@, host_id@, dt, i as int),
            texts(dirty_out@) == dt.take(i as int),
        decreases dirty.len() - i,
    {
        push_dirty_units(&mut raw, artifacts, host_root, host_id, dirty[i].as_str());
        let ghost before = dirty_out@;
        dirty_out.push(dirty[i].clone());
        proof {
            assert(texts(dirty_out@) =~= texts(before).push(dirty@[i as int]@));
            assert(texts(dirty_out@) =~= dt.take(i + 1));
        }
        i = i + 1;
    }
    proof {
        assert(dt.take(dt.len() as int) =~= dt);
    }
    let ghost rv = unit_views(raw@);
    let units = sort_dedup_units(raw.as_slice());
    let ids = unit_ids(raw.as_slice());
    let ghost rebuilt = rebuilt_ids(rv);
    let ghost cand = candidate_ids(artifacts@, host_id@);
    let mut cands: Vec<String> = Vec::new();
    let mut a: usize = 0;
    while a < artifacts.len()
        invariant
            a <= artifacts.len(),
            cand == candidate_ids(artifacts@, host_id@),
            texts(cands@) == cand.take(a as int),
        decreases artifacts.len() - a,
    {
        let ghost before = cands@;
        cands.push(artifacts[a].application_id.clone());
        proof {
            assert(texts(cands@) =~= texts(before).push(artifacts@[a as int].application_id@));
            assert(texts(cands@) =~= cand.take(a + 1));
        }
        a = a + 1;
    }
    let ghost before = cands@;
    cands.push(String::from_str(host_id));
    proof {
        assert(texts(cands@) =~= texts(before).push(host_id@));
        assert(texts(cands@) =~= cand);
    }
    let mut not_rebuilt: Vec<String> = Vec::new();
    let mut k: usize = 0;
    while k < cands.len()
        invariant
            k <= cands.len(),
            cand == texts(cands@),
            rebuilt == texts(ids@).to_set(),
            strictly_sorted(texts(not_rebuilt@)),
            texts(not_rebuilt@).to_set() == cand.take(k as int).to_set().difference(rebuilt),
        decreases cands.len() - k,
    {
        let id = cands[k].clone();
        proof {
            assert(id@ == cand[k as int]);
            assert(cand.take(k + 1) =~= cand.take(k as int).push(cand[k as int]));
            cand.take(k as int).lemma_push_to_set_commute(cand[k as int]);
        }
        let c = to_chars(id.as_str());
        let ghost old_set = texts(not_rebuilt@).to_set();
        if !texts_contain(&ids, c.as_slice()) {
            insert_sorted_unique(&mut not_rebuilt, id);
            proof {
                assert(cand.take(k + 1).to_set().difference(rebuilt) =~= old_set.insert(cand[k as int]));
            }
        } else {
            proof {
                assert(cand.take(k + 1).to_set().difference(rebuilt) =~= old_set);
            }
        }
        k = k + 1;
    }
    proof {
        assert(cand.take(cand.len() as int) =~= cand);
    }
    let mut diagnostics: Vec<AffectedDiagnostic> = Vec::new();
    if dirty.len() == 1 {
        let d = normalize_path(dirty[0].as_str());
        let dc = to_chars(d.as_str());
        match least_prefix_owner_exec(artifacts, dc.as_slice()) {
            Some(m) => {
                let name = file_name(dirty[0].as_str());
                if !name_is(&name, "package.json") && !name_is(&name, "applications.config.json5") {
                    let mut leak = false;
                    let mut j: usize = 0;
                    while j < raw.len()
                        invariant
                            j <= raw.len(),
                            rv == unit_views(raw@),
                            leak == exists|q: int|
                                0 <= q < j && #[trigger] rv[q].0 != m.1@ && rv[q].0 != host_id@ && rv[q].1
                                    == AffectedReason::ChildSource,
                        decreases raw.len() - j,
                    {
                        let u = &raw[j];
                        let hit = u.reason == AffectedReason::ChildSource && !text_eq(u.application_id.as_str(), m.1.as_str())
                            && !text_eq(u.application_id.as_str(), host_id);
                        proof {
                            assert(rv[j as int] == unit_view(*u));
                            if hit {
                                assert(0 <= j < j + 1 && rv[j as int].0 != m.1@);
                            }
                        }
                        leak = leak || hit;
                        j = j + 1;
                    }
                    if leak {
                        let mut msg = to_chars("child_source change under `");
                        push_str(&mut msg, m.1.as_str());
                        push_str(&mut msg, "` leaked rebuild to sibling applications");
                        diagnostics.push(AffectedDiagnostic { path: dirty[0].clone(), message: from_chars(msg.as_slice()) });
                    }
                }
            },
            None => {},
        }
    }
    proof {
        assert(diagnostics@.map_values(|d: AffectedDiagnostic| (d.path@, d.message@)) =~= leak_diags(
            artifacts@,
            host_id@,
            dt,
            rv,
        ));
    }
    AffectedPlan { dirty: dirty_out, units, not_rebuilt, diagnostics }
}

/// One test mode: its id, scope, the contracts it runs and the
/// applications it selects.
#[derive(Debug, Clone)]
pub struct TestModeSelection {
    pub id: String,
    pub test_scope: Option<String>,
    pub contracts: Vec<String>,
    pub selected_application_ids: Vec<String>,
}

/// The three test modes of a host: one application standalone, the same
/// application mounted in the host, and the affected applications.
#[derive(Debug, Clone)]
pub struct MountedTestSelection {
    pub application: TestModeSelection,
    pub mounted: TestModeSelection,
    pub affected: TestModeSelection,
}

/// A test mode as plain values.
pub open spec fn mode_view(m: TestModeSelection) -> (Seq<char>, Option<Seq<char>>, Seq<Seq<char>>, Seq<Seq<char>>) {
    (
        m.id@,
        match m.test_scope {
            Some(t) => Some(t@),
            None => None,
        },
        texts(m.contracts@),
        texts(m.selected_application_ids@),
    )
}

/// The application the standalone and mounted modes test: the first
/// artifact's, else the host's.
pub open spec fn sample_id(artifacts: Seq<ArtifactIdentity>, host_id: Seq<char>) -> Seq<char> {
    if artifacts.len() > 0 {
        artifacts[0].application_id@
    } else {
        host_id
    }
}

fn text_of(s: &str) -> (r: String)
    ensures
        r@ == s@,
{
    from_chars(to_chars(s).as_slice())
}

/// The test modes of a host: the sample application standalone, the sample
/// mounted in the host (relocation and host-boundary contracts), and the
/// applications of the affected units, sorted and each once.
pub fn build_test_selection(host_id: &str, artifacts: &[ArtifactIdentity], affected: &AffectedPlan) -> (r: MountedTestSelection)
    ensures
        mode_view(r.application) == (
            sample_id(artifacts@, host_id@),
            Some("standalone"@),
            Seq::<Seq<char>>::empty(),
            seq![sample_id(artifacts@, host_id@)],
        ),
        mode_view(r.mounted) == (
            sample_id(artifacts@, host_id@),
            None::<Seq<char>>,
            seq!["relocation"@, "host_boundary"@],
            seq![sample_id(artifacts@, host_id@), host_id@],
        ),
        r.affected.id@ == "*"@,
        mode_view(r.affected).1 == Some("affected"@),
        r.affected.contracts@.len() == 0,
        strictly_sorted(texts(r.affected.selected_application_ids@)),
        texts(r.affected.selected_application_ids@).to_set() == unit_views(affected.units@).map_values(
            |u: (Seq<char>, AffectedReason)| u.0,
        ).to_set(),
{
    let sample = if artifacts.len() > 0 {
        artifacts[0].application_id.clone()
    } else {
        text_of(host_id)
    };
    let mut selected_one: Vec<String> = Vec::new();
    selected_one.push(sample.clone());
    let application = TestModeSelection {
        id: sample.clone(),
        test_scope: Some(text_of("standalone")),
        contracts: Vec::new(),
        selected_application_ids: selected_one,
    };
    let mut contracts: Vec<String> = Vec::new();
    contracts.push(text_of("relocation"));
    contracts.push(text_of("host_boundary"));
    let mut selected_two: Vec<String> = Vec::new();
    selected_two.push(sample.clone());
    selected_two.push(text_of(host_id));
    let mounted = TestModeSelection { id: sample.clone(), test_scope: None, contracts, selected_application_ids: selected_two };
    let ghost ids = unit_views(affected.units@).map_values(|u: (Seq<char>, AffectedReason)| u.0);
    let mut ids_out: Vec<String> = Vec::new();
    let mut i: usize = 0;
    proof {
        assert(texts(ids_out@) =~= Seq::<Seq<char>>::empty());
        assert(ids.take(0).to_set() =~= Seq::<Seq<char>>::empty().to_set());
    }
    while i < affected.units.len()
        invariant
            i <= affected.units.len(),
            ids == unit_views(affected.units@).map_values(|u: (Seq<char>, AffectedReason)| u.0),
            strictly_sorted(texts(ids_out@)),
            texts(ids_out@).to_set() == ids.take(i as int).to_set(),
        decreases affected.units.len() - i,
    {
        insert_sorted_unique(&mut ids_out, affected.units[i].application_id.clone());
        proof {
            assert(ids.take(i + 1) =~= ids.take(i as int).push(ids[i as int]));
            ids.take(i as int).lemma_push_to_set_commute(ids[i as int]);
            assert(ids[i as int] == affected.units@[i as int].application_id@);
        }
        i = i + 1;
    }
    proof {
        assert(ids.take(affected.units.len() as int) =~= ids);
    }
    let affected_mode = TestModeSelection {
        id: text_of("*"),
        test_scope: Some(text_of("affected")),
        contracts: Vec::new(),
        selected_application_ids: ids_out,
    };
    let r = MountedTestSelection { application, mounted, affected: affected_mode };
    proof {
        assert(texts(r.application.contracts@) =~= Seq::<Seq<char>>::empty());
        assert(texts(r.application.selected_application_ids@) =~= seq![sample_id(artifacts@, host_id@)]);
        assert(texts(r.mounted.contracts@) =~= seq!["relocation"@, "host_boundary"@]);
        assert(texts(r.mounted.selected_application_ids@) =~= seq![sample_id(artifacts@, host_id@), host_id@]);
    }
    r
}


/// Artifact `k` has a package root that, normalized, holds `d`.
pub open spec fn root_holds(arts: Seq<ArtifactIdentity>, d: Seq<char>, k: int) -> bool {
    match arts[k].package_root {
        Some(root) => covers(normalized_dir(root@), d),
        None => false,
    }
}

/// The length of artifact `k`'s normalized package root (0 without one).
pub open spec fn root_len(arts: Seq<ArtifactIdentity>, k: int) -> int {
    match arts[k].package_root {
        Some(root) => normalized_dir(root@).len() as int,
        None => 0,
    }
}

/// Owner law: the application a path selects among the first `n` artifacts
/// is one whose normalized package root holds the path and is at least as
/// long as every other root that holds it; there is none exactly when no
/// root holds the path.
pub proof fn lemma_owner_is_longest(arts: Seq<ArtifactIdentity>, d: Seq<char>, n: int)
    requires
        0 <= n <= arts.len(),
    ensures
        match longest_owner(arts, d, n) {
            Some((len, id)) => exists|k: int|
                0 <= k < n && #[trigger] root_holds(arts, d, k) && arts[k].application_id@ == id && root_len(arts, k) == len
                    && forall|j: int| 0 <= j < n && #[trigger] root_holds(arts, d, j) ==> root_len(arts, j) <= len,
            None => forall|j: int| 0 <= j < n ==> !#[trigger] root_holds(arts, d, j),
        },
    decreases n,
{
    if n > 0 {
        lemma_owner_is_longest(arts, d, n - 1);
        let b = longest_owner(arts, d, n - 1);
        match longest_owner(arts, d, n) {
            Some((len, id)) => {
                if root_holds(arts, d, n - 1) && longest_owner(arts, d, n) == Some((root_len(arts, n - 1), arts[n - 1].application_id@)) {
                    assert forall|j: int| 0 <= j < n && #[trigger] root_holds(arts, d, j) implies root_len(arts, j) <= len by {
                        if j < n - 1 {
                            match b {
                                Some(x) => {
                                    let k = choose|k: int|
                                        0 <= k < n - 1 && #[trigger] root_holds(arts, d, k) && arts[k].application_id@ == x.1
                                            && root_len(arts, k) == x.0 && forall|j: int|
                                            0 <= j < n - 1 && #[trigger] root_holds(arts, d, j) ==> root_len(arts, j) <= x.0;
                                },
                                None => {},
                            }
                        }
                    }
                    assert(root_holds(arts, d, n - 1));
                } else {
                    assert(b == longest_owner(arts, d, n));
                    let x = b->0;
                    let k = choose|k: int|
                        0 <= k < n - 1 && #[trigger] root_holds(arts, d, k) && arts[k].application_id@ == x.1 && root_len(arts, k)
                            == x.0 && forall|j: int| 0 <= j < n - 1 && #[trigger] root_holds(arts, d, j) ==> root_len(arts, j) <= x.0;
                    assert(root_holds(arts, d, k));
                    assert forall|j: int| 0 <= j < n && #[trigger] root_holds(arts, d, j) implies root_len(arts, j) <= len by {
                        if j == n - 1 {
                            assert(!(match b {
                                Some(x) => x.0 <= root_len(arts, n - 1),
                                None => true,
                            }));
                        }
                    }
                }
            },
            None => {
                assert forall|j: int| 0 <= j < n implies !#[trigger] root_holds(arts, d, j) by {
                    if j == n - 1 && root_holds(arts, d, j) {
                        assert(longest_owner(arts, d, n) is Some);
                    }
                }
            },
        }
    }
}

} // verus!
