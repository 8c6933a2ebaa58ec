//! Relocation of an application compiled at logical base `/` to a deployed
//! ApplicationBase, and the proof that every relocated URL strips back to its
//! logical path.

use vstd::prelude::*;
use crate::application::{
    join_application_base, normalize_logical_path, join_result, logical_path_result, normalize_route_base,
    route_base_result, strip_application_base, strip_result, text_result,
};
use crate::text::{chars_eq, from_chars, push_all, push_str, to_chars};

verus! {

/// What an application diagnostic is about.
#[derive(Debug, Clone, Copy, PartialEq, Eq, Structural)]
pub enum ApplicationCode {
    /// A base or path that cannot be used.
    InvalidBase,
    /// A root-absolute URL literal in source that relocation cannot rewrite.
    NonRelocatableUrl,
    /// A mount names an ApplicationId no descriptor declares.
    UnknownReference,
    /// A mount's routeBase is not a valid route base.
    InvalidRouteBase,
    /// One ApplicationId is mounted more than once.
    DuplicateMount,
    /// Two mount bases overlap.
    MountCollision,
    /// A package's application descriptor is unreadable or incomplete.
    InvalidDescriptor,
    /// An application descriptor or the host config names the wrong schema.
    InvalidSchema,
    /// The host's applications config is unreadable or malformed.
    InvalidConfig,
    /// Two descriptors declare one ApplicationId.
    DuplicateId,
}

/// A byte span in a source file.
#[derive(Debug, Clone, Copy, PartialEq, Eq, Structural)]
pub struct SourceSpan {
    pub start: u32,
    pub end: u32,
}

/// One application diagnostic (always an error).
#[derive(Debug, Clone)]
pub struct ApplicationDiagnostic {
    pub code: ApplicationCode,
    pub path: String,
    pub message: String,
    pub span: Option<SourceSpan>,
}

/// A parsed ApplicationBase.
#[derive(Debug, Clone)]
pub struct ApplicationBase {
    pub base: String,
    pub application_id: Option<String>,
}

/// One logical URL of an application (relative to logical base `/`).
#[derive(Debug, Clone)]
pub struct LogicalUrlEntry {
    pub id: String,
    pub kind: String,
    pub logical_path: String,
}

/// The logical URLs of an application compiled at `/`.
#[derive(Debug, Clone)]
pub struct ApplicationRelocationManifest {
    pub application_id: String,
    pub logical_base: String,
    pub entries: Vec<LogicalUrlEntry>,
}

/// A logical URL and where it lands under a base.
#[derive(Debug, Clone)]
pub struct RelocatedUrlEntry {
    pub id: String,
    pub kind: String,
    pub logical_path: String,
    pub href: String,
}

/// The URLs of an application relocated under a base.
#[derive(Debug, Clone)]
pub struct RelocatedApplicationUrls {
    pub application_id: String,
    pub base: String,
    pub entries: Vec<RelocatedUrlEntry>,
}

/// Base used by relocation checks when the caller names none.
pub const DEFAULT_RELOCATE_PROOF_BASE: &'static str = "/__vmz_relocated__/app";

/// A diagnostic as plain values: (code, path, message, span).
pub open spec fn diag_view(d: ApplicationDiagnostic) -> (ApplicationCode, Seq<char>, Seq<char>, Option<SourceSpan>) {
    (d.code, d.path@, d.message@, d.span)
}

fn diag(code: ApplicationCode, path: &str, message: String) -> (d: ApplicationDiagnostic)
    ensures
        diag_view(d) == (code, path@, message@, None::<SourceSpan>),
{
    ApplicationDiagnostic { code, path: String::from_str(path), message, span: None }
}

/// Parse and normalise an ApplicationBase.
pub fn parse_application_base(raw: &str, application_id: Option<String>) -> (r: Result<ApplicationBase, ApplicationDiagnostic>)
    ensures
        match r {
            Ok(b) => route_base_result(raw@) == Ok::<Seq<char>, Seq<char>>(b.base@) && b.application_id == application_id,
            Err(d) => route_base_result(raw@) == Err::<Seq<char>, Seq<char>>(d.message@)
                && d.code == ApplicationCode::InvalidBase && d.path@ == "<application-base>"@ && d.span is None,
        },
{
    match normalize_route_base(raw) {
        Ok(base) => Ok(ApplicationBase { base, application_id }),
        Err(msg) => Err(diag(ApplicationCode::InvalidBase, "<application-base>", msg)),
    }
}

/// The message for a manifest whose logical base is not `/`.
pub open spec fn logical_base_message(logical_base: Seq<char>) -> Seq<char> {
    "relocation manifest logicalBase must be `/` (independent compile), got `"@ + logical_base + "`"@
}

/// The message for an entry that does not relocate.
pub open spec fn entry_message(id: Seq<char>, kind: Seq<char>, msg: Seq<char>) -> Seq<char> {
    "entry `"@ + id + "` ("@ + kind + "): "@ + msg
}

/// Index of the first entry whose join with `base` fails (or the entry count).
pub open spec fn first_failing_entry(base: Seq<char>, entries: Seq<LogicalUrlEntry>) -> int {
    if exists|i: int| 0 <= i < entries.len() && join_result(base, #[trigger] entries[i].logical_path@) is Err {
        choose|i: int|
            0 <= i < entries.len() && join_result(base, #[trigger] entries[i].logical_path@) is Err && forall|k: int|
                0 <= k < i ==> join_result(base, (#[trigger] entries[k]).logical_path@) is Ok
    } else {
        entries.len() as int
    }
}

/// `urls` is `manifest` relocated under the normalised base `base`.
pub open spec fn relocation_of(manifest: ApplicationRelocationManifest, base: Seq<char>, urls: RelocatedApplicationUrls) -> bool {
    &&& manifest.logical_base@ == seq!['/']
    &&& urls.application_id@ == manifest.application_id@
    &&& urls.base@ == base
    &&& urls.entries.len() == manifest.entries.len()
    &&& forall|i: int| 0 <= i < urls.entries.len() ==> {
        let e = #[trigger] urls.entries@[i];
        let m = manifest.entries@[i];
        &&& e.id@ == m.id@
        &&& e.kind@ == m.kind@
        &&& e.logical_path@ == m.logical_path@
        &&& join_result(base, m.logical_path@) == Ok::<Seq<char>, Seq<char>>(e.href@)
    }
}

/// Relocate a manifest under a base given as text: the base is normalised
/// first, and a failure of either step gives its message.
pub fn relocate_with_base(manifest: &ApplicationRelocationManifest, base: &str) -> (r: Result<RelocatedApplicationUrls, String>)
    ensures
        match route_base_result(base@) {
            Err(m) => r is Err && r->Err_0@ == m,
            Ok(b) => match r {
                Ok(urls) => relocation_of(*manifest, b, urls),
                Err(e) => {
                    &&& manifest.logical_base@ != seq!['/'] ==> e@ == logical_base_message(manifest.logical_base@)
                    &&& manifest.logical_base@ == seq!['/'] ==> {
                        let i = first_failing_entry(b, manifest.entries@);
                        let x = manifest.entries@[i];
                        &&& 0 <= i < manifest.entries.len()
                        &&& join_result(b, x.logical_path@) is Err
                        &&& e@ == entry_message(x.id@, x.kind@, join_result(b, x.logical_path@)->Err_0)
                    }
                },
            },
        },
{
    match parse_application_base(base, Some(manifest.application_id.clone())) {
        Err(d) => Err(d.message),
        Ok(b) => match relocate_manifest(manifest, &b) {
            Ok(urls) => Ok(urls),
            Err(d) => Err(d.message),
        },
    }
}

/// Apply an ApplicationBase to every logical entry.
pub fn relocate_manifest(manifest: &ApplicationRelocationManifest, base: &ApplicationBase) -> (r: Result<RelocatedApplicationUrls, ApplicationDiagnostic>)
    ensures
        match r {
            Ok(urls) => relocation_of(*manifest, base.base@, urls),
            Err(d) => d.code == ApplicationCode::InvalidBase && d.path@ == "<relocation-manifest>"@ && d.span is None,
        },
        r is Err && manifest.logical_base@ != seq!['/'] ==> r->Err_0.message@ == logical_base_message(
            manifest.logical_base@,
        ),
        r is Err && manifest.logical_base@ == seq!['/'] ==> {
            let i = first_failing_entry(base.base@, manifest.entries@);
            let e = manifest.entries@[i];
            &&& 0 <= i < manifest.entries.len()
            &&& join_result(base.base@, e.logical_path@) is Err
            &&& r->Err_0.message@ == entry_message(e.id@, e.kind@, join_result(base.base@, e.logical_path@)->Err_0)
        },
{
    let lb = to_chars(manifest.logical_base.as_str());
    let root_ok = lb.len() == 1 && lb[0] == '/';
    proof {
        if root_ok {
            assert(lb@ =~= seq!['/']);
        }
    }
    if !root_ok {
        let mut m = to_chars("relocation manifest logicalBase must be `/` (independent compile), got `");
        push_all(&mut m, lb.as_slice());
        push_str(&mut m, "`");
        return Err(diag(ApplicationCode::InvalidBase, "<relocation-manifest>", from_chars(m.as_slice())));
    }
    let mut entries: Vec<RelocatedUrlEntry> = Vec::new();
    let mut i: usize = 0;
    while i < manifest.entries.len()
        invariant
            i <= manifest.entries.len(),
            manifest.logical_base@ == seq!['/'],
            entries.len() == i,
            forall|k: int| 0 <= k < i ==> join_result(base.base@, (#[trigger] manifest.entries@[k]).logical_path@) is Ok,
            forall|k: int| 0 <= k < i ==> {
                let e = #[trigger] entries@[k];
                let m = manifest.entries@[k];
                &&& e.id@ == m.id@
                &&& e.kind@ == m.kind@
                &&& e.logical_path@ == m.logical_path@
                &&& join_result(base.base@, m.logical_path@) == Ok::<Seq<char>, Seq<char>>(e.href@)
            },
        decreases manifest.entries.len() - i,
    {
        let e = &manifest.entries[i];
        match join_application_base(base.base.as_str(), e.logical_path.as_str()) {
            Ok(href) => {
                entries.push(RelocatedUrlEntry {
                    id: e.id.clone(),
                    kind: e.kind.clone(),
                    logical_path: e.logical_path.clone(),
                    href,
                });
            },
            Err(msg) => {
                let mut m = to_chars("entry `");
                push_str(&mut m, e.id.as_str());
                push_str(&mut m, "` (");
                push_str(&mut m, e.kind.as_str());
                push_str(&mut m, "): ");
                push_str(&mut m, msg.as_str());
                proof {
                    let es = manifest.entries@;
                    assert(join_result(base.base@, es[i as int].logical_path@) is Err);
                    assert(exists|j: int| 0 <= j < es.len() && join_result(base.base@, #[trigger] es[j].logical_path@) is Err);
                    assert(exists|j: int|
                        0 <= j < es.len() && join_result(base.base@, #[trigger] es[j].logical_path@) is Err && forall|k: int|
                            0 <= k < j ==> join_result(base.base@, (#[trigger] es[k]).logical_path@) is Ok) by {
                        assert(0 <= i < es.len() && join_result(base.base@, es[i as int].logical_path@) is Err && forall|k: int|
                            0 <= k < i ==> join_result(base.base@, (#[trigger] es[k]).logical_path@) is Ok);
                    }
                    let c = first_failing_entry(base.base@, es);
                    if c < i {
                        assert(join_result(base.base@, es[c].logical_path@) is Ok);
                    } else if c > i {
                        assert(join_result(base.base@, es[i as int].logical_path@) is Ok);
                    }
                    assert(m@ =~= entry_message(es[i as int].id@, es[i as int].kind@, msg@));
                }
                return Err(diag(ApplicationCode::InvalidBase, "<relocation-manifest>", from_chars(m.as_slice())));
            },
        }
        i = i + 1;
    }
    Ok(RelocatedApplicationUrls {
        application_id: manifest.application_id.clone(),
        base: base.base.clone(),
        entries,
    })
}


/// The diagnostic message for one relocated entry whose href does not strip
/// back to its logical path (`None` when it does).
pub open spec fn roundtrip_message(base: Seq<char>, e: RelocatedUrlEntry) -> Option<Seq<char>> {
    match strip_result(base, e.href@) {
        Ok(Some(l)) => if l == e.logical_path@ {
            None
        } else {
            Some(
                "strip(base=`"@ + base + "`, href=`"@ + e.href@ + "`) → `"@ + l + "` but logicalPath is `"@
                    + e.logical_path@ + "`"@,
            )
        },
        Ok(None) => Some("strip(base=`"@ + base + "`, href=`"@ + e.href@ + "`) missed entry `"@ + e.id@ + "`"@),
        Err(msg) => Some(msg),
    }
}

/// The messages for every entry that fails to round-trip, in order.
pub open spec fn roundtrip_messages(base: Seq<char>, entries: Seq<RelocatedUrlEntry>) -> Seq<Seq<char>>
    decreases entries.len(),
{
    if entries.len() == 0 {
        Seq::empty()
    } else {
        let rest = roundtrip_messages(base, entries.drop_last());
        match roundtrip_message(base, entries.last()) {
            Some(m) => rest.push(m),
            None => rest,
        }
    }
}

/// `diags` extends `old` with one relocation-proof error per message.
pub open spec fn appended_proof_errors(
    old: Seq<ApplicationDiagnostic>,
    diags: Seq<ApplicationDiagnostic>,
    msgs: Seq<Seq<char>>,
) -> bool {
    &&& diags.len() == old.len() + msgs.len()
    &&& forall|k: int| 0 <= k < old.len() ==> #[trigger] diags[k] == old[k]
    &&& forall|k: int|
        0 <= k < msgs.len() ==> #[trigger] diag_view(diags[old.len() + k]) == (
            ApplicationCode::InvalidBase,
            "<relocation-proof>"@,
            msgs[k],
            None::<SourceSpan>,
        )
}

/// Check that every relocated href strips back to its logical path; one
/// error per entry that does not.
pub fn verify_roundtrip(relocated: &RelocatedApplicationUrls, base: &str, diagnostics: &mut Vec<ApplicationDiagnostic>)
    ensures
        appended_proof_errors(old(diagnostics)@, final(diagnostics)@, roundtrip_messages(base@, relocated.entries@)),
{
    let ghost es = relocated.entries@;
    let mut i: usize = 0;
    proof {
        assert(es.take(0) =~= Seq::<RelocatedUrlEntry>::empty());
    }
    while i < relocated.entries.len()
        invariant
            i <= relocated.entries.len(),
            es == relocated.entries@,
            appended_proof_errors(old(diagnostics)@, diagnostics@, roundtrip_messages(base@, es.take(i as int))),
        decreases relocated.entries.len() - i,
    {
        let e = &relocated.entries[i];
        let ghost before = diagnostics@;
        proof {
            assert(es.take(i + 1).drop_last() =~= es.take(i as int));
            assert(es.take(i + 1).last() == *e);
        }
        match strip_application_base(base, e.href.as_str()) {
            Ok(Some(logical)) => {
                let a = to_chars(logical.as_str());
                let b = to_chars(e.logical_path.as_str());
                if !chars_eq(a.as_slice(), b.as_slice()) {
                    let mut m = to_chars("strip(base=`");
                    push_str(&mut m, base);
                    push_str(&mut m, "`, href=`");
                    push_str(&mut m, e.href.as_str());
                    push_str(&mut m, "`) → `");
                    push_all(&mut m, a.as_slice());
                    push_str(&mut m, "` but logicalPath is `");
                    push_all(&mut m, b.as_slice());
                    push_str(&mut m, "`");
                    diagnostics.push(diag(ApplicationCode::InvalidBase, "<relocation-proof>", from_chars(m.as_slice())));
                }
            },
            Ok(None) => {
                let mut m = to_chars("strip(base=`");
                push_str(&mut m, base);
                push_str(&mut m, "`, href=`");
                push_str(&mut m, e.href.as_str());
                push_str(&mut m, "`) missed entry `");
                push_str(&mut m, e.id.as_str());
                push_str(&mut m, "`");
                diagnostics.push(diag(ApplicationCode::InvalidBase, "<relocation-proof>", from_chars(m.as_slice())));
            },
            Err(msg) => {
                diagnostics.push(diag(ApplicationCode::InvalidBase, "<relocation-proof>", msg));
            },
        }
        proof {
            let msgs = roundtrip_messages(base@, es.take(i + 1));
            let prev = roundtrip_messages(base@, es.take(i as int));
            assert forall|k: int| 0 <= k < msgs.len() implies #[trigger] diag_view(diagnostics@[old(diagnostics)@.len() + k]) == (
                ApplicationCode::InvalidBase,
                "<relocation-proof>"@,
                msgs[k],
                None::<SourceSpan>,
            ) by {
                if k < prev.len() {
                    assert(diagnostics@[old(diagnostics)@.len() + k] == before[old(diagnostics)@.len() + k]);
                }
            }
        }
        i = i + 1;
    }
    proof {
        assert(es.take(relocated.entries.len() as int) =~= es);
    }
}

/// Relocation proof: when every logical path is already normalised, a
/// relocated manifest round-trips with no diagnostic.
pub proof fn lemma_relocation_roundtrips(manifest: ApplicationRelocationManifest, base: Seq<char>, urls: RelocatedApplicationUrls)
    requires
        relocation_of(manifest, base, urls),
        forall|i: int| 0 <= i < manifest.entries.len() ==> crate::application::clean_path(
            (#[trigger] manifest.entries@[i]).logical_path@,
        ),
    ensures
        roundtrip_messages(base, urls.entries@) == Seq::<Seq<char>>::empty(),
{
    lemma_roundtrip_prefix(manifest, base, urls, urls.entries.len() as int);
    assert(urls.entries@.take(urls.entries.len() as int) =~= urls.entries@);
}

proof fn lemma_roundtrip_prefix(manifest: ApplicationRelocationManifest, base: Seq<char>, urls: RelocatedApplicationUrls, n: int)
    requires
        0 <= n <= urls.entries.len(),
        relocation_of(manifest, base, urls),
        forall|i: int| 0 <= i < manifest.entries.len() ==> crate::application::clean_path(
            (#[trigger] manifest.entries@[i]).logical_path@,
        ),
    ensures
        roundtrip_messages(base, urls.entries@.take(n)) == Seq::<Seq<char>>::empty(),
    decreases n,
{
    if n > 0 {
        lemma_roundtrip_prefix(manifest, base, urls, n - 1);
        let es = urls.entries@;
        assert(es.take(n).drop_last() =~= es.take(n - 1));
        let e = es[n - 1];
        let m = manifest.entries@[n - 1];
        assert(join_result(base, m.logical_path@) == Ok::<Seq<char>, Seq<char>>(e.href@));
        crate::application::lemma_strip_join_roundtrip(base, m.logical_path@);
        crate::application::lemma_clean_fixed(m.logical_path@);
        assert(roundtrip_message(base, es.take(n).last()) is None);
    } else {
        assert(urls.entries@.take(0) =~= Seq::<RelocatedUrlEntry>::empty());
    }
}

/// The prefix-check message for an entry left at its logical path.
pub open spec fn unprefixed_message(base: Seq<char>, e: RelocatedUrlEntry) -> Seq<char> {
    "non-root base `"@ + base + "` left entry `"@ + e.id@ + "` unprefixed (`"@ + e.href@ + "`)"@
}

/// The prefix-check message for an href outside the base.
pub open spec fn outside_message(base: Seq<char>, e: RelocatedUrlEntry) -> Seq<char> {
    "relocated href `"@ + e.href@ + "` for `"@ + e.id@ + "` does not start with base `"@ + base + "`"@
}

/// The prefix-check messages of one entry.
pub open spec fn prefix_messages_of(base: Seq<char>, e: RelocatedUrlEntry) -> Seq<Seq<char>> {
    (if e.logical_path@ != seq!['/'] && e.href@ == e.logical_path@ {
        seq![unprefixed_message(base, e)]
    } else {
        Seq::empty()
    }) + (if !crate::text::has_prefix(e.href@, base) {
        seq![outside_message(base, e)]
    } else {
        Seq::empty()
    })
}

/// The prefix-check messages of all entries under a non-root base.
pub open spec fn prefix_messages(base: Seq<char>, entries: Seq<RelocatedUrlEntry>) -> Seq<Seq<char>>
    decreases entries.len(),
{
    if base == seq!['/'] || entries.len() == 0 {
        Seq::empty()
    } else {
        prefix_messages(base, entries.drop_last()) + prefix_messages_of(base, entries.last())
    }
}

fn push_proof_error(diagnostics: &mut Vec<ApplicationDiagnostic>, m: &Vec<char>)
    ensures
        final(diagnostics)@.len() == old(diagnostics)@.len() + 1,
        forall|k: int| 0 <= k < old(diagnostics)@.len() ==> #[trigger] final(diagnostics)@[k] == old(diagnostics)@[k],
        diag_view(final(diagnostics)@[old(diagnostics)@.len() as int]) == (ApplicationCode::InvalidBase, "<relocation-proof>"@, m@, None::<SourceSpan>),
{
    diagnostics.push(diag(ApplicationCode::InvalidBase, "<relocation-proof>", from_chars(m.as_slice())));
}

/// Under a non-root base, every relocated href must differ from its logical
/// path (unless that is `/`) and start with the base.
pub fn verify_not_equal_to_logical_when_prefixed(
    relocated: &RelocatedApplicationUrls,
    base: &str,
    diagnostics: &mut Vec<ApplicationDiagnostic>,
)
    ensures
        appended_proof_errors(old(diagnostics)@, final(diagnostics)@, prefix_messages(base@, relocated.entries@)),
{
    let bv = to_chars(base);
    let es = &relocated.entries;
    if bv.len() == 1 && bv[0] == '/' {
        proof {
            assert(bv@ =~= seq!['/']);
            assert(final(diagnostics)@ =~= old(diagnostics)@);
        }
        return;
    }
    let mut i: usize = 0;
    proof {
        assert(es@.take(0) =~= Seq::<RelocatedUrlEntry>::empty());
    }
    while i < es.len()
        invariant
            i <= es.len(),
            bv@ == base@,
            base@ != seq!['/'],
            appended_proof_errors(old(diagnostics)@, diagnostics@, prefix_messages(base@, es@.take(i as int))),
        decreases es.len() - i,
    {
        let e = &es[i];
        let ghost before = diagnostics@;
        let ghost prev = prefix_messages(base@, es@.take(i as int));
        proof {
            assert(es@.take(i + 1).drop_last() =~= es@.take(i as int));
            assert(es@.take(i + 1).last() == *e);
        }
        let lp = to_chars(e.logical_path.as_str());
        let href = to_chars(e.href.as_str());
        let root = lp.len() == 1 && lp[0] == '/';
        proof {
            if root {
                assert(lp@ =~= seq!['/']);
            }
        }
        let first = !root && chars_eq(href.as_slice(), lp.as_slice());
        if first {
            let mut m = to_chars("non-root base `");
            push_all(&mut m, bv.as_slice());
            push_str(&mut m, "` left entry `");
            push_str(&mut m, e.id.as_str());
            push_str(&mut m, "` unprefixed (`");
            push_all(&mut m, href.as_slice());
            push_str(&mut m, "`)");
            proof {
                assert(m@ =~= unprefixed_message(base@, *e));
            }
            push_proof_error(diagnostics, &m);
        }
        let ghost mid = diagnostics@;
        let inside = crate::text::starts_with(href.as_slice(), bv.as_slice());
        if !inside {
            let mut m = to_chars("relocated href `");
            push_all(&mut m, href.as_slice());
            push_str(&mut m, "` for `");
            push_str(&mut m, e.id.as_str());
            push_str(&mut m, "` does not start with base `");
            push_all(&mut m, bv.as_slice());
            push_str(&mut m, "`");
            proof {
                assert(m@ =~= outside_message(base@, *e));
            }
            push_proof_error(diagnostics, &m);
        }
        proof {
            let msgs = prefix_messages(base@, es@.take(i + 1));
            let own = prefix_messages_of(base@, *e);
            assert(msgs =~= prev + own);
            let o = old(diagnostics)@.len();
            assert forall|k: int| 0 <= k < o implies #[trigger] diagnostics@[k] == old(diagnostics)@[k] by {
                assert(diagnostics@[k] == mid[k]);
                assert(mid[k] == before[k]);
            }
            assert forall|k: int| 0 <= k < msgs.len() implies #[trigger] diag_view(diagnostics@[o + k]) == (
                ApplicationCode::InvalidBase,
                "<relocation-proof>"@,
                msgs[k],
                None::<SourceSpan>,
            ) by {
                if k < prev.len() {
                    assert(diagnostics@[o + k] == mid[o + k]);
                    assert(mid[o + k] == before[o + k]);
                } else if first && k == prev.len() {
                    assert(diagnostics@[o + k] == mid[o + k]);
                }
            }
        }
        i = i + 1;
    }
    proof {
        assert(es@.take(es.len() as int) =~= es@);
    }
}

/// (kind, id suffix, logical path) of each sample entry, covering every
/// relocation surface.
pub open spec fn sample_rows() -> Seq<(Seq<char>, Seq<char>, Seq<char>)> {
    seq![
        ("route"@, ".home"@, "/"@),
        ("route"@, ".settings"@, "/settings"@),
        ("asset"@, ".logo"@, "/assets/logo.png"@),
        ("module"@, ".entry"@, "/_vmz/entry.js"@),
        ("preload"@, ".preload"@, "/_vmz/preload.js"@),
        ("form"@, ".save"@, "/_vmz/actions/save"@),
        ("redirect"@, ".legacy"@, "/legacy"@),
        ("canonical"@, ".canonical"@, "/"@),
        ("sitemap"@, ".sitemap"@, "/sitemap.xml"@),
        ("server"@, ".api"@, "/_vmz/server/api"@),
        ("ssr"@, ".ssr"@, "/_vmz/ssr"@),
        ("resume"@, ".resume"@, "/_vmz/resume.js"@),
        ("sw"@, ".sw"@, "/"@),
        ("sourcemap"@, ".map"@, "/_vmz/entry.js.map"@),
        ("trace"@, ".trace"@, "/_vmz/trace"@),
        ("error"@, ".error"@, "/_vmz/error"@)
    ]
}

/// An entry as plain values: (id, kind, logical path).
pub open spec fn entry_view(e: LogicalUrlEntry) -> (Seq<char>, Seq<char>, Seq<char>) {
    (e.id@, e.kind@, e.logical_path@)
}

/// The sample entries of application `app`.
pub open spec fn sample_entries(app: Seq<char>) -> Seq<(Seq<char>, Seq<char>, Seq<char>)> {
    sample_rows().map_values(|r: (Seq<char>, Seq<char>, Seq<char>)| (app + r.1, r.0, r.2))
}

fn push_sample(entries: &mut Vec<LogicalUrlEntry>, kind: &str, app: &str, suffix: &str, path: &str)
    ensures
        final(entries)@.map_values(|e: LogicalUrlEntry| entry_view(e)) == old(entries)@.map_values(
            |e: LogicalUrlEntry| entry_view(e),
        ).push((app@ + suffix@, kind@, path@)),
{
    let mut id = to_chars(app);
    push_str(&mut id, suffix);
    entries.push(LogicalUrlEntry {
        id: from_chars(id.as_slice()),
        kind: String::from_str(kind),
        logical_path: String::from_str(path),
    });
    proof {
        assert(final(entries)@.map_values(|e: LogicalUrlEntry| entry_view(e)) =~= old(entries)@.map_values(
            |e: LogicalUrlEntry| entry_view(e),
        ).push((app@ + suffix@, kind@, path@)));
    }
}

/// A logical URL manifest covering every relocation surface of one
/// application, at logical base `/`.
pub fn sample_relocation_manifest(application_id: &str) -> (m: ApplicationRelocationManifest)
    ensures
        m.application_id@ == application_id@,
        m.logical_base@ == seq!['/'],
        m.entries@.map_values(|e: LogicalUrlEntry| entry_view(e)) == sample_entries(application_id@),
{
    let mut entries: Vec<LogicalUrlEntry> = Vec::new();
    push_sample(&mut entries, "route", application_id, ".home", "/");
    push_sample(&mut entries, "route", application_id, ".settings", "/settings");
    push_sample(&mut entries, "asset", application_id, ".logo", "/assets/logo.png");
    push_sample(&mut entries, "module", application_id, ".entry", "/_vmz/entry.js");
    push_sample(&mut entries, "preload", application_id, ".preload", "/_vmz/preload.js");
    push_sample(&mut entries, "form", application_id, ".save", "/_vmz/actions/save");
    push_sample(&mut entries, "redirect", application_id, ".legacy", "/legacy");
    push_sample(&mut entries, "canonical", application_id, ".canonical", "/");
    push_sample(&mut entries, "sitemap", application_id, ".sitemap", "/sitemap.xml");
    push_sample(&mut entries, "server", application_id, ".api", "/_vmz/server/api");
    push_sample(&mut entries, "ssr", application_id, ".ssr", "/_vmz/ssr");
    push_sample(&mut entries, "resume", application_id, ".resume", "/_vmz/resume.js");
    push_sample(&mut entries, "sw", application_id, ".sw", "/");
    push_sample(&mut entries, "sourcemap", application_id, ".map", "/_vmz/entry.js.map");
    push_sample(&mut entries, "trace", application_id, ".trace", "/_vmz/trace");
    push_sample(&mut entries, "error", application_id, ".error", "/_vmz/error");
    let mut root: Vec<char> = Vec::new();
    root.push('/');
    proof {
        assert(root@ =~= seq!['/']);
        assert(entries@.map_values(|e: LogicalUrlEntry| entry_view(e)) =~= sample_entries(application_id@));
    }
    ApplicationRelocationManifest {
        application_id: String::from_str(application_id),
        logical_base: from_chars(root.as_slice()),
        entries,
    }
}

/// A character allowed in an in-app absolute path.
pub open spec fn url_path_char(c: char) -> bool {
    crate::text::is_ascii_alnum(c) || c == '/' || c == '.' || c == '_' || c == '-' || c == '~' || c == '%'
}

/// A string literal that is a bare root-absolute in-app URL: `/`, or `/`
/// followed by a non-`/` and then only path characters.
pub open spec fn non_relocatable_candidate(lit: Seq<char>) -> bool {
    &&& lit.len() > 0
    &&& lit[0] == '/'
    &&& (lit.len() == 1 || (lit[1] != '/' && forall|i: int| 1 <= i < lit.len() ==> url_path_char(#[trigger] lit[i])))
}

/// Whether a string literal is a root-absolute URL that relocation cannot rewrite.
pub fn is_non_relocatable_candidate(lit: &[char]) -> (r: bool)
    ensures
        r == non_relocatable_candidate(lit@),
{
    if lit.len() == 0 || lit[0] != '/' || (lit.len() > 1 && lit[1] == '/') {
        return false;
    }
    let mut sep: Vec<char> = Vec::new();
    sep.push(':');
    sep.push('/');
    sep.push('/');
    if crate::text::contains(lit, sep.as_slice()) {
        proof {
            let i = choose|i: int| crate::text::occurs_at(lit@, sep@, i);
            assert(lit@.subrange(i, i + 3)[0] == ':');
            assert(lit@[i] == ':');
            assert(!url_path_char(lit@[i]));
        }
        return false;
    }
    if lit.len() == 1 {
        return true;
    }
    if crate::text::has_char(lit, ' ') || crate::text::has_char(lit, '\n') {
        proof {
            if lit@.contains(' ') {
                let i = choose|i: int| 0 <= i < lit@.len() && lit@[i] == ' ';
                assert(!url_path_char(lit@[i]));
            } else {
                let i = choose|i: int| 0 <= i < lit@.len() && lit@[i] == '\n';
                assert(!url_path_char(lit@[i]));
            }
        }
        return false;
    }
    let mut i: usize = 1;
    while i < lit.len()
        invariant
            1 <= i <= lit.len(),
            forall|k: int| 1 <= k < i ==> url_path_char(#[trigger] lit@[k]),
        decreases lit.len() - i,
    {
        let c = lit[i];
        let ok = ('a' <= c && c <= 'z') || ('A' <= c && c <= 'Z') || ('0' <= c && c <= '9') || c == '/' || c == '.'
            || c == '_' || c == '-' || c == '~' || c == '%';
        if !ok {
            return false;
        }
        i = i + 1;
    }
    true
}

/// The bytes of `@vmz-external`.
pub open spec fn external_marker() -> Seq<u8> {
    seq![64u8, 118u8, 109u8, 122u8, 45u8, 101u8, 120u8, 116u8, 101u8, 114u8, 110u8, 97u8, 108u8]
}

fn external_marker_exec() -> (m: Vec<u8>)
    ensures
        m@ == external_marker(),
{
    let mut m: Vec<u8> = Vec::new();
    m.push(64u8);
    m.push(118u8);
    m.push(109u8);
    m.push(122u8);
    m.push(45u8);
    m.push(101u8);
    m.push(120u8);
    m.push(116u8);
    m.push(101u8);
    m.push(114u8);
    m.push(110u8);
    m.push(97u8);
    m.push(108u8);
    proof {
        assert(m@ =~= external_marker());
    }
    m
}

/// Start of the line holding byte `k`: just after the last newline before `k`.
pub open spec fn line_start(s: Seq<u8>, k: int) -> int {
    if exists|j: int| 0 <= j < k && s[j] == 10 {
        (choose|j: int| 0 <= j < k && s[j] == 10 && forall|m: int| j < m < k ==> s[m] != 10) + 1
    } else {
        0
    }
}

/// The literal at byte `k` is marked external: `@vmz-external` appears
/// earlier on its line.
pub open spec fn marked_external(s: Seq<u8>, k: int) -> bool {
    crate::bytes::bytes_contain(s.subrange(line_start(s, k), k), external_marker())
}

/// Whether the literal starting at byte `lit_start` is marked `@vmz-external`.
pub fn is_marked_external(source: &[u8], lit_start: usize) -> (r: bool)
    requires
        lit_start <= source.len(),
    ensures
        r == marked_external(source@, lit_start as int),
{
    let marker = external_marker_exec();
    let ls = match crate::bytes::rfind_byte(source, 10u8, lit_start) {
        Some(j) => j + 1,
        None => 0,
    };
    proof {
        if exists|j: int| 0 <= j < lit_start && source@[j] == 10 {
            let c = choose|j: int| 0 <= j < lit_start && source@[j] == 10 && forall|m: int| j < m < lit_start ==> source@[m] != 10;
            assert(c + 1 == ls);
        }
        assert(ls == line_start(source@, lit_start as int));
    }
    let prefix = crate::bytes::byte_slice(source, ls, lit_start);
    if crate::bytes::bytes_contain_exec(prefix.as_slice(), marker.as_slice()) {
        return true;
    }
    // The line before: everything after the last newline of `source[..ls]`.
    let prev_nl = crate::bytes::rfind_byte(source, 10u8, ls);
    let prev = match prev_nl {
        Some(p) => crate::bytes::byte_slice(source, p + 1, ls),
        None => crate::bytes::byte_slice(source, 0, ls),
    };
    proof {
        // `source[ls - 1]` is that newline itself, so the slice is empty.
        assert(prev@.len() == 0);
        if crate::bytes::bytes_contain(prev@, marker@) {
            let i = choose|i: int| crate::bytes::bytes_at(prev@, marker@, i);
        }
    }
    crate::bytes::bytes_contain_exec(prev.as_slice(), marker.as_slice())
}

/// A string-literal opener: `'`, `"` or a backquote.
pub open spec fn is_quote(b: u8) -> bool {
    b == 39 || b == 34 || b == 96
}

/// Reads a literal body opened by `q`, from byte `i` on: escapes take the
/// next byte verbatim; it stops at the closing quote, at the end of the text,
/// or (for a backquote) at `${`, where the body is dropped. Returns the body
/// (each byte as one character) and the stop index.
pub open spec fn lit_scan(b: Seq<u8>, q: u8, i: int, escaped: bool, acc: Seq<char>) -> (Seq<char>, int)
    decreases b.len() - i,
{
    if i >= b.len() || i < 0 {
        (acc, i)
    } else if escaped {
        lit_scan(b, q, i + 1, false, acc.push(b[i] as char))
    } else if b[i] == 92 {
        lit_scan(b, q, i + 1, true, acc)
    } else if b[i] == q {
        (acc, i)
    } else if q == 96 && b[i] == 36 && i + 1 < b.len() && b[i + 1] == 123 {
        (Seq::empty(), i)
    } else {
        lit_scan(b, q, i + 1, false, acc.push(b[i] as char))
    }
}

/// The bare root-absolute literals found from byte `i` on, not marked
/// external: (literal, start byte, end byte).
pub open spec fn scan_from(b: Seq<u8>, i: int) -> Seq<(Seq<char>, int, int)>
    decreases b.len() - i,
{
    if i >= b.len() || i < 0 {
        Seq::empty()
    } else if is_quote(b[i]) {
        let (lit, j) = lit_scan(b, b[i], i + 1, false, Seq::empty());
        let end = if j + 1 < b.len() {
            j + 1
        } else {
            b.len() as int
        };
        if end <= i {
            Seq::empty()
        } else {
            let here = if lit.len() > 0 && non_relocatable_candidate(lit) && !marked_external(b, i) {
                seq![(lit, i, end)]
            } else {
                Seq::empty()
            };
            here + scan_from(b, end)
        }
    } else {
        scan_from(b, i + 1)
    }
}

/// The message for a non-relocatable literal.
pub open spec fn non_relocatable_message(lit: Seq<char>) -> Seq<char> {
    "root-absolute URL `"@ + lit
        + "` is not relocatable; use RouteId/AssetId/Server Capability ID, or mark with `@vmz-external` / use a URI scheme"@
}

proof fn lemma_lit_scan_bounds(b: Seq<u8>, q: u8, i: int, escaped: bool, acc: Seq<char>)
    requires
        0 <= i,
    ensures
        lit_scan(b, q, i, escaped, acc).1 >= i,
    decreases b.len() - i,
{
    if i < b.len() {
        if escaped || b[i] == 92 || !(b[i] == q || (q == 96 && b[i] == 36 && i + 1 < b.len() && b[i + 1] == 123)) {
            if escaped {
                lemma_lit_scan_bounds(b, q, i + 1, false, acc.push(b[i] as char));
            } else if b[i] == 92 {
                lemma_lit_scan_bounds(b, q, i + 1, true, acc);
            } else {
                lemma_lit_scan_bounds(b, q, i + 1, false, acc.push(b[i] as char));
            }
        }
    }
}

/// Report every bare root-absolute URL literal of a source file that is not
/// marked `@vmz-external`.
pub fn scan_source_text(path: &str, text: &str, diagnostics: &mut Vec<ApplicationDiagnostic>)
    ensures
        ({
            let found = scan_from(vstd::utf8::encode_utf8(text@), 0);
            &&& final(diagnostics)@.len() == old(diagnostics)@.len() + found.len()
            &&& forall|k: int| 0 <= k < old(diagnostics)@.len() ==> #[trigger] final(diagnostics)@[k] == old(diagnostics)@[k]
            &&& forall|k: int| 0 <= k < found.len() ==> {
                let d = #[trigger] final(diagnostics)@[old(diagnostics)@.len() + k];
                &&& d.code == ApplicationCode::NonRelocatableUrl
                &&& d.path@ == path@
                &&& d.message@ == non_relocatable_message(found[k].0)
                &&& d.span == Some(SourceSpan { start: found[k].1 as u32, end: found[k].2 as u32 })
            }
        }),
{
    let bytes = text.as_bytes();
    let ghost b = bytes@;
    let ghost o = diagnostics@.len();
    let ghost mut found: Seq<(Seq<char>, int, int)> = Seq::empty();
    let mut i: usize = 0;
    proof {
        assert(b == vstd::utf8::encode_utf8(text@));
        assert(scan_from(b, 0) =~= found + scan_from(b, 0));
    }
    while i < bytes.len()
        invariant
            b == bytes@,
            i <= bytes.len(),
            o == old(diagnostics)@.len(),
            scan_from(b, 0) == found + scan_from(b, i as int),
            diagnostics@.len() == o + found.len(),
            forall|k: int| 0 <= k < o ==> #[trigger] diagnostics@[k] == old(diagnostics)@[k],
            forall|k: int| 0 <= k < found.len() ==> {
                let d = #[trigger] diagnostics@[o + k];
                let f = found[k];
                &&& d.code == ApplicationCode::NonRelocatableUrl
                &&& d.path@ == path@
                &&& d.message@ == non_relocatable_message(f.0)
                &&& d.span == Some(SourceSpan { start: f.1 as u32, end: f.2 as u32 })
            },
        decreases bytes.len() - i,
    {
        let c = bytes[i];
        if c == 39 || c == 34 || c == 96 {
            let quote = c;
            let start = i;
            i = i + 1;
            let mut lit: Vec<char> = Vec::new();
            let mut escaped = false;
            while i < bytes.len()
                invariant
                    b == bytes@,
                    start < i <= bytes.len(),
                    quote == b[start as int],
                    lit_scan(b, quote, start + 1, false, Seq::empty()) == lit_scan(b, quote, i as int, escaped, lit@),
                ensures
                    start < i <= bytes.len(),
                    lit_scan(b, quote, start + 1, false, Seq::empty()) == (lit@, i as int),
                decreases bytes.len() - i,
            {
                let ch = bytes[i];
                if escaped {
                    lit.push(ch as char);
                    escaped = false;
                    i = i + 1;
                    continue;
                }
                if ch == 92 {
                    escaped = true;
                    i = i + 1;
                    continue;
                }
                if ch == quote {
                    break;
                }
                if quote == 96 && ch == 36 && bytes.len() - i > 1 && bytes[i + 1] == 123 {
                    lit = Vec::new();
                    break;
                }
                lit.push(ch as char);
                i = i + 1;
            }
            let end = if bytes.len() - i > 1 {
                i + 1
            } else {
                bytes.len()
            };
            proof {
                let (l2, j2) = lit_scan(b, quote, start + 1, false, Seq::empty());
                assert(l2 == lit@ && j2 == i);
                assert(scan_from(b, start as int) == (if lit@.len() > 0 && non_relocatable_candidate(lit@) && !marked_external(b, start as int) {
                    seq![(lit@, start as int, end as int)]
                } else {
                    Seq::empty()
                }) + scan_from(b, end as int));
            }
            let mut report = false;
            if lit.len() > 0 && is_non_relocatable_candidate(lit.as_slice()) {
                report = !is_marked_external(bytes, start);
            }
            if report {
                let mut m = to_chars("root-absolute URL `");
                push_all(&mut m, lit.as_slice());
                push_str(&mut m, "` is not relocatable; use RouteId/AssetId/Server Capability ID, or mark with `@vmz-external` / use a URI scheme");
                let ghost before = diagnostics@;
                diagnostics.push(ApplicationDiagnostic {
                    code: ApplicationCode::NonRelocatableUrl,
                    path: String::from_str(path),
                    message: from_chars(m.as_slice()),
                    span: Some(SourceSpan { start: start as u32, end: end as u32 }),
                });
                proof {
                    let item = (lit@, start as int, end as int);
                    assert(scan_from(b, 0) =~= found.push(item) + scan_from(b, end as int));
                    assert forall|k: int| 0 <= k < o implies #[trigger] diagnostics@[k] == old(diagnostics)@[k] by {
                        assert(diagnostics@[k] == before[k]);
                    }
                    let nf = found.push(item);
                    assert forall|k: int| 0 <= k < nf.len() implies {
                        let d = #[trigger] diagnostics@[o + k];
                        let f = nf[k];
                        &&& d.code == ApplicationCode::NonRelocatableUrl
                        &&& d.path@ == path@
                        &&& d.message@ == non_relocatable_message(f.0)
                        &&& d.span == Some(SourceSpan { start: f.1 as u32, end: f.2 as u32 })
                    } by {
                        if k < found.len() {
                            assert(diagnostics@[o + k] == before[o + k]);
                        }
                    }
                    found = nf;
                }
            } else {
                proof {
                    assert(scan_from(b, 0) =~= found + scan_from(b, end as int));
                }
            }
            i = end;
            continue;
        }
        proof {
            assert(scan_from(b, i as int) == scan_from(b, i + 1));
        }
        i = i + 1;
    }
    proof {
        assert(scan_from(b, i as int) =~= Seq::<(Seq<char>, int, int)>::empty());
        assert(found =~= scan_from(b, 0));
    }
}

/// The outcome of a relocation check of one package.
#[derive(Debug, Clone)]
pub struct ApplicationRelocatableReport {
    pub application_id: Option<String>,
    pub package_root: String,
    pub manifest: ApplicationRelocationManifest,
    pub at_root: RelocatedApplicationUrls,
    pub at_relocated: RelocatedApplicationUrls,
    pub diagnostics: Vec<ApplicationDiagnostic>,
}

impl ApplicationRelocatableReport {
    /// Whether any diagnostic was reported (every relocation diagnostic is an error).
    pub fn has_errors(&self) -> (r: bool)
        ensures
            r == (self.diagnostics.len() > 0),
    {
        self.diagnostics.len() > 0
    }
}

fn empty_relocated(application_id: &str, base: &str) -> (r: RelocatedApplicationUrls)
    ensures
        r.application_id@ == application_id@,
        r.base@ == base@,
        r.entries.len() == 0,
{
    RelocatedApplicationUrls {
        application_id: String::from_str(application_id),
        base: String::from_str(base),
        entries: Vec::new(),
    }
}

/// `urls` is the relocation of `manifest` under `base`, or (when relocation
/// failed) an empty set at `base`.
pub open spec fn relocated_or_empty(manifest: ApplicationRelocationManifest, base: Seq<char>, urls: RelocatedApplicationUrls) -> bool {
    relocation_of(manifest, base, urls) || (urls.entries.len() == 0 && urls.base@ == base)
}

/// Relocation proof of one application: relocate the sample manifest at `/`
/// and under `relocate_base` (or the default proof base), check that every
/// URL strips back, and that the non-root relocation prefixes every URL.
/// `diagnostics` holds what was found before (descriptor and source scan).
pub fn relocation_report(
    package_root: String,
    application_id: String,
    relocate_base: Option<&str>,
    diagnostics: Vec<ApplicationDiagnostic>,
) -> (r: ApplicationRelocatableReport)
    ensures
        r.application_id == Some(application_id),
        r.package_root@ == package_root@,
        r.manifest.application_id@ == application_id@,
        r.manifest.entries@.map_values(|e: LogicalUrlEntry| entry_view(e)) == sample_entries(application_id@),
        relocated_or_empty(r.manifest, seq!['/'], r.at_root),
        ({
            let raw = match relocate_base {
                Some(b) => b@,
                None => DEFAULT_RELOCATE_PROOF_BASE@,
            };
            let base = match route_base_result(raw) {
                Ok(b) => b,
                Err(_) => DEFAULT_RELOCATE_PROOF_BASE@,
            };
            relocated_or_empty(r.manifest, base, r.at_relocated)
        }),
        r.diagnostics@.len() >= diagnostics@.len(),
        forall|k: int| 0 <= k < diagnostics@.len() ==> #[trigger] r.diagnostics@[k] == diagnostics@[k],
{
    let mut diags = diagnostics;
    let manifest = sample_relocation_manifest(application_id.as_str());
    let ghost given = diags@;
    let mut i: usize = 0;
    while i < manifest.entries.len()
        invariant
            diags@.len() >= given.len(),
            forall|k: int| 0 <= k < given.len() ==> #[trigger] diags@[k] == given[k],
        decreases manifest.entries.len() - i,
    {
        match normalize_logical_path(manifest.entries[i].logical_path.as_str()) {
            Ok(_) => {},
            Err(msg) => {
                let mut m = to_chars("manifest entry `");
                push_str(&mut m, manifest.entries[i].id.as_str());
                push_str(&mut m, "`: ");
                push_str(&mut m, msg.as_str());
                let ghost before = diags@;
                diags.push(ApplicationDiagnostic {
                    code: ApplicationCode::InvalidBase,
                    path: package_root.clone(),
                    message: from_chars(m.as_slice()),
                    span: None,
                });
                proof {
                    assert forall|k: int| 0 <= k < given.len() implies #[trigger] diags@[k] == given[k] by {
                        assert(diags@[k] == before[k]);
                    }
                }
            },
        }
        i = i + 1;
    }
    let mut root: Vec<char> = Vec::new();
    root.push('/');
    proof {
        assert(root@ =~= seq!['/']);
    }
    let root_text = from_chars(root.as_slice());
    let root_base = ApplicationBase { base: root_text.clone(), application_id: Some(application_id.clone()) };
    let proof_raw = match relocate_base {
        Some(b) => b,
        None => DEFAULT_RELOCATE_PROOF_BASE,
    };
    let relocated_base = match parse_application_base(proof_raw, Some(application_id.clone())) {
        Ok(b) => b,
        Err(d) => {
            let ghost before = diags@;
            diags.push(d);
            proof {
                assert forall|k: int| 0 <= k < given.len() implies #[trigger] diags@[k] == given[k] by {
                    assert(diags@[k] == before[k]);
                }
            }
            ApplicationBase {
                base: String::from_str(DEFAULT_RELOCATE_PROOF_BASE),
                application_id: Some(application_id.clone()),
            }
        },
    };
    let at_root = match relocate_manifest(&manifest, &root_base) {
        Ok(r) => {
            let ghost before = diags@;
            verify_roundtrip(&r, root_text.as_str(), &mut diags);
            proof {
                assert forall|k: int| 0 <= k < given.len() implies #[trigger] diags@[k] == given[k] by {
                    assert(diags@[k] == before[k]);
                }
            }
            r
        },
        Err(d) => {
            let ghost before = diags@;
            diags.push(d);
            proof {
                assert forall|k: int| 0 <= k < given.len() implies #[trigger] diags@[k] == given[k] by {
                    assert(diags@[k] == before[k]);
                }
            }
            empty_relocated(application_id.as_str(), root_text.as_str())
        },
    };
    let at_relocated = match relocate_manifest(&manifest, &relocated_base) {
        Ok(r) => {
            let ghost before = diags@;
            verify_roundtrip(&r, relocated_base.base.as_str(), &mut diags);
            let ghost mid = diags@;
            verify_not_equal_to_logical_when_prefixed(&r, relocated_base.base.as_str(), &mut diags);
            proof {
                assert forall|k: int| 0 <= k < given.len() implies #[trigger] diags@[k] == given[k] by {
                    assert(diags@[k] == mid[k]);
                    assert(mid[k] == before[k]);
                }
            }
            r
        },
        Err(d) => {
            let ghost before = diags@;
            diags.push(d);
            proof {
                assert forall|k: int| 0 <= k < given.len() implies #[trigger] diags@[k] == given[k] by {
                    assert(diags@[k] == before[k]);
                }
            }
            empty_relocated(application_id.as_str(), relocated_base.base.as_str())
        },
    };
    ApplicationRelocatableReport {
        application_id: Some(application_id),
        package_root,
        manifest,
        at_root,
        at_relocated,
        diagnostics: diags,
    }
}
/// The ApplicationId a parsed `package.json` declares under
/// `vmz.application.id`, when it is a valid one.
pub open spec fn declared_id_of(doc: Option<crate::json::Json>) -> Option<Seq<char>> {
    match doc {
        Some(v) => match crate::json::member(v, "vmz"@) {
            Some(a) => match crate::json::member(a, "application"@) {
                Some(b) => match crate::json::member(b, "id"@) {
                    Some(crate::json::Json::Str(id)) => if id.len() > 0 && crate::application::valid_application_id(id) {
                        Some(id)
                    } else {
                        None
                    },
                    _ => None,
                },
                None => None,
            },
            None => None,
        },
        None => None,
    }
}

/// The valid ApplicationId a `package.json` text declares, if any.
pub fn declared_application_id_from_text(text: &str) -> (r: Option<String>)
    ensures
        opt_text(r) == declared_id_of(crate::json::json_of_text(text@)),
{
    let doc = match crate::json::parse_json_text(text) {
        Ok(d) => d,
        Err(_) => {
            return None;
        },
    };
    let a = match doc.get("vmz") {
        Some(a) => a,
        None => {
            return None;
        },
    };
    let b = match a.get("application") {
        Some(b) => b,
        None => {
            return None;
        },
    };
    match b.get("id") {
        Some(crate::json::JsonValue::Str(id)) => {
            let c = to_chars(id.as_str());
            if c.len() > 0 && crate::application::is_valid_application_id(id.as_str()) {
                Some(id.clone())
            } else {
                None
            }
        },
        _ => None,
    }
}

/// The text of an optional string.
pub open spec fn opt_text(o: Option<String>) -> Option<Seq<char>> {
    match o {
        Some(s) => Some(s@),
        None => None,
    }
}

} // verus!
