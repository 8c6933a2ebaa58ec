//! Native host profile rules: the WebView shell manifest (bundled local
//! entry, shared shell schema across platform adapters) and the full-stack
//! profile of a NativeAppHost (SSR first paint, `#server` transport,
//! auth/session, network policy, delivery integrity).
//!
//! The protocol's schema identifiers and required lists are handed in as
//! plain values; diagnostic codes are the library's own enum.

use vstd::prelude::*;
use crate::order::{texts, texts_contain};
use crate::text::{chars_eq, from_chars, has_prefix, lower, lower_exec, push_str, starts_with, to_chars, trim, trim_chars};

verus! {

/// What a native host diagnostic is about.
#[derive(Debug, Clone, Copy, PartialEq, Eq, Structural)]
pub enum NativeDiagCode {
    InvalidProfile,
    MissingIdentity,
    RemoteEntryDefault,
    MissingShellHook,
    MissingDeepLink,
    MissingLogPolicy,
    PlatformSemanticFork,
    MissingEntryArtifact,
    MissingSsrFirstPaint,
    RemoteWithoutIntegrity,
    MixedSsrCookieAssumptions,
    MissingServerTransport,
    BridgeBypassesServer,
    MissingAuthSession,
    MissingNetworkPolicy,
    MissingLifecycleEvent,
    BackgroundIsDestroy,
    CrashAssumesJsHeap,
    MissingPersistence,
    MissingUpdatePolicy,
    MissingOfflinePolicy,
    MissingSurfaceId,
    MissingOwnerRegion,
    MissingSurfaceLifetime,
    ImplicitStateShare,
    SurfaceIsCapability,
    SurfaceIsSemanticTruth,
    ArbitraryBridge,
    MissingAllowlist,
    RemoteUrlDefault,
    UnsupportedCapability,
    UnknownStub,
    CallNotAllowlisted,
    MissingCancel,
    MissingTrace,
    MissingPermission,
    MissingOrigin,
    MissingNonce,
    MissingTimeout,
    PlatformPrivateSchema,
    MissingPlatformAdapter,
    AdapterIsSemanticCore,
}

/// One native host diagnostic.
#[derive(Debug, Clone)]
pub struct NativeHostDiagnostic {
    pub path: String,
    /// `error`
    pub severity: String,
    pub message: String,
    pub code: Option<NativeDiagCode>,
}

/// A diagnostic as plain values: (path, severity, message, code).
pub open spec fn diag_view(d: NativeHostDiagnostic) -> (Seq<char>, Seq<char>, Seq<char>, Option<NativeDiagCode>) {
    (d.path@, d.severity@, d.message@, d.code)
}

/// A list of diagnostics as plain values.
pub open spec fn diags_view(v: Seq<NativeHostDiagnostic>) -> Seq<(Seq<char>, Seq<char>, Seq<char>, Option<NativeDiagCode>)> {
    v.map_values(|d: NativeHostDiagnostic| diag_view(d))
}

/// One error when `c` holds, none otherwise.
pub open spec fn error_if(c: bool, path: Seq<char>, message: Seq<char>, code: NativeDiagCode) -> Seq<
    (Seq<char>, Seq<char>, Seq<char>, Option<NativeDiagCode>),
> {
    if c {
        seq![(path, "error"@, message, Some(code))]
    } else {
        Seq::empty()
    }
}

/// `s` is empty once whitespace is trimmed.
pub open spec fn blank(s: Seq<char>) -> bool {
    trim(s).len() == 0
}

/// `a` followed by a back-quoted `b` and then `c`: a `` `b` `` c.
pub open spec fn quoted(a: Seq<char>, b: Seq<char>, c: Seq<char>) -> Seq<char> {
    a + "`"@ + b + "`"@ + c
}

fn is_blank(s: &String) -> (r: bool)
    ensures
        r == blank(s@),
{
    let v = to_chars(s.as_str());
    let t = trim_chars(v.as_slice());
    t.len() == 0
}

fn same_text(a: &String, b: &String) -> (r: bool)
    ensures
        r == (a@ == b@),
{
    let x = to_chars(a.as_str());
    let y = to_chars(b.as_str());
    chars_eq(x.as_slice(), y.as_slice())
}

fn is_lit(a: &String, lit: &str) -> (r: bool)
    ensures
        r == (a@ == lit@),
{
    let x = to_chars(a.as_str());
    let y = to_chars(lit);
    chars_eq(x.as_slice(), y.as_slice())
}

fn quoted_exec(a: &str, b: &str, c: &str) -> (r: String)
    ensures
        r@ == quoted(a@, b@, c@),
{
    let mut v = to_chars(a);
    push_str(&mut v, "`");
    push_str(&mut v, b);
    push_str(&mut v, "`");
    push_str(&mut v, c);
    from_chars(v.as_slice())
}

fn cat(a: &str, b: &str) -> (r: String)
    ensures
        r@ == a@ + b@,
{
    let mut v = to_chars(a);
    push_str(&mut v, b);
    from_chars(v.as_slice())
}

/// Appends an error when `c` holds.
fn error_when(out: &mut Vec<NativeHostDiagnostic>, c: bool, path: String, message: String, code: NativeDiagCode)
    ensures
        diags_view(final(out)@) == diags_view(old(out)@) + error_if(c, path@, message@, code),
{
    let ghost before = diags_view(out@);
    let ghost pv = path@;
    let ghost mv = message@;
    if c {
        out.push(NativeHostDiagnostic { path, severity: String::from_str("error"), message, code: Some(code) });
        proof {
            assert(diags_view(out@) =~= before + error_if(c, pv, mv, code));
        }
    } else {
        proof {
            assert(diags_view(out@) =~= before + error_if(c, pv, mv, code));
        }
    }
}

// ---------------------------------------------------------------------------
// WebView shell
// ---------------------------------------------------------------------------

#[derive(Debug, Clone)]
pub struct ShellIdentity {
    pub application_id: String,
    pub origin: String,
}

#[derive(Debug, Clone)]
pub struct ShellEntry {
    pub entry_url: String,
    pub client_js: String,
    pub dom_host: String,
}

#[derive(Debug, Clone)]
pub struct ShellLogging {
    pub redact_sensitive: bool,
    pub level: String,
}

#[derive(Debug, Clone)]
pub struct ShellPlatformAdapter {
    pub platform: String,
    pub kind: String,
    pub shell_schema: String,
}

/// The WebView shell manifest, as far as its rules read it.
#[derive(Debug, Clone)]
pub struct NativeWebViewShellManifest {
    pub schema: String,
    pub identity: ShellIdentity,
    pub reuses_browser_lowering: bool,
    pub asset_mode: String,
    pub entry: ShellEntry,
    pub hooks: Vec<String>,
    /// Number of deep link map entries.
    pub deep_link_count: usize,
    pub logging: ShellLogging,
    pub adapters: Vec<ShellPlatformAdapter>,
}

/// The protocol values the shell rules compare against.
#[derive(Debug, Clone)]
pub struct ShellProtocol {
    pub shell_schema: String,
    pub required_hooks: Vec<String>,
    pub required_platforms: Vec<String>,
}

/// What was found of the bundled artifacts on disk.
#[derive(Debug, Clone, Copy)]
pub struct ShellArtifacts {
    /// The `dist` directory exists.
    pub dist_exists: bool,
    /// The client script was found under one of the search roots.
    pub found_client: bool,
    /// A found client script holds the `__vmzDirect` marker.
    pub client_has_marker: bool,
    /// The DOM host was found under one of the search roots.
    pub found_dom: bool,
}

/// Schema, identity, lowering and asset mode rules, in order.
pub open spec fn shell_id_diags(shell: NativeWebViewShellManifest, schema: Seq<char>) -> Seq<
    (Seq<char>, Seq<char>, Seq<char>, Option<NativeDiagCode>),
> {
    error_if(shell.schema@ != schema, "schema"@, quoted("shell schema must be "@, schema, ""@), NativeDiagCode::InvalidProfile)
        + error_if(
        blank(shell.identity.application_id@) || blank(shell.identity.origin@),
        "identity"@,
        "shell requires applicationId + origin"@,
        NativeDiagCode::MissingIdentity,
    ) + error_if(
        !shell.reuses_browser_lowering,
        "reusesBrowserLowering"@,
        "WebView shell must reuse Browser lowering"@,
        NativeDiagCode::InvalidProfile,
    ) + error_if(
        shell.asset_mode@ != "local"@,
        "assetMode"@,
        "NW1 shell requires assetMode=local (bundled)"@,
        NativeDiagCode::RemoteEntryDefault,
    )
}

/// Entry URL rules: no remote http(s) entry, only `app://` or `file://`
/// (compared ASCII case-insensitively).
pub open spec fn entry_diags(entry: ShellEntry) -> Seq<(Seq<char>, Seq<char>, Seq<char>, Option<NativeDiagCode>)> {
    let url = lower(entry.entry_url@);
    error_if(
        has_prefix(url, "http://"@) || has_prefix(url, "https://"@),
        "entry.entryUrl"@,
        "remote http(s) entry must not be NW1 default; use app:// or file:// local bundle"@,
        NativeDiagCode::RemoteEntryDefault,
    ) + error_if(
        !(has_prefix(url, "app://"@) || has_prefix(url, "file://"@)),
        "entry.entryUrl"@,
        quoted("unsupported entryUrl "@, entry.entry_url@, ""@),
        NativeDiagCode::RemoteEntryDefault,
    )
}

/// One error at `path` per required item that `have` lacks, in order:
/// `what` followed by the back-quoted item.
pub open spec fn missing_diags(required: Seq<String>, have: Seq<String>, path: Seq<char>, what: Seq<char>, code: NativeDiagCode) -> Seq<
    (Seq<char>, Seq<char>, Seq<char>, Option<NativeDiagCode>),
>
    decreases required.len(),
{
    if required.len() == 0 {
        Seq::empty()
    } else {
        let h = required.last()@;
        missing_diags(required.drop_last(), have, path, what, code) + error_if(
            !texts(have).contains(h),
            path,
            quoted(what, h, ""@),
            code,
        )
    }
}

/// Deep link and logging rules, in order.
pub open spec fn shell_policy_diags(shell: NativeWebViewShellManifest) -> Seq<
    (Seq<char>, Seq<char>, Seq<char>, Option<NativeDiagCode>),
> {
    error_if(
        shell.deep_link_count == 0,
        "deepLinks"@,
        "NW1 shell requires at least one deep link map entry"@,
        NativeDiagCode::MissingDeepLink,
    ) + error_if(
        !shell.logging.redact_sensitive,
        "logging"@,
        "shell logging must redactSensitive=true"@,
        NativeDiagCode::MissingLogPolicy,
    ) + error_if(blank(shell.logging.level@), "logging.level"@, "shell logging level required"@, NativeDiagCode::MissingLogPolicy)
}

/// The index of the first adapter for `platform`.
pub open spec fn first_adapter(adapters: Seq<ShellPlatformAdapter>, platform: Seq<char>) -> Option<int>
    decreases adapters.len(),
{
    if adapters.len() == 0 {
        None
    } else {
        match first_adapter(adapters.drop_last(), platform) {
            Some(i) => Some(i),
            None => if adapters.last().platform@ == platform {
                Some(adapters.len() - 1)
            } else {
                None
            },
        }
    }
}

/// The rules for one required platform: its adapter must exist, be a
/// `webview_shell` and share the shell schema.
pub open spec fn platform_diags(adapters: Seq<ShellPlatformAdapter>, platform: Seq<char>, schema: Seq<char>) -> Seq<
    (Seq<char>, Seq<char>, Seq<char>, Option<NativeDiagCode>),
> {
    match first_adapter(adapters, platform) {
        None => seq![
            ("adapters"@, "error"@, quoted("missing "@, platform, " webview_shell adapter"@), Some(NativeDiagCode::PlatformSemanticFork)),
        ],
        Some(i) => {
            let a = adapters[i];
            error_if(
                a.kind@ != "webview_shell"@,
                "adapters."@ + platform,
                quoted("adapter kind must be webview_shell, got "@, a.kind@, ""@),
                NativeDiagCode::PlatformSemanticFork,
            ) + error_if(
                a.shell_schema@ != schema,
                "adapters."@ + platform,
                quoted(quoted(quoted("platform "@, platform, " must share shell schema "@), schema, ", got "@), a.shell_schema@, ""@),
                NativeDiagCode::PlatformSemanticFork,
            )
        },
    }
}

/// The rules of each required platform, in order.
pub open spec fn platforms_diags(required: Seq<String>, adapters: Seq<ShellPlatformAdapter>, schema: Seq<char>) -> Seq<
    (Seq<char>, Seq<char>, Seq<char>, Option<NativeDiagCode>),
>
    decreases required.len(),
{
    if required.len() == 0 {
        Seq::empty()
    } else {
        platforms_diags(required.drop_last(), adapters, schema) + platform_diags(adapters, required.last()@, schema)
    }
}

/// One error per adapter whose shell schema forks from the protocol's.
pub open spec fn fork_diags(adapters: Seq<ShellPlatformAdapter>, schema: Seq<char>) -> Seq<
    (Seq<char>, Seq<char>, Seq<char>, Option<NativeDiagCode>),
>
    decreases adapters.len(),
{
    if adapters.len() == 0 {
        Seq::empty()
    } else {
        let a = adapters.last();
        fork_diags(adapters.drop_last(), schema) + error_if(
            a.shell_schema@ != schema,
            "adapters."@ + a.platform@,
            quoted("platform semantic fork: shellSchema "@, a.shell_schema@, ""@),
            NativeDiagCode::PlatformSemanticFork,
        )
    }
}

/// The bundled artifact rules, which apply once `dist` exists.
pub open spec fn artifact_diags(entry: ShellEntry, found: ShellArtifacts) -> Seq<
    (Seq<char>, Seq<char>, Seq<char>, Option<NativeDiagCode>),
> {
    if found.dist_exists {
        (if !found.found_client {
            seq![
                (entry.client_js@, "error"@, quoted("missing local bundled client artifact "@, entry.client_js@, ""@), Some(NativeDiagCode::MissingEntryArtifact)),
            ]
        } else if !found.client_has_marker {
            seq![
                (entry.client_js@, "error"@, "client artifact missing __vmzDirect — shell must reuse Browser Direct emit"@, Some(NativeDiagCode::MissingEntryArtifact)),
            ]
        } else {
            Seq::empty()
        }) + error_if(
            !found.found_dom,
            entry.dom_host@,
            quoted("missing DOM host artifact "@, entry.dom_host@, ""@),
            NativeDiagCode::MissingEntryArtifact,
        )
    } else {
        Seq::empty()
    }
}

/// Every rule of the shell manifest, in order.
pub open spec fn shell_diags(shell: NativeWebViewShellManifest, proto: ShellProtocol, found: ShellArtifacts) -> Seq<
    (Seq<char>, Seq<char>, Seq<char>, Option<NativeDiagCode>),
> {
    shell_id_diags(shell, proto.shell_schema@) + entry_diags(shell.entry) + missing_diags(proto.required_hooks@, shell.hooks@, "hooks"@, "missing required shell hook "@, NativeDiagCode::MissingShellHook) + shell_policy_diags(shell)
        + platforms_diags(proto.required_platforms@, shell.adapters@, proto.shell_schema@) + fork_diags(
        shell.adapters@,
        proto.shell_schema@,
    ) + artifact_diags(shell.entry, found)
}

fn shell_identity(shell: &NativeWebViewShellManifest, schema: &String, out: &mut Vec<NativeHostDiagnostic>)
    ensures
        diags_view(final(out)@) == diags_view(old(out)@) + shell_id_diags(*shell, schema@),
{
    let ghost start = diags_view(out@);
    error_when(
        out,
        !same_text(&shell.schema, schema),
        String::from_str("schema"),
        quoted_exec("shell schema must be ", schema.as_str(), ""),
        NativeDiagCode::InvalidProfile,
    );
    error_when(
        out,
        is_blank(&shell.identity.application_id) || is_blank(&shell.identity.origin),
        String::from_str("identity"),
        String::from_str("shell requires applicationId + origin"),
        NativeDiagCode::MissingIdentity,
    );
    error_when(
        out,
        !shell.reuses_browser_lowering,
        String::from_str("reusesBrowserLowering"),
        String::from_str("WebView shell must reuse Browser lowering"),
        NativeDiagCode::InvalidProfile,
    );
    error_when(
        out,
        !is_lit(&shell.asset_mode, "local"),
        String::from_str("assetMode"),
        String::from_str("NW1 shell requires assetMode=local (bundled)"),
        NativeDiagCode::RemoteEntryDefault,
    );
    proof {
        assert(diags_view(out@) =~= start + shell_id_diags(*shell, schema@));
    }
}

fn shell_entry(entry: &ShellEntry, out: &mut Vec<NativeHostDiagnostic>)
    ensures
        diags_view(final(out)@) == diags_view(old(out)@) + entry_diags(*entry),
{
    let ghost start = diags_view(out@);
    let raw = to_chars(entry.entry_url.as_str());
    let url = lower_exec(raw.as_slice());
    let http = to_chars("http://");
    let https = to_chars("https://");
    let app = to_chars("app://");
    let file = to_chars("file://");
    error_when(
        out,
        starts_with(url.as_slice(), http.as_slice()) || starts_with(url.as_slice(), https.as_slice()),
        String::from_str("entry.entryUrl"),
        String::from_str("remote http(s) entry must not be NW1 default; use app:// or file:// local bundle"),
        NativeDiagCode::RemoteEntryDefault,
    );
    error_when(
        out,
        !(starts_with(url.as_slice(), app.as_slice()) || starts_with(url.as_slice(), file.as_slice())),
        String::from_str("entry.entryUrl"),
        quoted_exec("unsupported entryUrl ", entry.entry_url.as_str(), ""),
        NativeDiagCode::RemoteEntryDefault,
    );
    proof {
        assert(diags_view(out@) =~= start + entry_diags(*entry));
    }
}

fn missing_items(
    required: &Vec<String>,
    have: &Vec<String>,
    path: &str,
    what: &str,
    code: NativeDiagCode,
    out: &mut Vec<NativeHostDiagnostic>,
)
    ensures
        diags_view(final(out)@) == diags_view(old(out)@) + missing_diags(required@, have@, path@, what@, code),
{
    let ghost start = diags_view(out@);
    let mut i: usize = 0;
    proof {
        assert(required@.take(0) =~= Seq::<String>::empty());
        assert(diags_view(out@) =~= start + missing_diags(required@.take(0), have@, path@, what@, code));
    }
    while i < required.len()
        invariant
            i <= required.len(),
            diags_view(out@) == start + missing_diags(required@.take(i as int), have@, path@, what@, code),
        decreases required.len() - i,
    {
        let h = &required[i];
        let hv = to_chars(h.as_str());
        error_when(out, !texts_contain(have, hv.as_slice()), String::from_str(path), quoted_exec(what, h.as_str(), ""), code);
        proof {
            assert(required@.take(i + 1).drop_last() =~= required@.take(i as int));
            assert(required@.take(i + 1).last() == required@[i as int]);
            assert(diags_view(out@) =~= start + missing_diags(required@.take(i + 1), have@, path@, what@, code));
        }
        i = i + 1;
    }
    proof {
        assert(required@.take(required.len() as int) =~= required@);
    }
}

fn shell_policy(shell: &NativeWebViewShellManifest, out: &mut Vec<NativeHostDiagnostic>)
    ensures
        diags_view(final(out)@) == diags_view(old(out)@) + shell_policy_diags(*shell),
{
    let ghost start = diags_view(out@);
    error_when(
        out,
        shell.deep_link_count == 0,
        String::from_str("deepLinks"),
        String::from_str("NW1 shell requires at least one deep link map entry"),
        NativeDiagCode::MissingDeepLink,
    );
    error_when(
        out,
        !shell.logging.redact_sensitive,
        String::from_str("logging"),
        String::from_str("shell logging must redactSensitive=true"),
        NativeDiagCode::MissingLogPolicy,
    );
    error_when(
        out,
        is_blank(&shell.logging.level),
        String::from_str("logging.level"),
        String::from_str("shell logging level required"),
        NativeDiagCode::MissingLogPolicy,
    );
    proof {
        assert(diags_view(out@) =~= start + shell_policy_diags(*shell));
    }
}

fn find_adapter(adapters: &Vec<ShellPlatformAdapter>, platform: &String) -> (r: Option<usize>)
    ensures
        match r {
            Some(i) => first_adapter(adapters@, platform@) == Some(i as int) && i < adapters.len(),
            None => first_adapter(adapters@, platform@) is None,
        },
{
    let mut i: usize = 0;
    proof {
        assert(adapters@.take(0) =~= Seq::<ShellPlatformAdapter>::empty());
    }
    while i < adapters.len()
        invariant
            i <= adapters.len(),
            first_adapter(adapters@.take(i as int), platform@) is None,
        decreases adapters.len() - i,
    {
        proof {
            assert(adapters@.take(i + 1).drop_last() =~= adapters@.take(i as int));
            assert(adapters@.take(i + 1).last() == adapters@[i as int]);
        }
        if same_text(&adapters[i].platform, platform) {
            proof {
                lemma_first_adapter_prefix(adapters@, platform@, i as int + 1);
            }
            return Some(i);
        }
        i = i + 1;
    }
    proof {
        assert(adapters@.take(adapters.len() as int) =~= adapters@);
    }
    None
}

/// Once a prefix has a first adapter for `platform`, so does every longer
/// list, at the same index.
proof fn lemma_first_adapter_prefix(adapters: Seq<ShellPlatformAdapter>, platform: Seq<char>, n: int)
    requires
        0 <= n <= adapters.len(),
        first_adapter(adapters.take(n), platform) is Some,
    ensures
        first_adapter(adapters, platform) == first_adapter(adapters.take(n), platform),
    decreases adapters.len() - n,
{
    if n < adapters.len() {
        assert(adapters.take(n + 1).drop_last() =~= adapters.take(n));
        lemma_first_adapter_prefix(adapters, platform, n + 1);
    } else {
        assert(adapters.take(n) =~= adapters);
    }
}

fn shell_platform(adapters: &Vec<ShellPlatformAdapter>, platform: &String, schema: &String, out: &mut Vec<NativeHostDiagnostic>)
    ensures
        diags_view(final(out)@) == diags_view(old(out)@) + platform_diags(adapters@, platform@, schema@),
{
    let ghost start = diags_view(out@);
    match find_adapter(adapters, platform) {
        None => {
            error_when(
                out,
                true,
                String::from_str("adapters"),
                quoted_exec("missing ", platform.as_str(), " webview_shell adapter"),
                NativeDiagCode::PlatformSemanticFork,
            );
        },
        Some(i) => {
            let a = &adapters[i];
            let path = cat("adapters.", platform.as_str());
            error_when(
                out,
                !is_lit(&a.kind, "webview_shell"),
                path.clone(),
                quoted_exec("adapter kind must be webview_shell, got ", a.kind.as_str(), ""),
                NativeDiagCode::PlatformSemanticFork,
            );
            let head = quoted_exec("platform ", platform.as_str(), " must share shell schema ");
            let mid = quoted_exec(head.as_str(), schema.as_str(), ", got ");
            let msg = quoted_exec(mid.as_str(), a.shell_schema.as_str(), "");
            error_when(out, !same_text(&a.shell_schema, schema), path, msg, NativeDiagCode::PlatformSemanticFork);
        },
    }
    proof {
        assert(diags_view(out@) =~= start + platform_diags(adapters@, platform@, schema@));
    }
}

fn shell_platforms(required: &Vec<String>, adapters: &Vec<ShellPlatformAdapter>, schema: &String, out: &mut Vec<NativeHostDiagnostic>)
    ensures
        diags_view(final(out)@) == diags_view(old(out)@) + platforms_diags(required@, adapters@, schema@),
{
    let ghost start = diags_view(out@);
    let mut i: usize = 0;
    proof {
        assert(required@.take(0) =~= Seq::<String>::empty());
        assert(diags_view(out@) =~= start + platforms_diags(required@.take(0), adapters@, schema@));
    }
    while i < required.len()
        invariant
            i <= required.len(),
            diags_view(out@) == start + platforms_diags(required@.take(i as int), adapters@, schema@),
        decreases required.len() - i,
    {
        shell_platform(adapters, &required[i], schema, out);
        proof {
            assert(required@.take(i + 1).drop_last() =~= required@.take(i as int));
            assert(required@.take(i + 1).last() == required@[i as int]);
            assert(diags_view(out@) =~= start + platforms_diags(required@.take(i + 1), adapters@, schema@));
        }
        i = i + 1;
    }
    proof {
        assert(required@.take(required.len() as int) =~= required@);
    }
}

fn shell_forks(adapters: &Vec<ShellPlatformAdapter>, schema: &String, out: &mut Vec<NativeHostDiagnostic>)
    ensures
        diags_view(final(out)@) == diags_view(old(out)@) + fork_diags(adapters@, schema@),
{
    let ghost start = diags_view(out@);
    let mut i: usize = 0;
    proof {
        assert(adapters@.take(0) =~= Seq::<ShellPlatformAdapter>::empty());
        assert(diags_view(out@) =~= start + fork_diags(adapters@.take(0), schema@));
    }
    while i < adapters.len()
        invariant
            i <= adapters.len(),
            diags_view(out@) == start + fork_diags(adapters@.take(i as int), schema@),
        decreases adapters.len() - i,
    {
        let a = &adapters[i];
        error_when(
            out,
            !same_text(&a.shell_schema, schema),
            cat("adapters.", a.platform.as_str()),
            quoted_exec("platform semantic fork: shellSchema ", a.shell_schema.as_str(), ""),
            NativeDiagCode::PlatformSemanticFork,
        );
        proof {
            assert(adapters@.take(i + 1).drop_last() =~= adapters@.take(i as int));
            assert(adapters@.take(i + 1).last() == adapters@[i as int]);
            assert(diags_view(out@) =~= start + fork_diags(adapters@.take(i + 1), schema@));
        }
        i = i + 1;
    }
    proof {
        assert(adapters@.take(adapters.len() as int) =~= adapters@);
    }
}

fn shell_artifacts(entry: &ShellEntry, found: ShellArtifacts, out: &mut Vec<NativeHostDiagnostic>)
    ensures
        diags_view(final(out)@) == diags_view(old(out)@) + artifact_diags(*entry, found),
{
    let ghost start = diags_view(out@);
    if found.dist_exists {
        if !found.found_client {
            error_when(
                out,
                true,
                entry.client_js.clone(),
                quoted_exec("missing local bundled client artifact ", entry.client_js.as_str(), ""),
                NativeDiagCode::MissingEntryArtifact,
            );
        } else if !found.client_has_marker {
            error_when(
                out,
                true,
                entry.client_js.clone(),
                String::from_str("client artifact missing __vmzDirect — shell must reuse Browser Direct emit"),
                NativeDiagCode::MissingEntryArtifact,
            );
        }
        error_when(
            out,
            !found.found_dom,
            entry.dom_host.clone(),
            quoted_exec("missing DOM host artifact ", entry.dom_host.as_str(), ""),
            NativeDiagCode::MissingEntryArtifact,
        );
    }
    proof {
        assert(diags_view(out@) =~= start + artifact_diags(*entry, found));
    }
}

/// The shell manifest rules: schema, identity, Browser lowering, bundled
/// local entry, required hooks, deep links, logging policy, one
/// `webview_shell` adapter per required platform sharing the shell schema,
/// no adapter forking the schema, and (once `dist` exists) the bundled
/// client and DOM host artifacts. Appends one error per broken rule, in
/// that order.
pub fn validate_shell(
    shell: &NativeWebViewShellManifest,
    proto: &ShellProtocol,
    found: ShellArtifacts,
    out: &mut Vec<NativeHostDiagnostic>,
)
    ensures
        diags_view(final(out)@) == diags_view(old(out)@) + shell_diags(*shell, *proto, found),
{
    let ghost start = diags_view(out@);
    shell_identity(shell, &proto.shell_schema, out);
    shell_entry(&shell.entry, out);
    missing_items(&proto.required_hooks, &shell.hooks, "hooks", "missing required shell hook ", NativeDiagCode::MissingShellHook, out);
    shell_policy(shell, out);
    shell_platforms(&proto.required_platforms, &shell.adapters, &proto.shell_schema, out);
    shell_forks(&shell.adapters, &proto.shell_schema, out);
    shell_artifacts(&shell.entry, found, out);
    proof {
        assert(diags_view(out@) =~= start + shell_diags(*shell, *proto, found));
    }
}

/// A check failed when one of its diagnostics is an error.
pub open spec fn any_error(v: Seq<NativeHostDiagnostic>) -> bool {
    exists|i: int| 0 <= i < v.len() && (#[trigger] v[i]).severity@ == "error"@
}

/// `failed` when a diagnostic is an error, else `ready`.
pub fn check_status(diags: &Vec<NativeHostDiagnostic>) -> (r: String)
    ensures
        r@ == if any_error(diags@) {
            "failed"@
        } else {
            "ready"@
        },
{
    let mut i: usize = 0;
    while i < diags.len()
        invariant
            i <= diags.len(),
            forall|j: int| 0 <= j < i ==> (#[trigger] diags@[j]).severity@ != "error"@,
        decreases diags.len() - i,
    {
        if is_lit(&diags[i].severity, "error") {
            return String::from_str("failed");
        }
        i = i + 1;
    }
    String::from_str("ready")
}


// ---------------------------------------------------------------------------
// Full-stack profile
// ---------------------------------------------------------------------------

#[derive(Debug, Clone)]
pub struct SsrPolicy {
    pub enabled: bool,
    /// `bundled` | `remote` | `hybrid`
    pub mode: String,
    pub plan_schema: String,
    pub integrity: String,
    pub allow_mixed_cookie_assumptions: bool,
}

#[derive(Debug, Clone)]
pub struct ServerTransport {
    pub scheme: String,
    pub endpoint: String,
    pub bridge_bypasses_server: bool,
}

#[derive(Debug, Clone)]
pub struct AuthSessionPolicy {
    pub mode: String,
    pub session_namespace: String,
    pub reauth_on_webview_crash: bool,
}

#[derive(Debug, Clone)]
pub struct PushPolicy {
    pub capability_id: String,
}

#[derive(Debug, Clone)]
pub struct NetworkPolicy {
    pub mode: String,
    pub allow_cleartext: bool,
}

/// The full-stack profile of a NativeAppHost, as far as its rules read it.
#[derive(Debug, Clone)]
pub struct NativeFullstackProfile {
    pub schema: String,
    pub ssr: SsrPolicy,
    pub server_transport: ServerTransport,
    pub auth: AuthSessionPolicy,
    pub push: PushPolicy,
    pub network: NetworkPolicy,
    /// `local` | `remote` | `hybrid`
    pub delivery_asset_mode: String,
    pub delivery_integrity: String,
}

/// SSR first-paint rules, in order.
#[verifier::opaque]
pub open spec fn ssr_diags(ssr: SsrPolicy) -> Seq<(Seq<char>, Seq<char>, Seq<char>, Option<NativeDiagCode>)> {
    let m = ssr.mode@;
    if ssr.enabled {
        error_if(blank(m), "ssr.mode"@, "SSR first-paint mode required when enabled"@, NativeDiagCode::MissingSsrFirstPaint)
            + error_if(
            !(m == "bundled"@ || m == "remote"@ || m == "hybrid"@),
            "ssr.mode"@,
            quoted("unknown ssr.mode "@, m, ""@),
            NativeDiagCode::MissingSsrFirstPaint,
        ) + error_if(
            ssr.plan_schema@ != "vmz.plan.v0"@,
            "ssr.planSchema"@,
            "SSR first-paint must reference vmz.plan.v0 (same Execution Plan)"@,
            NativeDiagCode::MissingSsrFirstPaint,
        ) + error_if(
            m == "remote"@ && blank(ssr.integrity@),
            "ssr.integrity"@,
            "remote SSR requires explicit integrity (not silent default)"@,
            NativeDiagCode::RemoteWithoutIntegrity,
        ) + error_if(
            m == "hybrid"@ && ssr.allow_mixed_cookie_assumptions,
            "ssr.allowMixedCookieAssumptions"@,
            "bundled SSR and remote SSR must not share cookie/origin assumptions"@,
            NativeDiagCode::MixedSsrCookieAssumptions,
        )
    } else {
        seq![
            ("ssr.enabled"@, "error"@, "NW4 requires SSR first-paint policy enabled for NativeAppHost WebSurface"@, Some(NativeDiagCode::MissingSsrFirstPaint)),
        ]
    }
}

/// `#server` transport rules: the scheme, an endpoint, no bridge bypass.
#[verifier::opaque]
pub open spec fn transport_diags(p: NativeFullstackProfile) -> Seq<(Seq<char>, Seq<char>, Seq<char>, Option<NativeDiagCode>)> {
    error_if(
        p.server_transport.scheme@ != "#server"@,
        "serverTransport.scheme"@,
        "server transport scheme must be `#server`"@,
        NativeDiagCode::MissingServerTransport,
    ) + error_if(
        blank(p.server_transport.endpoint@),
        "serverTransport.endpoint"@,
        "server transport endpoint required"@,
        NativeDiagCode::MissingServerTransport,
    ) + error_if(
        p.server_transport.bridge_bypasses_server,
        "serverTransport.bridgeBypassesServer"@,
        "Native bridge must not bypass `#server` security boundary"@,
        NativeDiagCode::BridgeBypassesServer,
    )
}

/// Auth/session rules: a mode, a session namespace, re-auth after a
/// WebView crash.
#[verifier::opaque]
pub open spec fn auth_diags(p: NativeFullstackProfile) -> Seq<(Seq<char>, Seq<char>, Seq<char>, Option<NativeDiagCode>)> {
    error_if(blank(p.auth.mode@), "auth.mode"@, "auth/session mode required"@, NativeDiagCode::MissingAuthSession)
        + error_if(
        blank(p.auth.session_namespace@),
        "auth.sessionNamespace"@,
        "auth sessionNamespace required (isolate WebView storage)"@,
        NativeDiagCode::MissingAuthSession,
    ) + error_if(
        !p.auth.reauth_on_webview_crash,
        "auth.reauthOnWebViewCrash"@,
        "auth must require reauthOnWebViewCrash=true"@,
        NativeDiagCode::MissingAuthSession,
    )
}

/// Push and network rules: a push capability id, a network mode, no
/// cleartext.
#[verifier::opaque]
pub open spec fn network_diags(p: NativeFullstackProfile) -> Seq<(Seq<char>, Seq<char>, Seq<char>, Option<NativeDiagCode>)> {
    error_if(
        blank(p.push.capability_id@),
        "push.capabilityId"@,
        "push capability id required (stub ok)"@,
        NativeDiagCode::InvalidProfile,
    ) + error_if(blank(p.network.mode@), "network.mode"@, "network policy mode required"@, NativeDiagCode::MissingNetworkPolicy)
        + error_if(
        p.network.allow_cleartext,
        "network.allowCleartext"@,
        "cleartext network must not be enabled for NW4 default profile"@,
        NativeDiagCode::MissingNetworkPolicy,
    )
}

/// Delivery rules: remote and hybrid delivery need integrity evidence; the
/// mode must be known.
#[verifier::opaque]
pub open spec fn delivery_diags(p: NativeFullstackProfile) -> Seq<(Seq<char>, Seq<char>, Seq<char>, Option<NativeDiagCode>)> {
    let m = p.delivery_asset_mode@;
    error_if(
        (m == "remote"@ || m == "hybrid"@) && blank(p.delivery_integrity@),
        "deliveryIntegrity"@,
        "remote/hybrid delivery requires integrity/signing evidence"@,
        NativeDiagCode::RemoteWithoutIntegrity,
    ) + error_if(
        !(m == "local"@ || m == "remote"@ || m == "hybrid"@),
        "deliveryAssetMode"@,
        quoted("unknown deliveryAssetMode "@, m, ""@),
        NativeDiagCode::InvalidProfile,
    )
}

/// Every rule of the full-stack profile, in order.
pub open spec fn fullstack_diags(p: NativeFullstackProfile, schema: Seq<char>) -> Seq<
    (Seq<char>, Seq<char>, Seq<char>, Option<NativeDiagCode>),
> {
    error_if(p.schema@ != schema, "schema"@, quoted("fullstack schema must be "@, schema, ""@), NativeDiagCode::InvalidProfile)
        + ssr_diags(p.ssr) + transport_diags(p) + auth_diags(p) + network_diags(p) + delivery_diags(p)
}

fn fullstack_ssr(ssr: &SsrPolicy, out: &mut Vec<NativeHostDiagnostic>)
    ensures
        diags_view(final(out)@) == diags_view(old(out)@) + ssr_diags(*ssr),
{
    reveal(ssr_diags);
    let ghost start = diags_view(out@);
    if ssr.enabled {
        let bundled = is_lit(&ssr.mode, "bundled");
        let remote = is_lit(&ssr.mode, "remote");
        let hybrid = is_lit(&ssr.mode, "hybrid");
        error_when(
            out,
            is_blank(&ssr.mode),
            String::from_str("ssr.mode"),
            String::from_str("SSR first-paint mode required when enabled"),
            NativeDiagCode::MissingSsrFirstPaint,
        );
        error_when(
            out,
            !(bundled || remote || hybrid),
            String::from_str("ssr.mode"),
            quoted_exec("unknown ssr.mode ", ssr.mode.as_str(), ""),
            NativeDiagCode::MissingSsrFirstPaint,
        );
        error_when(
            out,
            !is_lit(&ssr.plan_schema, "vmz.plan.v0"),
            String::from_str("ssr.planSchema"),
            String::from_str("SSR first-paint must reference vmz.plan.v0 (same Execution Plan)"),
            NativeDiagCode::MissingSsrFirstPaint,
        );
        error_when(
            out,
            remote && is_blank(&ssr.integrity),
            String::from_str("ssr.integrity"),
            String::from_str("remote SSR requires explicit integrity (not silent default)"),
            NativeDiagCode::RemoteWithoutIntegrity,
        );
        error_when(
            out,
            hybrid && ssr.allow_mixed_cookie_assumptions,
            String::from_str("ssr.allowMixedCookieAssumptions"),
            String::from_str("bundled SSR and remote SSR must not share cookie/origin assumptions"),
            NativeDiagCode::MixedSsrCookieAssumptions,
        );
    } else {
        error_when(
            out,
            true,
            String::from_str("ssr.enabled"),
            String::from_str("NW4 requires SSR first-paint policy enabled for NativeAppHost WebSurface"),
            NativeDiagCode::MissingSsrFirstPaint,
        );
    }
    proof {
        assert(diags_view(out@) =~= start + ssr_diags(*ssr));
    }
}

fn fullstack_transport(p: &NativeFullstackProfile, out: &mut Vec<NativeHostDiagnostic>)
    ensures
        diags_view(final(out)@) == diags_view(old(out)@) + transport_diags(*p),
{
    reveal(transport_diags);
    let ghost start = diags_view(out@);
    error_when(
        out,
        !is_lit(&p.server_transport.scheme, "#server"),
        String::from_str("serverTransport.scheme"),
        String::from_str("server transport scheme must be `#server`"),
        NativeDiagCode::MissingServerTransport,
    );
    error_when(
        out,
        is_blank(&p.server_transport.endpoint),
        String::from_str("serverTransport.endpoint"),
        String::from_str("server transport endpoint required"),
        NativeDiagCode::MissingServerTransport,
    );
    error_when(
        out,
        p.server_transport.bridge_bypasses_server,
        String::from_str("serverTransport.bridgeBypassesServer"),
        String::from_str("Native bridge must not bypass `#server` security boundary"),
        NativeDiagCode::BridgeBypassesServer,
    );
    proof {
        assert(diags_view(out@) =~= start + transport_diags(*p));
    }
}

fn fullstack_auth(p: &NativeFullstackProfile, out: &mut Vec<NativeHostDiagnostic>)
    ensures
        diags_view(final(out)@) == diags_view(old(out)@) + auth_diags(*p),
{
    reveal(auth_diags);
    let ghost start = diags_view(out@);
    error_when(
        out,
        is_blank(&p.auth.mode),
        String::from_str("auth.mode"),
        String::from_str("auth/session mode required"),
        NativeDiagCode::MissingAuthSession,
    );
    error_when(
        out,
        is_blank(&p.auth.session_namespace),
        String::from_str("auth.sessionNamespace"),
        String::from_str("auth sessionNamespace required (isolate WebView storage)"),
        NativeDiagCode::MissingAuthSession,
    );
    error_when(
        out,
        !p.auth.reauth_on_webview_crash,
        String::from_str("auth.reauthOnWebViewCrash"),
        String::from_str("auth must require reauthOnWebViewCrash=true"),
        NativeDiagCode::MissingAuthSession,
    );
    proof {
        assert(diags_view(out@) =~= start + auth_diags(*p));
    }
}

fn fullstack_network(p: &NativeFullstackProfile, out: &mut Vec<NativeHostDiagnostic>)
    ensures
        diags_view(final(out)@) == diags_view(old(out)@) + network_diags(*p),
{
    reveal(network_diags);
    let ghost start = diags_view(out@);
    error_when(
        out,
        is_blank(&p.push.capability_id),
        String::from_str("push.capabilityId"),
        String::from_str("push capability id required (stub ok)"),
        NativeDiagCode::InvalidProfile,
    );
    error_when(
        out,
        is_blank(&p.network.mode),
        String::from_str("network.mode"),
        String::from_str("network policy mode required"),
        NativeDiagCode::MissingNetworkPolicy,
    );
    error_when(
        out,
        p.network.allow_cleartext,
        String::from_str("network.allowCleartext"),
        String::from_str("cleartext network must not be enabled for NW4 default profile"),
        NativeDiagCode::MissingNetworkPolicy,
    );
    proof {
        assert(diags_view(out@) =~= start + network_diags(*p));
    }
}

fn fullstack_delivery(p: &NativeFullstackProfile, out: &mut Vec<NativeHostDiagnostic>)
    ensures
        diags_view(final(out)@) == diags_view(old(out)@) + delivery_diags(*p),
{
    reveal(delivery_diags);
    let ghost start = diags_view(out@);
    let remote = is_lit(&p.delivery_asset_mode, "remote");
    let hybrid = is_lit(&p.delivery_asset_mode, "hybrid");
    let local = is_lit(&p.delivery_asset_mode, "local");
    error_when(
        out,
        (remote || hybrid) && is_blank(&p.delivery_integrity),
        String::from_str("deliveryIntegrity"),
        String::from_str("remote/hybrid delivery requires integrity/signing evidence"),
        NativeDiagCode::RemoteWithoutIntegrity,
    );
    error_when(
        out,
        !(local || remote || hybrid),
        String::from_str("deliveryAssetMode"),
        quoted_exec("unknown deliveryAssetMode ", p.delivery_asset_mode.as_str(), ""),
        NativeDiagCode::InvalidProfile,
    );
    proof {
        assert(diags_view(out@) =~= start + delivery_diags(*p));
    }
}

/// The full-stack profile rules: schema, SSR first paint, `#server`
/// transport (which the native bridge must not bypass), auth/session, push,
/// network policy and delivery integrity. Appends one error per broken rule,
/// in that order.
pub fn validate_fullstack(p: &NativeFullstackProfile, fullstack_schema: &String, out: &mut Vec<NativeHostDiagnostic>)
    ensures
        diags_view(final(out)@) == diags_view(old(out)@) + fullstack_diags(*p, fullstack_schema@),
{
    let ghost start = diags_view(out@);
    error_when(
        out,
        !same_text(&p.schema, fullstack_schema),
        String::from_str("schema"),
        quoted_exec("fullstack schema must be ", fullstack_schema.as_str(), ""),
        NativeDiagCode::InvalidProfile,
    );
    fullstack_ssr(&p.ssr, out);
    fullstack_transport(p, out);
    fullstack_auth(p, out);
    fullstack_network(p, out);
    fullstack_delivery(p, out);
    proof {
        assert(diags_view(out@) =~= start + fullstack_diags(*p, fullstack_schema@));
    }
}

// ---------------------------------------------------------------------------
// Check reports
// ---------------------------------------------------------------------------

/// A foul fixture beside the profile: absent, parsed, or present but not
/// parsed (its text).
#[derive(Debug, Clone)]
pub enum FoulFixture<T> {
    Absent,
    Parsed(T),
    Unparsed(String),
}

fn append_diags(out: &mut Vec<NativeHostDiagnostic>, more: Vec<NativeHostDiagnostic>)
    ensures
        diags_view(final(out)@) == diags_view(old(out)@) + diags_view(more@),
{
    let ghost start = diags_view(out@);
    let mut i: usize = 0;
    while i < more.len()
        invariant
            i <= more.len(),
            diags_view(out@) == start + diags_view(more@.take(i as int)),
        decreases more.len() - i,
    {
        let ghost pre = diags_view(out@);
        out.push(more[i].clone_diag());
        proof {
            assert(diags_view(out@) =~= pre.push(diag_view(more@[i as int])));
            assert(diags_view(more@.take(i + 1)) =~= diags_view(more@.take(i as int)).push(diag_view(more@[i as int])));
            assert(diags_view(out@) =~= start + diags_view(more@.take(i + 1)));
        }
        i = i + 1;
    }
    proof {
        assert(more@.take(more.len() as int) =~= more@);
    }
}

impl NativeHostDiagnostic {
    /// A copy with the same fields.
    pub fn clone_diag(&self) -> (r: NativeHostDiagnostic)
        ensures
            diag_view(r) == diag_view(*self),
    {
        NativeHostDiagnostic {
            path: self.path.clone(),
            severity: self.severity.clone(),
            message: self.message.clone(),
            code: self.code,
        }
    }
}

fn text_contains(text: &String, lit: &str) -> (r: bool)
    ensures
        r == crate::text::contains_seq(text@, lit@),
{
    let t = to_chars(text.as_str());
    let p = to_chars(lit);
    crate::text::contains(t.as_slice(), p.as_slice())
}

/// The shell check: its schema, the shell that was checked, every
/// diagnostic and `failed` / `ready`.
#[derive(Debug, Clone)]
pub struct NativeShellCheckReport {
    pub schema: String,
    pub shell: NativeWebViewShellManifest,
    pub diagnostics: Vec<NativeHostDiagnostic>,
    pub status: String,
}

/// The diagnostics of a shell foul fixture: its rules when it parsed, else
/// one error when its text names platform-private semantics.
pub open spec fn shell_foul_diags(foul: FoulFixture<NativeWebViewShellManifest>, proto: ShellProtocol, found: ShellArtifacts) -> Seq<
    (Seq<char>, Seq<char>, Seq<char>, Option<NativeDiagCode>),
> {
    match foul {
        FoulFixture::Absent => Seq::empty(),
        FoulFixture::Parsed(bad) => shell_diags(bad, proto, found),
        FoulFixture::Unparsed(text) => error_if(
            crate::text::contains_seq(text@, "ios.private"@) || crate::text::contains_seq(text@, "androidOnlySemantics"@),
            "native-shell.fork.foul.json"@,
            "platform-private shell semantics are forbidden"@,
            NativeDiagCode::PlatformSemanticFork,
        ),
    }
}

/// The WebView shell check over a loaded shell manifest (or the example
/// one), the diagnostics of loading it, and a foul fixture checked against
/// the same artifacts: the load diagnostics, the shell's, the fixture's;
/// `failed` when any is an error.
pub fn shell_check_report(
    check_schema: &String,
    shell: NativeWebViewShellManifest,
    proto: &ShellProtocol,
    found: ShellArtifacts,
    load_diags: Vec<NativeHostDiagnostic>,
    foul: FoulFixture<NativeWebViewShellManifest>,
) -> (r: NativeShellCheckReport)
    ensures
        r.schema@ == check_schema@,
        r.shell == shell,
        diags_view(r.diagnostics@) == diags_view(load_diags@) + shell_diags(shell, *proto, found) + shell_foul_diags(
            foul,
            *proto,
            found,
        ),
        r.status@ == if any_error(r.diagnostics@) {
            "failed"@
        } else {
            "ready"@
        },
{
    let mut diagnostics: Vec<NativeHostDiagnostic> = Vec::new();
    append_diags(&mut diagnostics, load_diags);
    validate_shell(&shell, proto, found, &mut diagnostics);
    let ghost before_foul = diags_view(diagnostics@);
    match &foul {
        FoulFixture::Absent => {},
        FoulFixture::Parsed(bad) => {
            validate_shell(bad, proto, found, &mut diagnostics);
        },
        FoulFixture::Unparsed(text) => {
            error_when(
                &mut diagnostics,
                text_contains(text, "ios.private") || text_contains(text, "androidOnlySemantics"),
                String::from_str("native-shell.fork.foul.json"),
                String::from_str("platform-private shell semantics are forbidden"),
                NativeDiagCode::PlatformSemanticFork,
            );
        },
    }
    proof {
        assert(diags_view(diagnostics@) =~= before_foul + shell_foul_diags(foul, *proto, found));
    }
    let status = check_status(&diagnostics);
    NativeShellCheckReport { schema: check_schema.clone(), shell, diagnostics, status }
}

/// The full-stack check: its schema, the profile that was checked, every
/// diagnostic and `failed` / `ready`.
#[derive(Debug, Clone)]
pub struct NativeFullstackCheckReport {
    pub schema: String,
    pub fullstack: NativeFullstackProfile,
    pub diagnostics: Vec<NativeHostDiagnostic>,
    pub status: String,
}

/// The diagnostics of a full-stack foul fixture: its rules when it parsed,
/// else one error when its text names a forbidden assumption.
pub open spec fn fullstack_foul_diags(foul: FoulFixture<NativeFullstackProfile>, schema: Seq<char>) -> Seq<
    (Seq<char>, Seq<char>, Seq<char>, Option<NativeDiagCode>),
> {
    match foul {
        FoulFixture::Absent => Seq::empty(),
        FoulFixture::Parsed(bad) => fullstack_diags(bad, schema),
        FoulFixture::Unparsed(text) => error_if(
            crate::text::contains_seq(text@, "bridgeBypassesServer"@) || crate::text::contains_seq(text@, "allowCleartext"@),
            "native-fullstack.foul.json"@,
            "forbidden fullstack assumptions in foul fixture"@,
            NativeDiagCode::BridgeBypassesServer,
        ),
    }
}

/// The full-stack check over a loaded profile (or the example one), the
/// diagnostics of loading it, and a foul fixture: the load diagnostics, the
/// profile's, the fixture's; `failed` when any is an error.
pub fn fullstack_check_report(
    check_schema: &String,
    fullstack_schema: &String,
    profile: NativeFullstackProfile,
    load_diags: Vec<NativeHostDiagnostic>,
    foul: FoulFixture<NativeFullstackProfile>,
) -> (r: NativeFullstackCheckReport)
    ensures
        r.schema@ == check_schema@,
        r.fullstack == profile,
        diags_view(r.diagnostics@) == diags_view(load_diags@) + fullstack_diags(profile, fullstack_schema@)
            + fullstack_foul_diags(foul, fullstack_schema@),
        r.status@ == if any_error(r.diagnostics@) {
            "failed"@
        } else {
            "ready"@
        },
{
    let mut diagnostics: Vec<NativeHostDiagnostic> = Vec::new();
    append_diags(&mut diagnostics, load_diags);
    validate_fullstack(&profile, fullstack_schema, &mut diagnostics);
    let ghost before_foul = diags_view(diagnostics@);
    match &foul {
        FoulFixture::Absent => {},
        FoulFixture::Parsed(bad) => {
            validate_fullstack(bad, fullstack_schema, &mut diagnostics);
        },
        FoulFixture::Unparsed(text) => {
            error_when(
                &mut diagnostics,
                text_contains(text, "bridgeBypassesServer") || text_contains(text, "allowCleartext"),
                String::from_str("native-fullstack.foul.json"),
                String::from_str("forbidden fullstack assumptions in foul fixture"),
                NativeDiagCode::BridgeBypassesServer,
            );
        },
    }
    proof {
        assert(diags_view(diagnostics@) =~= before_foul + fullstack_foul_diags(foul, fullstack_schema@));
    }
    let status = check_status(&diagnostics);
    NativeFullstackCheckReport { schema: check_schema.clone(), fullstack: profile, diagnostics, status }
}

// ---------------------------------------------------------------------------
// App lifecycle policy
// ---------------------------------------------------------------------------

#[derive(Debug, Clone)]
pub struct PersistencePolicy {
    pub enabled: bool,
    pub mode: String,
    pub reauth_on_restore: bool,
}

#[derive(Debug, Clone)]
pub struct UpdatePolicy {
    pub channel: String,
    pub rollback: String,
}

#[derive(Debug, Clone)]
pub struct OfflinePolicy {
    pub mode: String,
}

/// The app lifecycle policy of a NativeAppHost, as far as its rules read it.
#[derive(Debug, Clone)]
pub struct NativeAppLifecyclePolicy {
    pub schema: String,
    pub events: Vec<String>,
    pub background_equals_destroy: bool,
    pub crash_restore_assumes_js_heap: bool,
    pub persistence: PersistencePolicy,
    pub update: UpdatePolicy,
    pub offline: OfflinePolicy,
    pub dispose_regions_on_destroy: bool,
}

/// Background, crash and persistence rules, in order.
#[verifier::opaque]
pub open spec fn persistence_diags(p: NativeAppLifecyclePolicy) -> Seq<(Seq<char>, Seq<char>, Seq<char>, Option<NativeDiagCode>)> {
    error_if(
        p.background_equals_destroy,
        "backgroundEqualsDestroy"@,
        "background must not equal destroy — host must keep owned regions until destroy"@,
        NativeDiagCode::BackgroundIsDestroy,
    ) + error_if(
        p.crash_restore_assumes_js_heap,
        "crashRestoreAssumesJsHeap"@,
        "crash restore must not assume JS heap survives — require explicit persistence/reauth"@,
        NativeDiagCode::CrashAssumesJsHeap,
    ) + error_if(
        !p.persistence.enabled,
        "persistence"@,
        "NW3 requires explicit persistence policy (enabled)"@,
        NativeDiagCode::MissingPersistence,
    ) + error_if(
        blank(p.persistence.mode@),
        "persistence.mode"@,
        "persistence.mode required (e.g. capability_backed)"@,
        NativeDiagCode::MissingPersistence,
    ) + error_if(
        !p.persistence.reauth_on_restore,
        "persistence.reauthOnRestore"@,
        "crash/restore path must declare reauthOnRestore=true when credentials may be lost"@,
        NativeDiagCode::MissingPersistence,
    )
}

/// Update, offline and destroy rules, in order.
#[verifier::opaque]
pub open spec fn update_diags(p: NativeAppLifecyclePolicy) -> Seq<(Seq<char>, Seq<char>, Seq<char>, Option<NativeDiagCode>)> {
    error_if(blank(p.update.channel@), "update.channel"@, "update channel required"@, NativeDiagCode::MissingUpdatePolicy)
        + error_if(
        blank(p.update.rollback@),
        "update.rollback"@,
        "update rollback policy required"@,
        NativeDiagCode::MissingUpdatePolicy,
    ) + error_if(blank(p.offline.mode@), "offline.mode"@, "offline policy mode required"@, NativeDiagCode::MissingOfflinePolicy)
        + error_if(
        p.offline.mode@ == "none"@,
        "offline.mode"@,
        "offline.mode=none is not acceptable for NW3 local bundled host"@,
        NativeDiagCode::MissingOfflinePolicy,
    ) + error_if(
        !p.dispose_regions_on_destroy,
        "disposeRegionsOnDestroy"@,
        "destroy must dispose all owned regions"@,
        NativeDiagCode::MissingLifecycleEvent,
    )
}

/// Every rule of the lifecycle policy, in order: required events, then
/// background / crash / persistence, update / offline / destroy, and the
/// schema last.
pub open spec fn lifecycle_diags(p: NativeAppLifecyclePolicy, required_events: Seq<String>, schema: Seq<char>) -> Seq<
    (Seq<char>, Seq<char>, Seq<char>, Option<NativeDiagCode>),
> {
    missing_diags(required_events, p.events@, "events"@, "missing required lifecycle event "@, NativeDiagCode::MissingLifecycleEvent)
        + persistence_diags(p) + update_diags(p) + error_if(
        p.schema@ != schema,
        "schema"@,
        quoted("lifecycle schema must be "@, schema, ""@),
        NativeDiagCode::InvalidProfile,
    )
}

fn lifecycle_persistence(p: &NativeAppLifecyclePolicy, out: &mut Vec<NativeHostDiagnostic>)
    ensures
        diags_view(final(out)@) == diags_view(old(out)@) + persistence_diags(*p),
{
    reveal(persistence_diags);
    let ghost start = diags_view(out@);
    error_when(
        out,
        p.background_equals_destroy,
        String::from_str("backgroundEqualsDestroy"),
        String::from_str("background must not equal destroy — host must keep owned regions until destroy"),
        NativeDiagCode::BackgroundIsDestroy,
    );
    error_when(
        out,
        p.crash_restore_assumes_js_heap,
        String::from_str("crashRestoreAssumesJsHeap"),
        String::from_str("crash restore must not assume JS heap survives — require explicit persistence/reauth"),
        NativeDiagCode::CrashAssumesJsHeap,
    );
    error_when(
        out,
        !p.persistence.enabled,
        String::from_str("persistence"),
        String::from_str("NW3 requires explicit persistence policy (enabled)"),
        NativeDiagCode::MissingPersistence,
    );
    error_when(
        out,
        is_blank(&p.persistence.mode),
        String::from_str("persistence.mode"),
        String::from_str("persistence.mode required (e.g. capability_backed)"),
        NativeDiagCode::MissingPersistence,
    );
    error_when(
        out,
        !p.persistence.reauth_on_restore,
        String::from_str("persistence.reauthOnRestore"),
        String::from_str("crash/restore path must declare reauthOnRestore=true when credentials may be lost"),
        NativeDiagCode::MissingPersistence,
    );
    proof {
        assert(diags_view(out@) =~= start + persistence_diags(*p));
    }
}

fn lifecycle_update(p: &NativeAppLifecyclePolicy, out: &mut Vec<NativeHostDiagnostic>)
    ensures
        diags_view(final(out)@) == diags_view(old(out)@) + update_diags(*p),
{
    reveal(update_diags);
    let ghost start = diags_view(out@);
    error_when(
        out,
        is_blank(&p.update.channel),
        String::from_str("update.channel"),
        String::from_str("update channel required"),
        NativeDiagCode::MissingUpdatePolicy,
    );
    error_when(
        out,
        is_blank(&p.update.rollback),
        String::from_str("update.rollback"),
        String::from_str("update rollback policy required"),
        NativeDiagCode::MissingUpdatePolicy,
    );
    error_when(
        out,
        is_blank(&p.offline.mode),
        String::from_str("offline.mode"),
        String::from_str("offline policy mode required"),
        NativeDiagCode::MissingOfflinePolicy,
    );
    error_when(
        out,
        is_lit(&p.offline.mode, "none"),
        String::from_str("offline.mode"),
        String::from_str("offline.mode=none is not acceptable for NW3 local bundled host"),
        NativeDiagCode::MissingOfflinePolicy,
    );
    error_when(
        out,
        !p.dispose_regions_on_destroy,
        String::from_str("disposeRegionsOnDestroy"),
        String::from_str("destroy must dispose all owned regions"),
        NativeDiagCode::MissingLifecycleEvent,
    );
    proof {
        assert(diags_view(out@) =~= start + update_diags(*p));
    }
}

/// The lifecycle policy rules: every required event declared, background
/// is not destroy, crash restore does not assume the JS heap survives,
/// explicit persistence with re-auth on restore, update channel and
/// rollback, an offline mode other than `none`, regions disposed on
/// destroy, and the schema. Appends one error per broken rule, in that
/// order.
pub fn validate_lifecycle(
    p: &NativeAppLifecyclePolicy,
    required_events: &Vec<String>,
    lifecycle_schema: &String,
    out: &mut Vec<NativeHostDiagnostic>,
)
    ensures
        diags_view(final(out)@) == diags_view(old(out)@) + lifecycle_diags(*p, required_events@, lifecycle_schema@),
{
    let ghost start = diags_view(out@);
    missing_items(required_events, &p.events, "events", "missing required lifecycle event ", NativeDiagCode::MissingLifecycleEvent, out);
    lifecycle_persistence(p, out);
    lifecycle_update(p, out);
    error_when(
        out,
        !same_text(&p.schema, lifecycle_schema),
        String::from_str("schema"),
        quoted_exec("lifecycle schema must be ", lifecycle_schema.as_str(), ""),
        NativeDiagCode::InvalidProfile,
    );
    proof {
        assert(diags_view(out@) =~= start + lifecycle_diags(*p, required_events@, lifecycle_schema@));
    }
}

/// The lifecycle check: its schema, the policy that was checked, every
/// diagnostic and `failed` / `ready`.
#[derive(Debug, Clone)]
pub struct NativeLifecycleCheckReport {
    pub schema: String,
    pub lifecycle: NativeAppLifecyclePolicy,
    pub diagnostics: Vec<NativeHostDiagnostic>,
    pub status: String,
}

/// The diagnostics of a lifecycle foul fixture: its rules when it parsed,
/// else one error when its text names a forbidden assumption.
pub open spec fn lifecycle_foul_diags(foul: FoulFixture<NativeAppLifecyclePolicy>, required_events: Seq<String>, schema: Seq<char>) -> Seq<
    (Seq<char>, Seq<char>, Seq<char>, Option<NativeDiagCode>),
> {
    match foul {
        FoulFixture::Absent => Seq::empty(),
        FoulFixture::Parsed(bad) => lifecycle_diags(bad, required_events, schema),
        FoulFixture::Unparsed(text) => error_if(
            crate::text::contains_seq(text@, "backgroundEqualsDestroy"@) || crate::text::contains_seq(
                text@,
                "crashRestoreAssumesJsHeap"@,
            ),
            "native-lifecycle.foul.json"@,
            "forbidden lifecycle assumptions in foul fixture"@,
            NativeDiagCode::BackgroundIsDestroy,
        ),
    }
}

/// The lifecycle check over a loaded policy (or the example one), the
/// diagnostics of loading it, and a foul fixture: the load diagnostics, the
/// policy's, the fixture's; `failed` when any is an error.
pub fn lifecycle_check_report(
    check_schema: &String,
    lifecycle_schema: &String,
    required_events: &Vec<String>,
    policy: NativeAppLifecyclePolicy,
    load_diags: Vec<NativeHostDiagnostic>,
    foul: FoulFixture<NativeAppLifecyclePolicy>,
) -> (r: NativeLifecycleCheckReport)
    ensures
        r.schema@ == check_schema@,
        r.lifecycle == policy,
        diags_view(r.diagnostics@) == diags_view(load_diags@) + lifecycle_diags(policy, required_events@, lifecycle_schema@)
            + lifecycle_foul_diags(foul, required_events@, lifecycle_schema@),
        r.status@ == if any_error(r.diagnostics@) {
            "failed"@
        } else {
            "ready"@
        },
{
    let mut diagnostics: Vec<NativeHostDiagnostic> = Vec::new();
    append_diags(&mut diagnostics, load_diags);
    validate_lifecycle(&policy, required_events, lifecycle_schema, &mut diagnostics);
    let ghost before_foul = diags_view(diagnostics@);
    match &foul {
        FoulFixture::Absent => {},
        FoulFixture::Parsed(bad) => {
            validate_lifecycle(bad, required_events, lifecycle_schema, &mut diagnostics);
        },
        FoulFixture::Unparsed(text) => {
            error_when(
                &mut diagnostics,
                text_contains(text, "backgroundEqualsDestroy") || text_contains(text, "crashRestoreAssumesJsHeap"),
                String::from_str("native-lifecycle.foul.json"),
                String::from_str("forbidden lifecycle assumptions in foul fixture"),
                NativeDiagCode::BackgroundIsDestroy,
            );
        },
    }
    proof {
        assert(diags_view(diagnostics@) =~= before_foul + lifecycle_foul_diags(foul, required_events@, lifecycle_schema@));
    }
    let status = check_status(&diagnostics);
    NativeLifecycleCheckReport { schema: check_schema.clone(), lifecycle: policy, diagnostics, status }
}

// ---------------------------------------------------------------------------
// Native surface
// ---------------------------------------------------------------------------

#[derive(Debug, Clone)]
pub struct SurfaceBoundary {
    pub serializable: bool,
    pub schema_version: String,
}

/// A native surface manifest, as far as its rules read it.
#[derive(Debug, Clone)]
pub struct NativeSurfaceManifest {
    pub schema: String,
    pub surface_id: String,
    /// `camera` | `map` | `video`
    pub kind: String,
    pub owner_region_id: String,
    pub lifetime: String,
    pub dispose_on_owner_destroy: bool,
    pub shares_implicit_webview_state: bool,
    pub confused_with_capability: bool,
    pub is_semantic_truth_source: bool,
    pub plan_schema: String,
    pub reuses_view_operations: bool,
    pub boundary: SurfaceBoundary,
}

/// Schema, surface id and kind rules, in order.
#[verifier::opaque]
pub open spec fn surface_id_diags(m: NativeSurfaceManifest, schema: Seq<char>) -> Seq<(Seq<char>, Seq<char>, Seq<char>, Option<NativeDiagCode>)> {
    let k = m.kind@;
    error_if(m.schema@ != schema, "schema"@, quoted("native surface schema must be "@, schema, ""@), NativeDiagCode::InvalidProfile)
        + error_if(blank(m.surface_id@), "surfaceId"@, "NativeSurfaceId required"@, NativeDiagCode::MissingSurfaceId)
        + error_if(
        blank(k) || !(k == "camera"@ || k == "map"@ || k == "video"@),
        "kind"@,
        quoted("NW5 high-value surface kind must be camera|map|video, got "@, k, ""@),
        NativeDiagCode::InvalidProfile,
    )
}

/// Owner region and lifetime rules, in order.
#[verifier::opaque]
pub open spec fn surface_owner_rules(m: NativeSurfaceManifest) -> Seq<(Seq<char>, Seq<char>, Seq<char>, Option<NativeDiagCode>)> {
    error_if(
        blank(m.owner_region_id@),
        "ownerRegionId"@,
        "NativeSurface must declare owner RegionId"@,
        NativeDiagCode::MissingOwnerRegion,
    ) + error_if(
        blank(m.lifetime@),
        "lifetime"@,
        "NativeSurface lifetime required (e.g. bound_to_region)"@,
        NativeDiagCode::MissingSurfaceLifetime,
    ) + error_if(
        !m.dispose_on_owner_destroy,
        "disposeOnOwnerDestroy"@,
        "NativeSurface must dispose when owner region destroys"@,
        NativeDiagCode::MissingSurfaceLifetime,
    )
}

/// Implicit state, capability and semantic truth rules, in order.
#[verifier::opaque]
pub open spec fn surface_share_diags(m: NativeSurfaceManifest) -> Seq<(Seq<char>, Seq<char>, Seq<char>, Option<NativeDiagCode>)> {
    error_if(
        m.shares_implicit_webview_state,
        "sharesImplicitWebViewState"@,
        "WebView and NativeSurface must not share implicit state objects"@,
        NativeDiagCode::ImplicitStateShare,
    ) + error_if(
        m.confused_with_capability,
        "confusedWithCapability"@,
        "NativeSurface ≠ NativeBacked capability (e.g. camera.preview ≠ camera.capture)"@,
        NativeDiagCode::SurfaceIsCapability,
    ) + error_if(
        m.is_semantic_truth_source,
        "isSemanticTruthSource"@,
        "NativeSurface must not become semantic truth — VPG/Plan remain sole semantic IR"@,
        NativeDiagCode::SurfaceIsSemanticTruth,
    )
}

/// Execution Plan, View Operations and boundary rules, in order.
#[verifier::opaque]
pub open spec fn surface_plan_diags(m: NativeSurfaceManifest) -> Seq<(Seq<char>, Seq<char>, Seq<char>, Option<NativeDiagCode>)> {
    error_if(
        m.plan_schema@ != "vmz.plan.v0"@,
        "planSchema"@,
        "NativeSurface must lower from same Execution Plan (vmz.plan.v0)"@,
        NativeDiagCode::SurfaceIsSemanticTruth,
    ) + error_if(
        !m.reuses_view_operations,
        "reusesViewOperations"@,
        "NativeSurface driver must consume target-neutral View Operations only"@,
        NativeDiagCode::SurfaceIsSemanticTruth,
    ) + error_if(
        !m.boundary.serializable || blank(m.boundary.schema_version@),
        "boundary"@,
        "cross-boundary data must be serializable + versioned"@,
        NativeDiagCode::ImplicitStateShare,
    )
}

/// Every rule of a native surface manifest, in order.
pub open spec fn surface_diags(m: NativeSurfaceManifest, schema: Seq<char>) -> Seq<
    (Seq<char>, Seq<char>, Seq<char>, Option<NativeDiagCode>),
> {
    surface_id_diags(m, schema) + surface_owner_rules(m) + surface_share_diags(m) + surface_plan_diags(m)
}

fn surface_id(m: &NativeSurfaceManifest, schema: &String, out: &mut Vec<NativeHostDiagnostic>)
    ensures
        diags_view(final(out)@) == diags_view(old(out)@) + surface_id_diags(*m, schema@),
{
    reveal(surface_id_diags);
    let ghost start = diags_view(out@);
    error_when(
        out,
        !same_text(&m.schema, schema),
        String::from_str("schema"),
        quoted_exec("native surface schema must be ", schema.as_str(), ""),
        NativeDiagCode::InvalidProfile,
    );
    error_when(
        out,
        is_blank(&m.surface_id),
        String::from_str("surfaceId"),
        String::from_str("NativeSurfaceId required"),
        NativeDiagCode::MissingSurfaceId,
    );
    let known = is_lit(&m.kind, "camera") || is_lit(&m.kind, "map") || is_lit(&m.kind, "video");
    error_when(
        out,
        is_blank(&m.kind) || !known,
        String::from_str("kind"),
        quoted_exec("NW5 high-value surface kind must be camera|map|video, got ", m.kind.as_str(), ""),
        NativeDiagCode::InvalidProfile,
    );
    proof {
        assert(diags_view(out@) =~= start + surface_id_diags(*m, schema@));
    }
}

fn surface_owner(m: &NativeSurfaceManifest, out: &mut Vec<NativeHostDiagnostic>)
    ensures
        diags_view(final(out)@) == diags_view(old(out)@) + surface_owner_rules(*m),
{
    reveal(surface_owner_rules);
    let ghost start = diags_view(out@);
    error_when(
        out,
        is_blank(&m.owner_region_id),
        String::from_str("ownerRegionId"),
        String::from_str("NativeSurface must declare owner RegionId"),
        NativeDiagCode::MissingOwnerRegion,
    );
    error_when(
        out,
        is_blank(&m.lifetime),
        String::from_str("lifetime"),
        String::from_str("NativeSurface lifetime required (e.g. bound_to_region)"),
        NativeDiagCode::MissingSurfaceLifetime,
    );
    error_when(
        out,
        !m.dispose_on_owner_destroy,
        String::from_str("disposeOnOwnerDestroy"),
        String::from_str("NativeSurface must dispose when owner region destroys"),
        NativeDiagCode::MissingSurfaceLifetime,
    );
    proof {
        assert(diags_view(out@) =~= start + surface_owner_rules(*m));
    }
}

fn surface_share(m: &NativeSurfaceManifest, out: &mut Vec<NativeHostDiagnostic>)
    ensures
        diags_view(final(out)@) == diags_view(old(out)@) + surface_share_diags(*m),
{
    reveal(surface_share_diags);
    let ghost start = diags_view(out@);
    error_when(
        out,
        m.shares_implicit_webview_state,
        String::from_str("sharesImplicitWebViewState"),
        String::from_str("WebView and NativeSurface must not share implicit state objects"),
        NativeDiagCode::ImplicitStateShare,
    );
    error_when(
        out,
        m.confused_with_capability,
        String::from_str("confusedWithCapability"),
        String::from_str("NativeSurface ≠ NativeBacked capability (e.g. camera.preview ≠ camera.capture)"),
        NativeDiagCode::SurfaceIsCapability,
    );
    error_when(
        out,
        m.is_semantic_truth_source,
        String::from_str("isSemanticTruthSource"),
        String::from_str("NativeSurface must not become semantic truth — VPG/Plan remain sole semantic IR"),
        NativeDiagCode::SurfaceIsSemanticTruth,
    );
    proof {
        assert(diags_view(out@) =~= start + surface_share_diags(*m));
    }
}

fn surface_plan(m: &NativeSurfaceManifest, out: &mut Vec<NativeHostDiagnostic>)
    ensures
        diags_view(final(out)@) == diags_view(old(out)@) + surface_plan_diags(*m),
{
    reveal(surface_plan_diags);
    let ghost start = diags_view(out@);
    error_when(
        out,
        !is_lit(&m.plan_schema, "vmz.plan.v0"),
        String::from_str("planSchema"),
        String::from_str("NativeSurface must lower from same Execution Plan (vmz.plan.v0)"),
        NativeDiagCode::SurfaceIsSemanticTruth,
    );
    error_when(
        out,
        !m.reuses_view_operations,
        String::from_str("reusesViewOperations"),
        String::from_str("NativeSurface driver must consume target-neutral View Operations only"),
        NativeDiagCode::SurfaceIsSemanticTruth,
    );
    error_when(
        out,
        !m.boundary.serializable || is_blank(&m.boundary.schema_version),
        String::from_str("boundary"),
        String::from_str("cross-boundary data must be serializable + versioned"),
        NativeDiagCode::ImplicitStateShare,
    );
    proof {
        assert(diags_view(out@) =~= start + surface_plan_diags(*m));
    }
}

/// The native surface rules: schema, surface id, a high-value kind, an
/// owner region, a lifetime bound to it with disposal, no implicit WebView
/// state, not a capability, not semantic truth (same Execution Plan, View
/// Operations only), and a serializable, versioned boundary. Appends one
/// error per broken rule, in that order.
pub fn validate_surface(m: &NativeSurfaceManifest, surface_schema: &String, out: &mut Vec<NativeHostDiagnostic>)
    ensures
        diags_view(final(out)@) == diags_view(old(out)@) + surface_diags(*m, surface_schema@),
{
    let ghost start = diags_view(out@);
    surface_id(m, surface_schema, out);
    surface_owner(m, out);
    surface_share(m, out);
    surface_plan(m, out);
    proof {
        assert(diags_view(out@) =~= start + surface_diags(*m, surface_schema@));
    }
}

/// The surface check: its schema, the manifest that was checked, every
/// diagnostic and `failed` / `ready`.
#[derive(Debug, Clone)]
pub struct NativeSurfaceCheckReport {
    pub schema: String,
    pub surface: NativeSurfaceManifest,
    pub diagnostics: Vec<NativeHostDiagnostic>,
    pub status: String,
}

/// The diagnostics of a surface foul fixture: its rules when it parsed, else
/// one error when its text names a forbidden assumption.
pub open spec fn surface_foul_diags(foul: FoulFixture<NativeSurfaceManifest>, schema: Seq<char>) -> Seq<
    (Seq<char>, Seq<char>, Seq<char>, Option<NativeDiagCode>),
> {
    match foul {
        FoulFixture::Absent => Seq::empty(),
        FoulFixture::Parsed(bad) => surface_diags(bad, schema),
        FoulFixture::Unparsed(text) => error_if(
            crate::text::contains_seq(text@, "sharesImplicitWebViewState"@) || crate::text::contains_seq(
                text@,
                "isSemanticTruthSource"@,
            ),
            "native-surface.foul.json"@,
            "forbidden NativeSurface assumptions in foul fixture"@,
            NativeDiagCode::ImplicitStateShare,
        ),
    }
}

/// The surface check over a loaded manifest (or the example one), the
/// diagnostics of loading it, and a foul fixture: the load diagnostics, the
/// manifest's, the fixture's; `failed` when any is an error.
pub fn surface_check_report(
    check_schema: &String,
    surface_schema: &String,
    surface: NativeSurfaceManifest,
    load_diags: Vec<NativeHostDiagnostic>,
    foul: FoulFixture<NativeSurfaceManifest>,
) -> (r: NativeSurfaceCheckReport)
    ensures
        r.schema@ == check_schema@,
        r.surface == surface,
        diags_view(r.diagnostics@) == diags_view(load_diags@) + surface_diags(surface, surface_schema@) + surface_foul_diags(
            foul,
            surface_schema@,
        ),
        r.status@ == if any_error(r.diagnostics@) {
            "failed"@
        } else {
            "ready"@
        },
{
    let mut diagnostics: Vec<NativeHostDiagnostic> = Vec::new();
    append_diags(&mut diagnostics, load_diags);
    validate_surface(&surface, surface_schema, &mut diagnostics);
    let ghost before_foul = diags_view(diagnostics@);
    match &foul {
        FoulFixture::Absent => {},
        FoulFixture::Parsed(bad) => {
            validate_surface(bad, surface_schema, &mut diagnostics);
        },
        FoulFixture::Unparsed(text) => {
            error_when(
                &mut diagnostics,
                text_contains(text, "sharesImplicitWebViewState") || text_contains(text, "isSemanticTruthSource"),
                String::from_str("native-surface.foul.json"),
                String::from_str("forbidden NativeSurface assumptions in foul fixture"),
                NativeDiagCode::ImplicitStateShare,
            );
        },
    }
    proof {
        assert(diags_view(diagnostics@) =~= before_foul + surface_foul_diags(foul, surface_schema@));
    }
    let status = check_status(&diagnostics);
    NativeSurfaceCheckReport { schema: check_schema.clone(), surface, diagnostics, status }
}

// ---------------------------------------------------------------------------
// WebView deployment profile and typed bridge
// ---------------------------------------------------------------------------

/// One error at `path` per forbidden pattern that `text` holds, in order.
pub open spec fn scan_diags(path: Seq<char>, text: Seq<char>, patterns: Seq<String>, tail: Seq<char>) -> Seq<
    (Seq<char>, Seq<char>, Seq<char>, Option<NativeDiagCode>),
>
    decreases patterns.len(),
{
    if patterns.len() == 0 {
        Seq::empty()
    } else {
        let pat = patterns.last()@;
        scan_diags(path, text, patterns.drop_last(), tail) + error_if(
            crate::text::contains_seq(text, pat),
            path,
            quoted("forbidden arbitrary bridge pattern "@, pat, tail),
            NativeDiagCode::ArbitraryBridge,
        )
    }
}

/// How a forbidden pattern diagnostic of a profile ends.
pub const VERSIONED_CALLS_ONLY: &'static str = " — use versioned NativeCapability calls only";

/// How a forbidden pattern diagnostic of the typed bridge ends.
pub const TYPED_CALLS_ONLY: &'static str = " — use typed NativeCapabilityCall only";

fn scan_patterns(path: &str, text: &str, patterns: &Vec<String>, tail: &str, out: &mut Vec<NativeHostDiagnostic>)
    ensures
        diags_view(final(out)@) == diags_view(old(out)@) + scan_diags(path@, text@, patterns@, tail@),
{
    let ghost start = diags_view(out@);
    let t = to_chars(text);
    let mut i: usize = 0;
    proof {
        assert(patterns@.take(0) =~= Seq::<String>::empty());
        assert(diags_view(out@) =~= start + scan_diags(path@, text@, patterns@.take(0), tail@));
    }
    while i < patterns.len()
        invariant
            i <= patterns.len(),
            t@ == text@,
            diags_view(out@) == start + scan_diags(path@, text@, patterns@.take(i as int), tail@),
        decreases patterns.len() - i,
    {
        let pat = &patterns[i];
        let pv = to_chars(pat.as_str());
        error_when(
            out,
            crate::text::contains(t.as_slice(), pv.as_slice()),
            String::from_str(path),
            quoted_exec("forbidden arbitrary bridge pattern ", pat.as_str(), tail),
            NativeDiagCode::ArbitraryBridge,
        );
        proof {
            assert(patterns@.take(i + 1).drop_last() =~= patterns@.take(i as int));
            assert(patterns@.take(i + 1).last() == patterns@[i as int]);
            assert(diags_view(out@) =~= start + scan_diags(path@, text@, patterns@.take(i + 1), tail@));
        }
        i = i + 1;
    }
    proof {
        assert(patterns@.take(patterns.len() as int) =~= patterns@);
    }
}

/// Scan bridge or profile text for the forbidden arbitrary-injection
/// patterns: one error at `path` per pattern found, in pattern order.
pub fn scan_bridge_text_for_arbitrary(path: &str, text: &str, patterns: &Vec<String>, out: &mut Vec<NativeHostDiagnostic>)
    ensures
        diags_view(final(out)@) == diags_view(old(out)@) + scan_diags(path@, text@, patterns@, VERSIONED_CALLS_ONLY@),
{
    scan_patterns(path, text, patterns, VERSIONED_CALLS_ONLY, out);
}

#[derive(Debug, Clone)]
pub struct BridgePolicy {
    pub require_allowlist: bool,
    pub capability_ids: Vec<String>,
    /// `typed_capability`
    pub mode: String,
}

#[derive(Debug, Clone)]
pub struct NativeCapability {
    pub id: String,
    /// `PureWeb` | `NativeBacked` | `NativeSurface` | `ServerBacked` | `Unsupported`
    pub capability_class: String,
}

/// The WebView deployment profile, as far as its rules read it.
#[derive(Debug, Clone)]
pub struct WebViewDeploymentProfile {
    pub identity: ShellIdentity,
    pub reuses_browser_lowering: bool,
    /// `local` | `hybrid` | `remote`
    pub asset_mode: String,
    pub bridge: BridgePolicy,
    pub capabilities: Vec<NativeCapability>,
}

/// Identity, lowering and remote asset rules, in order.
#[verifier::opaque]
pub open spec fn profile_head_diags(p: WebViewDeploymentProfile) -> Seq<(Seq<char>, Seq<char>, Seq<char>, Option<NativeDiagCode>)> {
    error_if(
        blank(p.identity.application_id@) || blank(p.identity.origin@),
        "identity"@,
        "WebViewDeploymentProfile requires applicationId + origin"@,
        NativeDiagCode::MissingIdentity,
    ) + error_if(
        !p.reuses_browser_lowering,
        "reusesBrowserLowering"@,
        "WebView must reuse Browser lowering (no second View IR)"@,
        NativeDiagCode::InvalidProfile,
    ) + error_if(
        p.asset_mode@ == "remote"@,
        "assetMode"@,
        "assetMode=remote must not be the silent default for NW0; use local/hybrid with integrity"@,
        NativeDiagCode::RemoteUrlDefault,
    )
}

/// Asset mode, allowlist and bridge mode rules, in order.
#[verifier::opaque]
pub open spec fn profile_bridge_diags(p: WebViewDeploymentProfile) -> Seq<(Seq<char>, Seq<char>, Seq<char>, Option<NativeDiagCode>)> {
    let m = p.asset_mode@;
    error_if(
        !(m == "local"@ || m == "hybrid"@ || m == "remote"@),
        "assetMode"@,
        quoted("unknown assetMode "@, m, ""@),
        NativeDiagCode::InvalidProfile,
    ) + error_if(
        !p.bridge.require_allowlist || p.bridge.capability_ids.len() == 0,
        "bridge"@,
        "typed bridge requires non-empty capability allowlist"@,
        NativeDiagCode::MissingAllowlist,
    ) + error_if(
        p.bridge.mode@ != "typed_capability"@,
        "bridge.mode"@,
        "bridge.mode must be typed_capability"@,
        NativeDiagCode::ArbitraryBridge,
    )
}

/// A known capability class.
pub open spec fn known_class(c: Seq<char>) -> bool {
    c == "PureWeb"@ || c == "NativeBacked"@ || c == "NativeSurface"@ || c == "ServerBacked"@ || c == "Unsupported"@
}

/// The rules of one capability: a known class, not `Unsupported`, in the
/// bridge allowlist.
pub open spec fn capability_diags(cap: NativeCapability, allow: Seq<String>) -> Seq<
    (Seq<char>, Seq<char>, Seq<char>, Option<NativeDiagCode>),
> {
    let id = cap.id@;
    let class = cap.capability_class@;
    error_if(!known_class(class), id, quoted("unknown capabilityClass "@, class, ""@), NativeDiagCode::UnsupportedCapability)
        + error_if(
        class == "Unsupported"@,
        id,
        quoted("capability "@, id, " is Unsupported on this profile"@),
        NativeDiagCode::UnsupportedCapability,
    ) + error_if(
        !texts(allow).contains(id),
        id,
        quoted("capability "@, id, " not in bridge allowlist"@),
        NativeDiagCode::MissingAllowlist,
    )
}

/// The rules of each capability, in order.
pub open spec fn capabilities_diags(caps: Seq<NativeCapability>, allow: Seq<String>) -> Seq<
    (Seq<char>, Seq<char>, Seq<char>, Option<NativeDiagCode>),
>
    decreases caps.len(),
{
    if caps.len() == 0 {
        Seq::empty()
    } else {
        capabilities_diags(caps.drop_last(), allow) + capability_diags(caps.last(), allow)
    }
}

/// Every rule of a WebView deployment profile, in order, ending with the
/// forbidden-pattern scan of its serialized form `profile_json`.
pub open spec fn profile_diags(p: WebViewDeploymentProfile, profile_json: Seq<char>, patterns: Seq<String>) -> Seq<
    (Seq<char>, Seq<char>, Seq<char>, Option<NativeDiagCode>),
> {
    profile_head_diags(p) + profile_bridge_diags(p) + capabilities_diags(p.capabilities@, p.bridge.capability_ids@) + scan_diags(
        "webviewDeployment"@,
        profile_json,
        patterns,
        VERSIONED_CALLS_ONLY@,
    )
}

fn profile_head(p: &WebViewDeploymentProfile, out: &mut Vec<NativeHostDiagnostic>)
    ensures
        diags_view(final(out)@) == diags_view(old(out)@) + profile_head_diags(*p),
{
    reveal(profile_head_diags);
    let ghost start = diags_view(out@);
    error_when(
        out,
        is_blank(&p.identity.application_id) || is_blank(&p.identity.origin),
        String::from_str("identity"),
        String::from_str("WebViewDeploymentProfile requires applicationId + origin"),
        NativeDiagCode::MissingIdentity,
    );
    error_when(
        out,
        !p.reuses_browser_lowering,
        String::from_str("reusesBrowserLowering"),
        String::from_str("WebView must reuse Browser lowering (no second View IR)"),
        NativeDiagCode::InvalidProfile,
    );
    error_when(
        out,
        is_lit(&p.asset_mode, "remote"),
        String::from_str("assetMode"),
        String::from_str("assetMode=remote must not be the silent default for NW0; use local/hybrid with integrity"),
        NativeDiagCode::RemoteUrlDefault,
    );
    proof {
        assert(diags_view(out@) =~= start + profile_head_diags(*p));
    }
}

fn profile_bridge(p: &WebViewDeploymentProfile, out: &mut Vec<NativeHostDiagnostic>)
    ensures
        diags_view(final(out)@) == diags_view(old(out)@) + profile_bridge_diags(*p),
{
    reveal(profile_bridge_diags);
    let ghost start = diags_view(out@);
    let known = is_lit(&p.asset_mode, "local") || is_lit(&p.asset_mode, "hybrid") || is_lit(&p.asset_mode, "remote");
    error_when(
        out,
        !known,
        String::from_str("assetMode"),
        quoted_exec("unknown assetMode ", p.asset_mode.as_str(), ""),
        NativeDiagCode::InvalidProfile,
    );
    error_when(
        out,
        !p.bridge.require_allowlist || p.bridge.capability_ids.len() == 0,
        String::from_str("bridge"),
        String::from_str("typed bridge requires non-empty capability allowlist"),
        NativeDiagCode::MissingAllowlist,
    );
    error_when(
        out,
        !is_lit(&p.bridge.mode, "typed_capability"),
        String::from_str("bridge.mode"),
        String::from_str("bridge.mode must be typed_capability"),
        NativeDiagCode::ArbitraryBridge,
    );
    proof {
        assert(diags_view(out@) =~= start + profile_bridge_diags(*p));
    }
}

fn check_capability(cap: &NativeCapability, allow: &Vec<String>, out: &mut Vec<NativeHostDiagnostic>)
    ensures
        diags_view(final(out)@) == diags_view(old(out)@) + capability_diags(*cap, allow@),
{
    let ghost start = diags_view(out@);
    let c = &cap.capability_class;
    let known = is_lit(c, "PureWeb") || is_lit(c, "NativeBacked") || is_lit(c, "NativeSurface") || is_lit(c, "ServerBacked")
        || is_lit(c, "Unsupported");
    error_when(
        out,
        !known,
        cap.id.clone(),
        quoted_exec("unknown capabilityClass ", c.as_str(), ""),
        NativeDiagCode::UnsupportedCapability,
    );
    error_when(
        out,
        is_lit(c, "Unsupported"),
        cap.id.clone(),
        quoted_exec("capability ", cap.id.as_str(), " is Unsupported on this profile"),
        NativeDiagCode::UnsupportedCapability,
    );
    let idv = to_chars(cap.id.as_str());
    error_when(
        out,
        !texts_contain(allow, idv.as_slice()),
        cap.id.clone(),
        quoted_exec("capability ", cap.id.as_str(), " not in bridge allowlist"),
        NativeDiagCode::MissingAllowlist,
    );
    proof {
        assert(diags_view(out@) =~= start + capability_diags(*cap, allow@));
    }
}

fn check_capabilities(caps: &Vec<NativeCapability>, allow: &Vec<String>, out: &mut Vec<NativeHostDiagnostic>)
    ensures
        diags_view(final(out)@) == diags_view(old(out)@) + capabilities_diags(caps@, allow@),
{
    let ghost start = diags_view(out@);
    let mut i: usize = 0;
    proof {
        assert(caps@.take(0) =~= Seq::<NativeCapability>::empty());
        assert(diags_view(out@) =~= start + capabilities_diags(caps@.take(0), allow@));
    }
    while i < caps.len()
        invariant
            i <= caps.len(),
            diags_view(out@) == start + capabilities_diags(caps@.take(i as int), allow@),
        decreases caps.len() - i,
    {
        check_capability(&caps[i], allow, out);
        proof {
            assert(caps@.take(i + 1).drop_last() =~= caps@.take(i as int));
            assert(caps@.take(i + 1).last() == caps@[i as int]);
            assert(diags_view(out@) =~= start + capabilities_diags(caps@.take(i + 1), allow@));
        }
        i = i + 1;
    }
    proof {
        assert(caps@.take(caps.len() as int) =~= caps@);
    }
}

/// The WebView deployment profile rules: identity, Browser lowering, no
/// silent remote asset mode, a known asset mode, a non-empty allowlist for a
/// `typed_capability` bridge, each capability of a known class, supported
/// and allow-listed, and no forbidden pattern in the serialized profile
/// `profile_json`. Appends one error per broken rule, in that order.
pub fn validate_profile(
    p: &WebViewDeploymentProfile,
    profile_json: &str,
    patterns: &Vec<String>,
    out: &mut Vec<NativeHostDiagnostic>,
)
    ensures
        diags_view(final(out)@) == diags_view(old(out)@) + profile_diags(*p, profile_json@, patterns@),
{
    let ghost start = diags_view(out@);
    profile_head(p, out);
    profile_bridge(p, out);
    check_capabilities(&p.capabilities, &p.bridge.capability_ids, out);
    scan_bridge_text_for_arbitrary("webviewDeployment", profile_json, patterns, out);
    proof {
        assert(diags_view(out@) =~= start + profile_diags(*p, profile_json@, patterns@));
    }
}

/// What a parsed bridge candidate shows: a `window.native` key, and its
/// `mode` when that is a string.
#[derive(Debug, Clone)]
pub struct BridgeCandidate {
    pub has_window_native: bool,
    pub mode: Option<String>,
}

/// The diagnostics of a bridge candidate: the pattern scan of its text,
/// then (when it parsed) one error for an arbitrary injection mode.
pub open spec fn candidate_diags(text: Seq<char>, patterns: Seq<String>, parsed: Option<BridgeCandidate>) -> Seq<
    (Seq<char>, Seq<char>, Seq<char>, Option<NativeDiagCode>),
> {
    scan_diags("bridge_candidate"@, text, patterns, VERSIONED_CALLS_ONLY@) + match parsed {
        Some(c) => error_if(
            c.has_window_native || (c.mode matches Some(m) && m@ == "arbitrary"@),
            "bridge_candidate"@,
            "bridge candidate uses arbitrary injection mode"@,
            NativeDiagCode::ArbitraryBridge,
        ),
        None => Seq::empty(),
    }
}

/// Check an arbitrary JSON bridge candidate: its text `text` and, when it
/// parsed as JSON, what the parse showed.
pub fn check_bridge_candidate_json(text: &str, patterns: &Vec<String>, parsed: Option<BridgeCandidate>) -> (r: Vec<NativeHostDiagnostic>)
    ensures
        diags_view(r@) == candidate_diags(text@, patterns@, parsed),
{
    let mut out: Vec<NativeHostDiagnostic> = Vec::new();
    scan_bridge_text_for_arbitrary("bridge_candidate", text, patterns, &mut out);
    let ghost after_scan = diags_view(out@);
    match &parsed {
        Some(c) => {
            let arbitrary = match &c.mode {
                Some(m) => is_lit(m, "arbitrary"),
                None => false,
            };
            error_when(
                &mut out,
                c.has_window_native || arbitrary,
                String::from_str("bridge_candidate"),
                String::from_str("bridge candidate uses arbitrary injection mode"),
                NativeDiagCode::ArbitraryBridge,
            );
        },
        None => {},
    }
    proof {
        assert(diags_view(out@) =~= candidate_diags(text@, patterns@, parsed));
    }
    out
}

/// The NativeAppHost check: its schema, the profile that was checked, every
/// diagnostic and `failed` / `ready`.
#[derive(Debug, Clone)]
pub struct NativeHostCheckReport {
    pub schema: String,
    pub webview_deployment: WebViewDeploymentProfile,
    pub diagnostics: Vec<NativeHostDiagnostic>,
    pub status: String,
}

/// The NativeAppHost check over a loaded profile (or the example one) and
/// its serialized form, the diagnostics of loading it, and the text of a
/// bridge foul fixture when there is one: the load diagnostics, the
/// profile's, the fixture's pattern scan; `failed` when any is an error.
pub fn native_host_check_report(
    check_schema: &String,
    profile: WebViewDeploymentProfile,
    profile_json: &str,
    patterns: &Vec<String>,
    load_diags: Vec<NativeHostDiagnostic>,
    foul_text: Option<String>,
) -> (r: NativeHostCheckReport)
    ensures
        r.schema@ == check_schema@,
        r.webview_deployment == profile,
        diags_view(r.diagnostics@) == diags_view(load_diags@) + profile_diags(profile, profile_json@, patterns@) + match foul_text {
            Some(t) => scan_diags("native-host.bridge.foul.json"@, t@, patterns@, VERSIONED_CALLS_ONLY@),
            None => Seq::empty(),
        },
        r.status@ == if any_error(r.diagnostics@) {
            "failed"@
        } else {
            "ready"@
        },
{
    let mut diagnostics: Vec<NativeHostDiagnostic> = Vec::new();
    append_diags(&mut diagnostics, load_diags);
    validate_profile(&profile, profile_json, patterns, &mut diagnostics);
    let ghost before_foul = diags_view(diagnostics@);
    match &foul_text {
        Some(t) => {
            scan_bridge_text_for_arbitrary("native-host.bridge.foul.json", t.as_str(), patterns, &mut diagnostics);
        },
        None => {},
    }
    proof {
        assert(diags_view(diagnostics@) =~= before_foul + match foul_text {
            Some(t) => scan_diags("native-host.bridge.foul.json"@, t@, patterns@, VERSIONED_CALLS_ONLY@),
            None => Seq::empty(),
        });
    }
    let status = check_status(&diagnostics);
    NativeHostCheckReport { schema: check_schema.clone(), webview_deployment: profile, diagnostics, status }
}

// ---------------------------------------------------------------------------
// Typed capability bridge
// ---------------------------------------------------------------------------

/// One stub of the bridge stub catalog.
#[derive(Debug, Clone)]
pub struct BridgeStub {
    pub id: String,
    pub capability_class: String,
    pub is_async: bool,
    pub cancellation: bool,
    pub trace: bool,
    pub permissions: Vec<String>,
}

/// The bridge stub catalog: its stubs and the allowlist.
#[derive(Debug, Clone)]
pub struct BridgeStubCatalog {
    pub stubs: Vec<BridgeStub>,
    pub allowlist: Vec<String>,
}

/// The trace of a capability call.
#[derive(Debug, Clone)]
pub struct CallTrace {
    pub correlation_id: String,
    pub redact_sensitive: bool,
}

/// One capability call envelope.
#[derive(Debug, Clone)]
pub struct NativeCapabilityCall {
    pub call_id: String,
    pub capability_id: String,
    pub origin: String,
    pub nonce: String,
    pub timeout_ms: u64,
    pub cancellation: bool,
    pub trace: CallTrace,
    pub permissions: Vec<String>,
}

/// The ids of the stubs.
pub open spec fn stub_ids(stubs: Seq<BridgeStub>) -> Seq<Seq<char>> {
    stubs.map_values(|s: BridgeStub| s.id@)
}

/// For each first-batch id: the stub must exist and be allow-listed.
pub open spec fn first_batch_diags(ids: Seq<String>, c: BridgeStubCatalog) -> Seq<
    (Seq<char>, Seq<char>, Seq<char>, Option<NativeDiagCode>),
>
    decreases ids.len(),
{
    if ids.len() == 0 {
        Seq::empty()
    } else {
        let id = ids.last()@;
        first_batch_diags(ids.drop_last(), c) + error_if(
            !stub_ids(c.stubs@).contains(id),
            "stubCatalog"@,
            quoted("missing first-batch stub "@, id, ""@),
            NativeDiagCode::UnknownStub,
        ) + error_if(
            !texts(c.allowlist@).contains(id),
            "stubCatalog.allowlist"@,
            quoted("first-batch stub "@, id, " not allowlisted"@),
            NativeDiagCode::CallNotAllowlisted,
        )
    }
}

/// The rules of one stub: NativeBacked, cancellable when async, traced,
/// with declared permissions.
pub open spec fn stub_diags(st: BridgeStub) -> Seq<(Seq<char>, Seq<char>, Seq<char>, Option<NativeDiagCode>)> {
    let id = st.id@;
    error_if(
        st.capability_class@ != "NativeBacked"@,
        id,
        quoted(quoted("NW2 first-batch stub "@, id, " must be NativeBacked, got "@), st.capability_class@, ""@),
        NativeDiagCode::UnknownStub,
    ) + error_if(
        st.is_async && !st.cancellation,
        id,
        quoted("async stub "@, id, " requires cancellation=true"@),
        NativeDiagCode::MissingCancel,
    ) + error_if(!st.trace, id, quoted("stub "@, id, " requires trace=true"@), NativeDiagCode::MissingTrace) + error_if(
        st.permissions.len() == 0,
        id,
        quoted("stub "@, id, " requires declared permissions"@),
        NativeDiagCode::MissingPermission,
    )
}

/// The rules of each stub, in order.
pub open spec fn stubs_diags(stubs: Seq<BridgeStub>) -> Seq<(Seq<char>, Seq<char>, Seq<char>, Option<NativeDiagCode>)>
    decreases stubs.len(),
{
    if stubs.len() == 0 {
        Seq::empty()
    } else {
        stubs_diags(stubs.drop_last()) + stub_diags(stubs.last())
    }
}

/// Every rule of the stub catalog, in order.
pub open spec fn catalog_diags(c: BridgeStubCatalog, first_batch: Seq<String>) -> Seq<
    (Seq<char>, Seq<char>, Seq<char>, Option<NativeDiagCode>),
> {
    first_batch_diags(first_batch, c) + stubs_diags(c.stubs@)
}

fn stub_present(stubs: &Vec<BridgeStub>, id: &String) -> (r: bool)
    ensures
        r == stub_ids(stubs@).contains(id@),
{
    let mut i: usize = 0;
    while i < stubs.len()
        invariant
            i <= stubs.len(),
            forall|j: int| 0 <= j < i ==> stub_ids(stubs@)[j] != id@,
        decreases stubs.len() - i,
    {
        if same_text(&stubs[i].id, id) {
            proof {
                assert(stub_ids(stubs@)[i as int] == id@);
            }
            return true;
        }
        i = i + 1;
    }
    false
}

fn first_batch(ids: &Vec<String>, c: &BridgeStubCatalog, out: &mut Vec<NativeHostDiagnostic>)
    ensures
        diags_view(final(out)@) == diags_view(old(out)@) + first_batch_diags(ids@, *c),
{
    let ghost start = diags_view(out@);
    let mut i: usize = 0;
    proof {
        assert(ids@.take(0) =~= Seq::<String>::empty());
        assert(diags_view(out@) =~= start + first_batch_diags(ids@.take(0), *c));
    }
    while i < ids.len()
        invariant
            i <= ids.len(),
            diags_view(out@) == start + first_batch_diags(ids@.take(i as int), *c),
        decreases ids.len() - i,
    {
        let id = &ids[i];
        let idv = to_chars(id.as_str());
        error_when(
            out,
            !stub_present(&c.stubs, id),
            String::from_str("stubCatalog"),
            quoted_exec("missing first-batch stub ", id.as_str(), ""),
            NativeDiagCode::UnknownStub,
        );
        error_when(
            out,
            !texts_contain(&c.allowlist, idv.as_slice()),
            String::from_str("stubCatalog.allowlist"),
            quoted_exec("first-batch stub ", id.as_str(), " not allowlisted"),
            NativeDiagCode::CallNotAllowlisted,
        );
        proof {
            assert(ids@.take(i + 1).drop_last() =~= ids@.take(i as int));
            assert(ids@.take(i + 1).last() == ids@[i as int]);
            assert(diags_view(out@) =~= start + first_batch_diags(ids@.take(i + 1), *c));
        }
        i = i + 1;
    }
    proof {
        assert(ids@.take(ids.len() as int) =~= ids@);
    }
}

fn check_stub(st: &BridgeStub, out: &mut Vec<NativeHostDiagnostic>)
    ensures
        diags_view(final(out)@) == diags_view(old(out)@) + stub_diags(*st),
{
    let ghost start = diags_view(out@);
    let head = quoted_exec("NW2 first-batch stub ", st.id.as_str(), " must be NativeBacked, got ");
    error_when(
        out,
        !is_lit(&st.capability_class, "NativeBacked"),
        st.id.clone(),
        quoted_exec(head.as_str(), st.capability_class.as_str(), ""),
        NativeDiagCode::UnknownStub,
    );
    error_when(
        out,
        st.is_async && !st.cancellation,
        st.id.clone(),
        quoted_exec("async stub ", st.id.as_str(), " requires cancellation=true"),
        NativeDiagCode::MissingCancel,
    );
    error_when(
        out,
        !st.trace,
        st.id.clone(),
        quoted_exec("stub ", st.id.as_str(), " requires trace=true"),
        NativeDiagCode::MissingTrace,
    );
    error_when(
        out,
        st.permissions.len() == 0,
        st.id.clone(),
        quoted_exec("stub ", st.id.as_str(), " requires declared permissions"),
        NativeDiagCode::MissingPermission,
    );
    proof {
        assert(diags_view(out@) =~= start + stub_diags(*st));
    }
}

/// The stub catalog rules: each first-batch stub present and allow-listed,
/// then each stub NativeBacked, cancellable when async, traced and with
/// declared permissions. Appends one error per broken rule, in that order.
pub fn validate_stub_catalog(c: &BridgeStubCatalog, first_batch_ids: &Vec<String>, out: &mut Vec<NativeHostDiagnostic>)
    ensures
        diags_view(final(out)@) == diags_view(old(out)@) + catalog_diags(*c, first_batch_ids@),
{
    let ghost start = diags_view(out@);
    first_batch(first_batch_ids, c, out);
    let ghost mid = diags_view(out@);
    let mut i: usize = 0;
    proof {
        assert(c.stubs@.take(0) =~= Seq::<BridgeStub>::empty());
        assert(diags_view(out@) =~= mid + stubs_diags(c.stubs@.take(0)));
    }
    while i < c.stubs.len()
        invariant
            i <= c.stubs.len(),
            diags_view(out@) == mid + stubs_diags(c.stubs@.take(i as int)),
        decreases c.stubs.len() - i,
    {
        check_stub(&c.stubs[i], out);
        proof {
            assert(c.stubs@.take(i + 1).drop_last() =~= c.stubs@.take(i as int));
            assert(c.stubs@.take(i + 1).last() == c.stubs@[i as int]);
            assert(diags_view(out@) =~= mid + stubs_diags(c.stubs@.take(i + 1)));
        }
        i = i + 1;
    }
    proof {
        assert(c.stubs@.take(c.stubs.len() as int) =~= c.stubs@);
        assert(diags_view(out@) =~= start + catalog_diags(*c, first_batch_ids@));
    }
}

/// A call as plain values.
pub open spec fn call_view(c: NativeCapabilityCall) -> (Seq<char>, Seq<char>, Seq<char>, Seq<char>, u64, bool, Seq<char>, bool, Seq<Seq<char>>) {
    (
        c.call_id@,
        c.capability_id@,
        c.origin@,
        c.nonce@,
        c.timeout_ms,
        c.cancellation,
        c.trace.correlation_id@,
        c.trace.redact_sensitive,
        texts(c.permissions@),
    )
}

/// Where a call's diagnostics point: `call:` and its id.
pub open spec fn call_path(call: NativeCapabilityCall) -> Seq<char> {
    "call:"@ + call.call_id@
}

/// Origin, nonce, timeout and cancellation rules of a call, in order.
#[verifier::opaque]
pub open spec fn call_envelope_diags(call: NativeCapabilityCall) -> Seq<(Seq<char>, Seq<char>, Seq<char>, Option<NativeDiagCode>)> {
    let path = call_path(call);
    error_if(blank(call.origin@), path, "capability call requires origin"@, NativeDiagCode::MissingOrigin) + error_if(
        blank(call.nonce@),
        path,
        "capability call requires nonce"@,
        NativeDiagCode::MissingNonce,
    ) + error_if(call.timeout_ms == 0, path, "capability call requires timeoutMs > 0"@, NativeDiagCode::MissingTimeout)
        + error_if(!call.cancellation, path, "capability call requires cancellation=true"@, NativeDiagCode::MissingCancel)
}

/// Trace, permission and allowlist rules of a call, in order.
#[verifier::opaque]
pub open spec fn call_policy_diags(call: NativeCapabilityCall, allowlist: Seq<String>) -> Seq<
    (Seq<char>, Seq<char>, Seq<char>, Option<NativeDiagCode>),
> {
    let path = call_path(call);
    error_if(
        blank(call.trace.correlation_id@) || !call.trace.redact_sensitive,
        path,
        "capability call requires trace.correlationId + redactSensitive=true"@,
        NativeDiagCode::MissingTrace,
    ) + error_if(call.permissions.len() == 0, path, "capability call requires permissions"@, NativeDiagCode::MissingPermission)
        + error_if(
        !texts(allowlist).contains(call.capability_id@),
        path,
        quoted("capability "@, call.capability_id@, " is not in bridge allowlist"@),
        NativeDiagCode::CallNotAllowlisted,
    )
}

/// Every rule of a capability call, in order, ending with the
/// forbidden-pattern scan of its serialized form `call_json`.
pub open spec fn call_diags(call: NativeCapabilityCall, call_json: Seq<char>, allowlist: Seq<String>, patterns: Seq<String>) -> Seq<
    (Seq<char>, Seq<char>, Seq<char>, Option<NativeDiagCode>),
> {
    call_envelope_diags(call) + call_policy_diags(call, allowlist) + scan_diags(call_path(call), call_json, patterns, TYPED_CALLS_ONLY@)
}

fn call_envelope(call: &NativeCapabilityCall, path: &String, out: &mut Vec<NativeHostDiagnostic>)
    requires
        path@ == call_path(*call),
    ensures
        diags_view(final(out)@) == diags_view(old(out)@) + call_envelope_diags(*call),
{
    reveal(call_envelope_diags);
    let ghost start = diags_view(out@);
    error_when(
        out,
        is_blank(&call.origin),
        path.clone(),
        String::from_str("capability call requires origin"),
        NativeDiagCode::MissingOrigin,
    );
    error_when(
        out,
        is_blank(&call.nonce),
        path.clone(),
        String::from_str("capability call requires nonce"),
        NativeDiagCode::MissingNonce,
    );
    error_when(
        out,
        call.timeout_ms == 0,
        path.clone(),
        String::from_str("capability call requires timeoutMs > 0"),
        NativeDiagCode::MissingTimeout,
    );
    error_when(
        out,
        !call.cancellation,
        path.clone(),
        String::from_str("capability call requires cancellation=true"),
        NativeDiagCode::MissingCancel,
    );
    proof {
        assert(diags_view(out@) =~= start + call_envelope_diags(*call));
    }
}

fn call_policy(call: &NativeCapabilityCall, path: &String, allowlist: &Vec<String>, out: &mut Vec<NativeHostDiagnostic>)
    requires
        path@ == call_path(*call),
    ensures
        diags_view(final(out)@) == diags_view(old(out)@) + call_policy_diags(*call, allowlist@),
{
    reveal(call_policy_diags);
    let ghost start = diags_view(out@);
    error_when(
        out,
        is_blank(&call.trace.correlation_id) || !call.trace.redact_sensitive,
        path.clone(),
        String::from_str("capability call requires trace.correlationId + redactSensitive=true"),
        NativeDiagCode::MissingTrace,
    );
    error_when(
        out,
        call.permissions.len() == 0,
        path.clone(),
        String::from_str("capability call requires permissions"),
        NativeDiagCode::MissingPermission,
    );
    let idv = to_chars(call.capability_id.as_str());
    error_when(
        out,
        !texts_contain(allowlist, idv.as_slice()),
        path.clone(),
        quoted_exec("capability ", call.capability_id.as_str(), " is not in bridge allowlist"),
        NativeDiagCode::CallNotAllowlisted,
    );
    proof {
        assert(diags_view(out@) =~= start + call_policy_diags(*call, allowlist@));
    }
}

/// The capability call rules: origin, nonce, a positive timeout,
/// cancellation, a redacting trace with a correlation id, permissions, an
/// allow-listed capability, and no forbidden pattern in the serialized call
/// `call_json`. Appends one error per broken rule at `call:<id>`, in that
/// order.
pub fn validate_call(
    call: &NativeCapabilityCall,
    call_json: &str,
    allowlist: &Vec<String>,
    patterns: &Vec<String>,
    out: &mut Vec<NativeHostDiagnostic>,
)
    ensures
        diags_view(final(out)@) == diags_view(old(out)@) + call_diags(*call, call_json@, allowlist@, patterns@),
{
    let ghost start = diags_view(out@);
    let path = cat("call:", call.call_id.as_str());
    call_envelope(call, &path, out);
    call_policy(call, &path, allowlist, out);
    scan_patterns(path.as_str(), call_json, patterns, TYPED_CALLS_ONLY, out);
    proof {
        assert(diags_view(out@) =~= start + call_diags(*call, call_json@, allowlist@, patterns@));
    }
}

/// The rules of each call (with its serialized form), in order.
pub open spec fn calls_diags(calls: Seq<(NativeCapabilityCall, String)>, allowlist: Seq<String>, patterns: Seq<String>) -> Seq<
    (Seq<char>, Seq<char>, Seq<char>, Option<NativeDiagCode>),
>
    decreases calls.len(),
{
    if calls.len() == 0 {
        Seq::empty()
    } else {
        let (c, j) = calls.last();
        calls_diags(calls.drop_last(), allowlist, patterns) + call_diags(c, j@, allowlist, patterns)
    }
}

/// The bridge check: its schema, the stub catalog and sample calls that
/// were checked, every diagnostic and `failed` / `ready`.
#[derive(Debug, Clone)]
pub struct NativeBridgeCheckReport {
    pub schema: String,
    pub stub_catalog: BridgeStubCatalog,
    pub sample_calls: Vec<NativeCapabilityCall>,
    pub diagnostics: Vec<NativeHostDiagnostic>,
    pub status: String,
}

/// The typed bridge check over a loaded stub catalog (or the first batch)
/// and sample calls (or the example one), each with its serialized form,
/// the diagnostics of loading them, and the text of a foul fixture: the
/// catalog's load diagnostics and rules, the calls' load diagnostics and
/// rules, the fixture's pattern scan; `failed` when any is an error.
pub fn bridge_check_report(
    check_schema: &String,
    stub_catalog: BridgeStubCatalog,
    first_batch_ids: &Vec<String>,
    patterns: &Vec<String>,
    catalog_load_diags: Vec<NativeHostDiagnostic>,
    calls: Vec<(NativeCapabilityCall, String)>,
    calls_load_diags: Vec<NativeHostDiagnostic>,
    foul_text: Option<String>,
) -> (r: NativeBridgeCheckReport)
    ensures
        r.schema@ == check_schema@,
        r.stub_catalog == stub_catalog,
        r.sample_calls@.map_values(|c: NativeCapabilityCall| call_view(c)) == calls@.map_values(
            |c: (NativeCapabilityCall, String)| call_view(c.0),
        ),
        diags_view(r.diagnostics@) == diags_view(catalog_load_diags@) + catalog_diags(stub_catalog, first_batch_ids@)
            + diags_view(calls_load_diags@) + calls_diags(calls@, stub_catalog.allowlist@, patterns@) + match foul_text {
            Some(t) => scan_diags("native-bridge.foul.json"@, t@, patterns@, TYPED_CALLS_ONLY@),
            None => Seq::empty(),
        },
        r.status@ == if any_error(r.diagnostics@) {
            "failed"@
        } else {
            "ready"@
        },
{
    let mut diagnostics: Vec<NativeHostDiagnostic> = Vec::new();
    append_diags(&mut diagnostics, catalog_load_diags);
    validate_stub_catalog(&stub_catalog, first_batch_ids, &mut diagnostics);
    append_diags(&mut diagnostics, calls_load_diags);
    let ghost before_calls = diags_view(diagnostics@);
    let mut sample_calls: Vec<NativeCapabilityCall> = Vec::new();
    let mut i: usize = 0;
    proof {
        assert(calls@.take(0) =~= Seq::<(NativeCapabilityCall, String)>::empty());
        assert(diagnostics@.map_values(|d: NativeHostDiagnostic| diag_view(d)) =~= before_calls + calls_diags(calls@.take(0), stub_catalog.allowlist@, patterns@));
        assert(sample_calls@.map_values(|c: NativeCapabilityCall| call_view(c)) =~= calls@.take(0).map_values(
            |c: (NativeCapabilityCall, String)| call_view(c.0),
        ));
    }
    while i < calls.len()
        invariant
            i <= calls.len(),
            diags_view(diagnostics@) == before_calls + calls_diags(calls@.take(i as int), stub_catalog.allowlist@, patterns@),
            sample_calls@.map_values(|c: NativeCapabilityCall| call_view(c)) == calls@.take(i as int).map_values(
                |c: (NativeCapabilityCall, String)| call_view(c.0),
            ),
        decreases calls.len() - i,
    {
        validate_call(&calls[i].0, calls[i].1.as_str(), &stub_catalog.allowlist, patterns, &mut diagnostics);
        let ghost pre = sample_calls@.map_values(|c: NativeCapabilityCall| call_view(c));
        sample_calls.push(calls[i].0.clone_call());
        proof {
            assert(sample_calls@.map_values(|c: NativeCapabilityCall| call_view(c)) =~= pre.push(call_view(calls@[i as int].0)));
            assert(calls@.take(i + 1).drop_last() =~= calls@.take(i as int));
            assert(calls@.take(i + 1).last() == calls@[i as int]);
            assert(diags_view(diagnostics@) =~= before_calls + calls_diags(calls@.take(i + 1), stub_catalog.allowlist@, patterns@));
            assert(sample_calls@.map_values(|c: NativeCapabilityCall| call_view(c)) =~= calls@.take(i + 1).map_values(
                |c: (NativeCapabilityCall, String)| call_view(c.0),
            ));
        }
        i = i + 1;
    }
    proof {
        assert(calls@.take(calls.len() as int) =~= calls@);
    }
    let ghost before_foul = diags_view(diagnostics@);
    match &foul_text {
        Some(t) => {
            scan_patterns("native-bridge.foul.json", t.as_str(), patterns, TYPED_CALLS_ONLY, &mut diagnostics);
        },
        None => {},
    }
    proof {
        assert(diags_view(diagnostics@) =~= before_foul + match foul_text {
            Some(t) => scan_diags("native-bridge.foul.json"@, t@, patterns@, TYPED_CALLS_ONLY@),
            None => Seq::empty(),
        });
    }
    let status = check_status(&diagnostics);
    NativeBridgeCheckReport { schema: check_schema.clone(), stub_catalog, sample_calls, diagnostics, status }
}

impl NativeCapabilityCall {
    /// A copy with the same fields.
    pub fn clone_call(&self) -> (r: NativeCapabilityCall)
        ensures
            call_view(r) == call_view(*self),
    {
        NativeCapabilityCall {
            call_id: self.call_id.clone(),
            capability_id: self.capability_id.clone(),
            origin: self.origin.clone(),
            nonce: self.nonce.clone(),
            timeout_ms: self.timeout_ms,
            cancellation: self.cancellation,
            trace: CallTrace { correlation_id: self.trace.correlation_id.clone(), redact_sensitive: self.trace.redact_sensitive },
            permissions: crate::designs::clone_strings(self.permissions.as_slice()),
        }
    }
}

// ---------------------------------------------------------------------------
// Multi-platform host profile
// ---------------------------------------------------------------------------

/// The contract schemas every platform shares.
#[derive(Debug, Clone)]
pub struct SharedContractSchemas {
    pub bridge_schema: String,
    pub capability_call_schema: String,
    pub surface_schema: String,
    pub shell_schema: String,
    pub deployment_schema: String,
    pub fullstack_schema: String,
    pub test_contract_schema: String,
}

/// The shared contracts of a multi-platform manifest.
#[derive(Debug, Clone)]
pub struct MultiPlatformSharedContracts {
    pub schema: String,
    pub schemas: SharedContractSchemas,
}

/// One platform's packaging adapter.
#[derive(Debug, Clone)]
pub struct MultiPlatformAdapter {
    pub platform: String,
    /// The adapter kind, as its protocol name.
    pub kind: String,
    pub packaging_only: bool,
    pub is_semantic_truth_source: bool,
    pub schemas: SharedContractSchemas,
}

/// The multi-platform host profile manifest.
#[derive(Debug, Clone)]
pub struct NativeMultiPlatformManifest {
    pub schema: String,
    pub allows_platform_semantic_fork: bool,
    pub shared: MultiPlatformSharedContracts,
    pub platforms: Vec<String>,
    pub adapters: Vec<MultiPlatformAdapter>,
}

/// The protocol values the multi-platform rules compare against.
#[derive(Debug, Clone)]
pub struct MultiPlatformProtocol {
    pub manifest_schema: String,
    pub shared_schema: String,
    /// The canonical shared contract schemas.
    pub canonical: SharedContractSchemas,
    /// The required platforms, by name.
    pub platforms: Vec<String>,
    /// The name of the packaging-stub adapter kind.
    pub packaging_stub: String,
}

/// The names of the shared contract schemas, in checking order.
pub open spec fn schema_field_names() -> Seq<Seq<char>> {
    seq![
        "bridgeSchema"@,
        "capabilityCallSchema"@,
        "surfaceSchema"@,
        "shellSchema"@,
        "deploymentSchema"@,
        "fullstackSchema"@,
        "testContractSchema"@,
    ]
}

/// The shared contract schemas, in checking order.
pub open spec fn schema_values(c: SharedContractSchemas) -> Seq<Seq<char>> {
    seq![
        c.bridge_schema@,
        c.capability_call_schema@,
        c.surface_schema@,
        c.shell_schema@,
        c.deployment_schema@,
        c.fullstack_schema@,
        c.test_contract_schema@,
    ]
}

/// A schema name that belongs to one platform's private namespace
/// (compared ASCII case-insensitively).
pub open spec fn looks_platform_private(schema: Seq<char>) -> bool {
    let s = lower(schema);
    ||| crate::text::contains_seq(s, "com.apple."@)
    ||| crate::text::contains_seq(s, "com.android."@)
    ||| crate::text::contains_seq(s, ".ios.private"@)
    ||| crate::text::contains_seq(s, ".android.private"@)
    ||| crate::text::contains_seq(s, "uikit."@)
    ||| crate::text::contains_seq(s, "gradle."@)
    ||| has_prefix(s, "xcode."@)
}

fn looks_platform_private_exec(schema: &String) -> (r: bool)
    ensures
        r == looks_platform_private(schema@),
{
    let raw = to_chars(schema.as_str());
    let s = lower_exec(raw.as_slice());
    let a = to_chars("com.apple.");
    let b = to_chars("com.android.");
    let c = to_chars(".ios.private");
    let d = to_chars(".android.private");
    let e = to_chars("uikit.");
    let f = to_chars("gradle.");
    let g = to_chars("xcode.");
    crate::text::contains(s.as_slice(), a.as_slice()) || crate::text::contains(s.as_slice(), b.as_slice())
        || crate::text::contains(s.as_slice(), c.as_slice()) || crate::text::contains(s.as_slice(), d.as_slice())
        || crate::text::contains(s.as_slice(), e.as_slice()) || crate::text::contains(s.as_slice(), f.as_slice())
        || starts_with(s.as_slice(), g.as_slice())
}

/// For each schema field from `i` on: an error when it differs from the one
/// wanted, and one when it looks platform-private.
pub open spec fn field_diags(
    prefix: Seq<char>,
    got: Seq<Seq<char>>,
    want: Seq<Seq<char>>,
    shared: bool,
    n: int,
) -> Seq<(Seq<char>, Seq<char>, Seq<char>, Option<NativeDiagCode>)>
    decreases n,
{
    if n <= 0 {
        Seq::empty()
    } else {
        let i = n - 1;
        let field = schema_field_names()[i];
        let path = prefix + field;
        field_diags(prefix, got, want, shared, i) + error_if(
            got[i] != want[i],
            path,
            if shared {
                quoted("shared "@ + field + quoted(" must be "@, want[i], ", got "@), got[i], ""@)
            } else {
                quoted("platform semantic fork: "@ + field + quoted(" "@, got[i], " ≠ shared "@), want[i], ""@)
            },
            NativeDiagCode::PlatformSemanticFork,
        ) + error_if(
            looks_platform_private(got[i]),
            path,
            quoted("platform-private schema forbidden: "@, got[i], ""@),
            NativeDiagCode::PlatformPrivateSchema,
        )
    }
}

fn schema_vec(c: &SharedContractSchemas) -> (r: Vec<String>)
    ensures
        r@.map_values(|s: String| s@) == schema_values(*c),
        r.len() == 7,
{
    let r = vec![
        c.bridge_schema.clone(),
        c.capability_call_schema.clone(),
        c.surface_schema.clone(),
        c.shell_schema.clone(),
        c.deployment_schema.clone(),
        c.fullstack_schema.clone(),
        c.test_contract_schema.clone(),
    ];
    proof {
        assert(r@.map_values(|s: String| s@) =~= schema_values(*c));
    }
    r
}

fn field_names() -> (r: Vec<String>)
    ensures
        r@.map_values(|s: String| s@) == schema_field_names(),
        r.len() == 7,
{
    let r = vec![
        String::from_str("bridgeSchema"),
        String::from_str("capabilityCallSchema"),
        String::from_str("surfaceSchema"),
        String::from_str("shellSchema"),
        String::from_str("deploymentSchema"),
        String::from_str("fullstackSchema"),
        String::from_str("testContractSchema"),
    ];
    proof {
        assert(r@.map_values(|s: String| s@) =~= schema_field_names());
    }
    r
}

fn check_fields(
    prefix: &String,
    got: &SharedContractSchemas,
    want: &SharedContractSchemas,
    shared: bool,
    out: &mut Vec<NativeHostDiagnostic>,
)
    ensures
        diags_view(final(out)@) == diags_view(old(out)@) + field_diags(prefix@, schema_values(*got), schema_values(*want), shared, 7),
{
    let ghost start = diags_view(out@);
    let gv = schema_vec(got);
    let wv = schema_vec(want);
    let names = field_names();
    let ghost gs = schema_values(*got);
    let ghost ws = schema_values(*want);
    let mut i: usize = 0;
    proof {
        assert(diags_view(out@) =~= start + field_diags(prefix@, gs, ws, shared, 0));
    }
    while i < 7
        invariant
            i <= 7,
            gv@.map_values(|s: String| s@) == gs,
            wv@.map_values(|s: String| s@) == ws,
            names@.map_values(|s: String| s@) == schema_field_names(),
            gv.len() == 7,
            wv.len() == 7,
            names.len() == 7,
            diags_view(out@) == start + field_diags(prefix@, gs, ws, shared, i as int),
        decreases 7 - i,
    {
        let g = &gv[i];
        let w = &wv[i];
        let field = &names[i];
        proof {
            assert(gs[i as int] == g@);
            assert(ws[i as int] == w@);
            assert(schema_field_names()[i as int] == field@);
        }
        let path = cat(prefix.as_str(), field.as_str());
        let message = if shared {
            let head = cat("shared ", field.as_str());
            let m1 = quoted_exec(" must be ", w.as_str(), ", got ");
            let m2 = cat(head.as_str(), m1.as_str());
            quoted_exec(m2.as_str(), g.as_str(), "")
        } else {
            let head = cat("platform semantic fork: ", field.as_str());
            let m1 = quoted_exec(" ", g.as_str(), " ≠ shared ");
            let m2 = cat(head.as_str(), m1.as_str());
            quoted_exec(m2.as_str(), w.as_str(), "")
        };
        error_when(out, !same_text(g, w), path.clone(), message, NativeDiagCode::PlatformSemanticFork);
        error_when(
            out,
            looks_platform_private_exec(g),
            path,
            quoted_exec("platform-private schema forbidden: ", g.as_str(), ""),
            NativeDiagCode::PlatformPrivateSchema,
        );
        proof {
            assert(diags_view(out@) =~= start + field_diags(prefix@, gs, ws, shared, i + 1));
        }
        i = i + 1;
    }
}


/// The shared contract rules: the shared schema, then each schema field as
/// the canonical one and not platform-private.
pub open spec fn shared_diags(sh: MultiPlatformSharedContracts, proto: MultiPlatformProtocol) -> Seq<
    (Seq<char>, Seq<char>, Seq<char>, Option<NativeDiagCode>),
> {
    error_if(
        sh.schema@ != proto.shared_schema@,
        "shared.schema"@,
        quoted("shared schema must be "@, proto.shared_schema@, ""@),
        NativeDiagCode::InvalidProfile,
    ) + field_diags("shared."@, schema_values(sh.schemas), schema_values(proto.canonical), true, 7)
}

/// The index of the first adapter for `platform`.
pub open spec fn first_mp_adapter(adapters: Seq<MultiPlatformAdapter>, platform: Seq<char>) -> Option<int>
    decreases adapters.len(),
{
    if adapters.len() == 0 {
        None
    } else {
        match first_mp_adapter(adapters.drop_last(), platform) {
            Some(i) => Some(i),
            None => if adapters.last().platform@ == platform {
                Some(adapters.len() - 1)
            } else {
                None
            },
        }
    }
}

/// The rules of one adapter for a required platform.
pub open spec fn mp_adapter_diags(a: MultiPlatformAdapter, platform: Seq<char>, shared: SharedContractSchemas, stub: Seq<char>) -> Seq<
    (Seq<char>, Seq<char>, Seq<char>, Option<NativeDiagCode>),
> {
    let at = "adapters."@ + platform;
    error_if(
        a.kind@ != stub,
        at + ".kind"@,
        quoted(quoted("native adapter kind must be "@, stub, " (real Xcode/Gradle later); got "@), a.kind@, ""@),
        NativeDiagCode::AdapterIsSemanticCore,
    ) + error_if(
        !a.packaging_only,
        at + ".packagingOnly"@,
        "platform adapter must be packaging-only — Host Profile semantics stay shared"@,
        NativeDiagCode::AdapterIsSemanticCore,
    ) + error_if(
        a.is_semantic_truth_source,
        at + ".isSemanticTruthSource"@,
        "platform adapter must not become semantic truth — VPG/Plan remain sole semantic IR"@,
        NativeDiagCode::AdapterIsSemanticCore,
    ) + field_diags(at + "."@, schema_values(a.schemas), schema_values(shared), false, 7)
}

/// The rules of one required platform: listed, with an adapter, which must
/// be a packaging-only stub sharing the manifest's schemas.
pub open spec fn mp_platform_diags(mp: NativeMultiPlatformManifest, platform: Seq<char>, stub: Seq<char>) -> Seq<
    (Seq<char>, Seq<char>, Seq<char>, Option<NativeDiagCode>),
> {
    error_if(
        !texts(mp.platforms@).contains(platform),
        "platforms"@,
        quoted("required platform "@, platform, " missing from platforms list"@),
        NativeDiagCode::MissingPlatformAdapter,
    ) + match first_mp_adapter(mp.adapters@, platform) {
        None => seq![
            ("adapters"@, "error"@, quoted("missing "@, platform, " packaging adapter"@), Some(NativeDiagCode::MissingPlatformAdapter)),
        ],
        Some(i) => mp_adapter_diags(mp.adapters@[i], platform, mp.shared.schemas, stub),
    }
}

/// The rules of each required platform, in order.
pub open spec fn mp_platforms_diags(mp: NativeMultiPlatformManifest, required: Seq<String>, stub: Seq<char>) -> Seq<
    (Seq<char>, Seq<char>, Seq<char>, Option<NativeDiagCode>),
>
    decreases required.len(),
{
    if required.len() == 0 {
        Seq::empty()
    } else {
        mp_platforms_diags(mp, required.drop_last(), stub) + mp_platform_diags(mp, required.last()@, stub)
    }
}

/// One error per adapter for a platform that is not required.
pub open spec fn unknown_platform_diags(adapters: Seq<MultiPlatformAdapter>, required: Seq<String>) -> Seq<
    (Seq<char>, Seq<char>, Seq<char>, Option<NativeDiagCode>),
>
    decreases adapters.len(),
{
    if adapters.len() == 0 {
        Seq::empty()
    } else {
        let p = adapters.last().platform@;
        unknown_platform_diags(adapters.drop_last(), required) + error_if(
            !texts(required).contains(p),
            "adapters."@ + p,
            quoted("unknown platform "@, p, " — native first version is ios|android only"@),
            NativeDiagCode::InvalidProfile,
        )
    }
}

/// Every rule of a multi-platform manifest, in order.
pub open spec fn multi_platform_diags(mp: NativeMultiPlatformManifest, proto: MultiPlatformProtocol) -> Seq<
    (Seq<char>, Seq<char>, Seq<char>, Option<NativeDiagCode>),
> {
    error_if(
        mp.schema@ != proto.manifest_schema@,
        "schema"@,
        quoted("multi_platform schema must be "@, proto.manifest_schema@, ""@),
        NativeDiagCode::InvalidProfile,
    ) + error_if(
        mp.allows_platform_semantic_fork,
        "allowsPlatformSemanticFork"@,
        "platform semantic fork is forbidden — iOS/Android must share one Host Profile contract"@,
        NativeDiagCode::PlatformSemanticFork,
    ) + shared_diags(mp.shared, proto) + mp_platforms_diags(mp, proto.platforms@, proto.packaging_stub@)
        + unknown_platform_diags(mp.adapters@, proto.platforms@)
}

fn validate_shared(sh: &MultiPlatformSharedContracts, proto: &MultiPlatformProtocol, out: &mut Vec<NativeHostDiagnostic>)
    ensures
        diags_view(final(out)@) == diags_view(old(out)@) + shared_diags(*sh, *proto),
{
    let ghost start = diags_view(out@);
    error_when(
        out,
        !same_text(&sh.schema, &proto.shared_schema),
        String::from_str("shared.schema"),
        quoted_exec("shared schema must be ", proto.shared_schema.as_str(), ""),
        NativeDiagCode::InvalidProfile,
    );
    check_fields(&String::from_str("shared."), &sh.schemas, &proto.canonical, true, out);
    proof {
        assert(diags_view(out@) =~= start + shared_diags(*sh, *proto));
    }
}

fn find_mp_adapter(adapters: &Vec<MultiPlatformAdapter>, platform: &String) -> (r: Option<usize>)
    ensures
        match r {
            Some(i) => first_mp_adapter(adapters@, platform@) == Some(i as int) && i < adapters.len(),
            None => first_mp_adapter(adapters@, platform@) is None,
        },
{
    let mut i: usize = 0;
    proof {
        assert(adapters@.take(0) =~= Seq::<MultiPlatformAdapter>::empty());
    }
    while i < adapters.len()
        invariant
            i <= adapters.len(),
            first_mp_adapter(adapters@.take(i as int), platform@) is None,
        decreases adapters.len() - i,
    {
        proof {
            assert(adapters@.take(i + 1).drop_last() =~= adapters@.take(i as int));
            assert(adapters@.take(i + 1).last() == adapters@[i as int]);
        }
        if same_text(&adapters[i].platform, platform) {
            proof {
                lemma_first_mp_prefix(adapters@, platform@, i as int + 1);
            }
            return Some(i);
        }
        i = i + 1;
    }
    proof {
        assert(adapters@.take(adapters.len() as int) =~= adapters@);
    }
    None
}

proof fn lemma_first_mp_prefix(adapters: Seq<MultiPlatformAdapter>, platform: Seq<char>, n: int)
    requires
        0 <= n <= adapters.len(),
        first_mp_adapter(adapters.take(n), platform) is Some,
    ensures
        first_mp_adapter(adapters, platform) == first_mp_adapter(adapters.take(n), platform),
    decreases adapters.len() - n,
{
    if n < adapters.len() {
        assert(adapters.take(n + 1).drop_last() =~= adapters.take(n));
        lemma_first_mp_prefix(adapters, platform, n + 1);
    } else {
        assert(adapters.take(n) =~= adapters);
    }
}

fn check_mp_adapter(
    a: &MultiPlatformAdapter,
    platform: &String,
    shared: &SharedContractSchemas,
    stub: &String,
    out: &mut Vec<NativeHostDiagnostic>,
)
    ensures
        diags_view(final(out)@) == diags_view(old(out)@) + mp_adapter_diags(*a, platform@, *shared, stub@),
{
    let ghost start = diags_view(out@);
    let at = cat("adapters.", platform.as_str());
    let head = quoted_exec("native adapter kind must be ", stub.as_str(), " (real Xcode/Gradle later); got ");
    error_when(
        out,
        !same_text(&a.kind, stub),
        cat(at.as_str(), ".kind"),
        quoted_exec(head.as_str(), a.kind.as_str(), ""),
        NativeDiagCode::AdapterIsSemanticCore,
    );
    error_when(
        out,
        !a.packaging_only,
        cat(at.as_str(), ".packagingOnly"),
        String::from_str("platform adapter must be packaging-only — Host Profile semantics stay shared"),
        NativeDiagCode::AdapterIsSemanticCore,
    );
    error_when(
        out,
        a.is_semantic_truth_source,
        cat(at.as_str(), ".isSemanticTruthSource"),
        String::from_str("platform adapter must not become semantic truth — VPG/Plan remain sole semantic IR"),
        NativeDiagCode::AdapterIsSemanticCore,
    );
    let prefix = cat(at.as_str(), ".");
    check_fields(&prefix, &a.schemas, shared, false, out);
    proof {
        assert(diags_view(out@) =~= start + mp_adapter_diags(*a, platform@, *shared, stub@));
    }
}

fn check_mp_platform(mp: &NativeMultiPlatformManifest, platform: &String, stub: &String, out: &mut Vec<NativeHostDiagnostic>)
    ensures
        diags_view(final(out)@) == diags_view(old(out)@) + mp_platform_diags(*mp, platform@, stub@),
{
    let ghost start = diags_view(out@);
    let pv = to_chars(platform.as_str());
    error_when(
        out,
        !texts_contain(&mp.platforms, pv.as_slice()),
        String::from_str("platforms"),
        quoted_exec("required platform ", platform.as_str(), " missing from platforms list"),
        NativeDiagCode::MissingPlatformAdapter,
    );
    let ghost mid = diags_view(out@);
    match find_mp_adapter(&mp.adapters, platform) {
        None => {
            error_when(
                out,
                true,
                String::from_str("adapters"),
                quoted_exec("missing ", platform.as_str(), " packaging adapter"),
                NativeDiagCode::MissingPlatformAdapter,
            );
        },
        Some(i) => {
            check_mp_adapter(&mp.adapters[i], platform, &mp.shared.schemas, stub, out);
        },
    }
    proof {
        assert(diags_view(out@) =~= start + mp_platform_diags(*mp, platform@, stub@));
    }
}

/// The multi-platform manifest rules: schema, no platform semantic fork,
/// the shared contracts (shared schema; each contract schema canonical and
/// not platform-private), each required platform listed with a
/// packaging-only stub adapter that is no semantic truth and shares the
/// manifest's contract schemas, and no adapter for another platform.
/// Appends one error per broken rule, in that order.
pub fn validate_manifest(mp: &NativeMultiPlatformManifest, proto: &MultiPlatformProtocol, out: &mut Vec<NativeHostDiagnostic>)
    ensures
        diags_view(final(out)@) == diags_view(old(out)@) + multi_platform_diags(*mp, *proto),
{
    let ghost start = diags_view(out@);
    error_when(
        out,
        !same_text(&mp.schema, &proto.manifest_schema),
        String::from_str("schema"),
        quoted_exec("multi_platform schema must be ", proto.manifest_schema.as_str(), ""),
        NativeDiagCode::InvalidProfile,
    );
    error_when(
        out,
        mp.allows_platform_semantic_fork,
        String::from_str("allowsPlatformSemanticFork"),
        String::from_str("platform semantic fork is forbidden — iOS/Android must share one Host Profile contract"),
        NativeDiagCode::PlatformSemanticFork,
    );
    validate_shared(&mp.shared, proto, out);
    let ghost before_platforms = diags_view(out@);
    let mut i: usize = 0;
    proof {
        assert(proto.platforms@.take(0) =~= Seq::<String>::empty());
        assert(diags_view(out@) =~= before_platforms + mp_platforms_diags(*mp, proto.platforms@.take(0), proto.packaging_stub@));
    }
    while i < proto.platforms.len()
        invariant
            i <= proto.platforms.len(),
            diags_view(out@) == before_platforms + mp_platforms_diags(*mp, proto.platforms@.take(i as int), proto.packaging_stub@),
        decreases proto.platforms.len() - i,
    {
        check_mp_platform(mp, &proto.platforms[i], &proto.packaging_stub, out);
        proof {
            assert(proto.platforms@.take(i + 1).drop_last() =~= proto.platforms@.take(i as int));
            assert(proto.platforms@.take(i + 1).last() == proto.platforms@[i as int]);
            assert(diags_view(out@) =~= before_platforms + mp_platforms_diags(*mp, proto.platforms@.take(i + 1), proto.packaging_stub@));
        }
        i = i + 1;
    }
    proof {
        assert(proto.platforms@.take(proto.platforms.len() as int) =~= proto.platforms@);
    }
    let ghost before_unknown = diags_view(out@);
    let mut k: usize = 0;
    proof {
        assert(mp.adapters@.take(0) =~= Seq::<MultiPlatformAdapter>::empty());
        assert(diags_view(out@) =~= before_unknown + unknown_platform_diags(mp.adapters@.take(0), proto.platforms@));
    }
    while k < mp.adapters.len()
        invariant
            k <= mp.adapters.len(),
            diags_view(out@) == before_unknown + unknown_platform_diags(mp.adapters@.take(k as int), proto.platforms@),
        decreases mp.adapters.len() - k,
    {
        let a = &mp.adapters[k];
        let pv = to_chars(a.platform.as_str());
        error_when(
            out,
            !texts_contain(&proto.platforms, pv.as_slice()),
            cat("adapters.", a.platform.as_str()),
            quoted_exec("unknown platform ", a.platform.as_str(), " — native first version is ios|android only"),
            NativeDiagCode::InvalidProfile,
        );
        proof {
            assert(mp.adapters@.take(k + 1).drop_last() =~= mp.adapters@.take(k as int));
            assert(mp.adapters@.take(k + 1).last() == mp.adapters@[k as int]);
            assert(diags_view(out@) =~= before_unknown + unknown_platform_diags(mp.adapters@.take(k + 1), proto.platforms@));
        }
        k = k + 1;
    }
    proof {
        assert(mp.adapters@.take(mp.adapters.len() as int) =~= mp.adapters@);
        assert(diags_view(out@) =~= start + multi_platform_diags(*mp, *proto));
    }
}

/// The multi-platform check: its schema, the manifest that was checked,
/// every diagnostic and `failed` / `ready`.
#[derive(Debug, Clone)]
pub struct NativeMultiPlatformCheckReport {
    pub schema: String,
    pub multi_platform: NativeMultiPlatformManifest,
    pub diagnostics: Vec<NativeHostDiagnostic>,
    pub status: String,
}

/// The diagnostics of a multi-platform foul fixture: its rules when it
/// parsed, else one error when its text names a fork or a private
/// namespace.
pub open spec fn mp_foul_diags(foul: FoulFixture<NativeMultiPlatformManifest>, proto: MultiPlatformProtocol) -> Seq<
    (Seq<char>, Seq<char>, Seq<char>, Option<NativeDiagCode>),
> {
    match foul {
        FoulFixture::Absent => Seq::empty(),
        FoulFixture::Parsed(bad) => multi_platform_diags(bad, proto),
        FoulFixture::Unparsed(text) => error_if(
            crate::text::contains_seq(text@, "allowsPlatformSemanticFork"@) || crate::text::contains_seq(
                text@,
                "com.android.private"@,
            ) || crate::text::contains_seq(text@, "com.apple."@),
            "native-multi-platform.foul.json"@,
            "forbidden multi-platform fork assumptions in foul fixture"@,
            NativeDiagCode::PlatformSemanticFork,
        ),
    }
}

/// The multi-platform check over a loaded manifest (or the example one),
/// the diagnostics of loading it, and a foul fixture: the load diagnostics,
/// the manifest's, the fixture's; `failed` when any is an error.
pub fn multi_platform_check_report(
    check_schema: &String,
    proto: &MultiPlatformProtocol,
    mp: NativeMultiPlatformManifest,
    load_diags: Vec<NativeHostDiagnostic>,
    foul: FoulFixture<NativeMultiPlatformManifest>,
) -> (r: NativeMultiPlatformCheckReport)
    ensures
        r.schema@ == check_schema@,
        r.multi_platform == mp,
        diags_view(r.diagnostics@) == diags_view(load_diags@) + multi_platform_diags(mp, *proto) + mp_foul_diags(foul, *proto),
        r.status@ == if any_error(r.diagnostics@) {
            "failed"@
        } else {
            "ready"@
        },
{
    let mut diagnostics: Vec<NativeHostDiagnostic> = Vec::new();
    append_diags(&mut diagnostics, load_diags);
    validate_manifest(&mp, proto, &mut diagnostics);
    let ghost before_foul = diags_view(diagnostics@);
    match &foul {
        FoulFixture::Absent => {},
        FoulFixture::Parsed(bad) => {
            validate_manifest(bad, proto, &mut diagnostics);
        },
        FoulFixture::Unparsed(text) => {
            error_when(
                &mut diagnostics,
                text_contains(text, "allowsPlatformSemanticFork") || text_contains(text, "com.android.private")
                    || text_contains(text, "com.apple."),
                String::from_str("native-multi-platform.foul.json"),
                String::from_str("forbidden multi-platform fork assumptions in foul fixture"),
                NativeDiagCode::PlatformSemanticFork,
            );
        },
    }
    proof {
        assert(diags_view(diagnostics@) =~= before_foul + mp_foul_diags(foul, *proto));
    }
    let status = check_status(&diagnostics);
    NativeMultiPlatformCheckReport { schema: check_schema.clone(), multi_platform: mp, diagnostics, status }
}
} // verus!
