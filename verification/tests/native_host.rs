use vmz_compiler::native_host::{
    bridge_check_report, check_bridge_candidate_json, fullstack_check_report, lifecycle_check_report,
    native_host_check_report, scan_bridge_text_for_arbitrary, shell_check_report, surface_check_report, validate_call,
    validate_fullstack, validate_lifecycle, validate_manifest, validate_profile, validate_shell, validate_stub_catalog,
    validate_surface, multi_platform_check_report, MultiPlatformAdapter, MultiPlatformProtocol, MultiPlatformSharedContracts,
    NativeMultiPlatformManifest, SharedContractSchemas,
    AuthSessionPolicy, BridgeCandidate, BridgePolicy, BridgeStub, BridgeStubCatalog, CallTrace, FoulFixture,
    NativeAppLifecyclePolicy, NativeCapability, NativeCapabilityCall, NativeDiagCode, NativeFullstackProfile,
    NativeHostDiagnostic, NativeSurfaceManifest, NativeWebViewShellManifest, NetworkPolicy, OfflinePolicy,
    PersistencePolicy, PushPolicy, ServerTransport, ShellArtifacts, ShellEntry, ShellIdentity, ShellLogging,
    ShellPlatformAdapter, ShellProtocol, SsrPolicy, SurfaceBoundary, UpdatePolicy, WebViewDeploymentProfile,
};

const SHELL: &str = "vmz.native.shell.v0";
const FULLSTACK: &str = "vmz.native.fullstack.v0";

fn strings(v: &[&str]) -> Vec<String> {
    v.iter().map(|s| s.to_string()).collect()
}

fn proto() -> ShellProtocol {
    ShellProtocol {
        shell_schema: SHELL.into(),
        required_hooks: strings(&["load", "error", "exit", "deepLink", "log"]),
        required_platforms: strings(&["ios", "android"]),
    }
}

fn adapter(platform: &str, kind: &str, schema: &str) -> ShellPlatformAdapter {
    ShellPlatformAdapter { platform: platform.into(), kind: kind.into(), shell_schema: schema.into() }
}

fn good_shell() -> NativeWebViewShellManifest {
    NativeWebViewShellManifest {
        schema: SHELL.into(),
        identity: ShellIdentity { application_id: "com.example.app".into(), origin: "app://local".into() },
        reuses_browser_lowering: true,
        asset_mode: "local".into(),
        entry: ShellEntry {
            entry_url: "app://local/index.html".into(),
            client_js: "client.js".into(),
            dom_host: "index.html".into(),
        },
        hooks: strings(&["load", "error", "exit", "deepLink", "log"]),
        deep_link_count: 1,
        logging: ShellLogging { redact_sensitive: true, level: "info".into() },
        adapters: vec![adapter("ios", "webview_shell", SHELL), adapter("android", "webview_shell", SHELL)],
    }
}

fn no_dist() -> ShellArtifacts {
    ShellArtifacts { dist_exists: false, found_client: false, client_has_marker: false, found_dom: false }
}

fn codes(d: &[NativeHostDiagnostic]) -> Vec<NativeDiagCode> {
    d.iter().map(|x| x.code.unwrap()).collect()
}

#[test]
fn example_shell_ready_without_dist() {
    let report = shell_check_report(&"vmz.native.shell_check.v0".into(), good_shell(), &proto(), no_dist(), vec![], FoulFixture::Absent);
    assert_eq!(report.status, "ready", "{:?}", report.diagnostics);
    assert_eq!(report.shell.adapters.len(), 2);
    assert_eq!(report.schema, "vmz.native.shell_check.v0");
}

#[test]
fn rejects_remote_https_entry() {
    let mut shell = good_shell();
    shell.entry.entry_url = "https://cdn.example.com/app".into();
    let report = shell_check_report(&"c".into(), shell, &proto(), no_dist(), vec![], FoulFixture::Absent);
    assert_eq!(report.status, "failed");
    assert!(report.diagnostics.iter().any(|d| d.code == Some(NativeDiagCode::RemoteEntryDefault)));
    // both entry rules fire: remote http(s), and not app:// or file://
    assert_eq!(report.diagnostics.len(), 2);
    assert_eq!(report.diagnostics[1].message, "unsupported entryUrl `https://cdn.example.com/app`");
}

#[test]
fn rejects_platform_schema_fork() {
    let mut shell = good_shell();
    shell.adapters = vec![
        adapter("ios", "webview_shell", SHELL),
        adapter("android", "webview_shell", "com.vendor.android.private.shell"),
    ];
    let mut diags = Vec::new();
    validate_shell(&shell, &proto(), no_dist(), &mut diags);
    assert!(diags.iter().any(|d| d.code == Some(NativeDiagCode::PlatformSemanticFork)));
    assert_eq!(diags.len(), 2);
    assert_eq!(diags[0].path, "adapters.android");
    assert_eq!(
        diags[0].message,
        "platform `android` must share shell schema `vmz.native.shell.v0`, got `com.vendor.android.private.shell`"
    );
    assert_eq!(diags[1].message, "platform semantic fork: shellSchema `com.vendor.android.private.shell`");
}

#[test]
fn uppercase_file_entry_is_local() {
    let mut shell = good_shell();
    shell.entry.entry_url = "FILE:///bundle/index.html".into();
    let mut diags = Vec::new();
    validate_shell(&shell, &proto(), no_dist(), &mut diags);
    assert!(diags.is_empty(), "{:?}", diags);
}

#[test]
fn missing_hooks_adapters_and_policies() {
    let mut shell = good_shell();
    shell.hooks = strings(&["load", "log"]);
    shell.adapters = vec![adapter("ios", "native", SHELL)];
    shell.deep_link_count = 0;
    shell.logging.redact_sensitive = false;
    shell.logging.level = "  ".into();
    shell.identity.origin = "\t".into();
    let mut diags = Vec::new();
    validate_shell(&shell, &proto(), no_dist(), &mut diags);
    assert_eq!(
        codes(&diags),
        vec![
            NativeDiagCode::MissingIdentity,
            NativeDiagCode::MissingShellHook,
            NativeDiagCode::MissingShellHook,
            NativeDiagCode::MissingShellHook,
            NativeDiagCode::MissingDeepLink,
            NativeDiagCode::MissingLogPolicy,
            NativeDiagCode::MissingLogPolicy,
            NativeDiagCode::PlatformSemanticFork,
            NativeDiagCode::PlatformSemanticFork,
        ]
    );
    assert_eq!(diags[1].message, "missing required shell hook `error`");
    assert_eq!(diags[7].path, "adapters.ios");
    assert_eq!(diags[7].message, "adapter kind must be webview_shell, got `native`");
    assert_eq!(diags[8].path, "adapters");
    assert_eq!(diags[8].message, "missing `android` webview_shell adapter");
    assert!(diags.iter().all(|d| d.severity == "error"));
}

#[test]
fn dist_artifacts_checked_once_dist_exists() {
    let shell = good_shell();
    let mut diags = Vec::new();
    let found = ShellArtifacts { dist_exists: true, found_client: true, client_has_marker: false, found_dom: false };
    validate_shell(&shell, &proto(), found, &mut diags);
    assert_eq!(diags.len(), 2);
    assert_eq!(diags[0].path, "client.js");
    assert_eq!(diags[0].message, "client artifact missing __vmzDirect — shell must reuse Browser Direct emit");
    assert_eq!(diags[1].message, "missing DOM host artifact `index.html`");
    let mut diags = Vec::new();
    let found = ShellArtifacts { dist_exists: true, found_client: false, client_has_marker: false, found_dom: true };
    validate_shell(&shell, &proto(), found, &mut diags);
    assert_eq!(diags.len(), 1);
    assert_eq!(diags[0].message, "missing local bundled client artifact `client.js`");
}

#[test]
fn unparsed_foul_shell_with_private_semantics_fails() {
    let report = shell_check_report(
        &"c".into(),
        good_shell(),
        &proto(),
        no_dist(),
        vec![],
        FoulFixture::Unparsed("{ \"x\": \"ios.private\" ".into()),
    );
    assert_eq!(report.status, "failed");
    assert_eq!(report.diagnostics[0].path, "native-shell.fork.foul.json");
    let clean =
        shell_check_report(&"c".into(), good_shell(), &proto(), no_dist(), vec![], FoulFixture::Unparsed("{".into()));
    assert_eq!(clean.status, "ready");
}

fn good_profile() -> NativeFullstackProfile {
    NativeFullstackProfile {
        schema: FULLSTACK.into(),
        ssr: SsrPolicy {
            enabled: true,
            mode: "bundled".into(),
            plan_schema: "vmz.plan.v0".into(),
            integrity: "".into(),
            allow_mixed_cookie_assumptions: false,
        },
        server_transport: ServerTransport {
            scheme: "#server".into(),
            endpoint: "app://local/__server".into(),
            bridge_bypasses_server: false,
        },
        auth: AuthSessionPolicy {
            mode: "session".into(),
            session_namespace: "vmz".into(),
            reauth_on_webview_crash: true,
        },
        push: PushPolicy { capability_id: "push.stub".into() },
        network: NetworkPolicy { mode: "https-only".into(), allow_cleartext: false },
        delivery_asset_mode: "local".into(),
        delivery_integrity: "".into(),
    }
}

#[test]
fn example_fullstack_ready() {
    let report = fullstack_check_report(&"check".into(), &FULLSTACK.into(), good_profile(), vec![], FoulFixture::Absent);
    assert_eq!(report.status, "ready", "{:?}", report.diagnostics);
    assert_eq!(report.fullstack.server_transport.scheme, "#server");
}

#[test]
fn rejects_bridge_bypasses_server() {
    let mut p = good_profile();
    p.server_transport.bridge_bypasses_server = true;
    let report = fullstack_check_report(&"check".into(), &FULLSTACK.into(), p, vec![], FoulFixture::Absent);
    assert_eq!(report.status, "failed");
    assert!(report.diagnostics.iter().any(|d| d.code == Some(NativeDiagCode::BridgeBypassesServer)));
}

#[test]
fn rejects_remote_ssr_without_integrity() {
    let mut p = good_profile();
    p.ssr.mode = "remote".into();
    let mut diags = Vec::new();
    validate_fullstack(&p, &FULLSTACK.into(), &mut diags);
    assert_eq!(codes(&diags), vec![NativeDiagCode::RemoteWithoutIntegrity]);
    assert_eq!(diags[0].path, "ssr.integrity");
}

#[test]
fn fullstack_rules_in_order() {
    let mut p = good_profile();
    p.schema = "other".into();
    p.ssr.mode = "hybrid".into();
    p.ssr.allow_mixed_cookie_assumptions = true;
    p.ssr.plan_schema = "vmz.plan.v1".into();
    p.server_transport.scheme = "https".into();
    p.network.allow_cleartext = true;
    p.delivery_asset_mode = "cdn".into();
    let mut diags = Vec::new();
    validate_fullstack(&p, &FULLSTACK.into(), &mut diags);
    assert_eq!(
        codes(&diags),
        vec![
            NativeDiagCode::InvalidProfile,
            NativeDiagCode::MissingSsrFirstPaint,
            NativeDiagCode::MixedSsrCookieAssumptions,
            NativeDiagCode::MissingServerTransport,
            NativeDiagCode::MissingNetworkPolicy,
            NativeDiagCode::InvalidProfile,
        ]
    );
    assert_eq!(diags[0].message, "fullstack schema must be `vmz.native.fullstack.v0`");
    assert_eq!(diags[5].message, "unknown deliveryAssetMode `cdn`");
}

#[test]
fn ssr_disabled_and_unknown_mode() {
    let mut p = good_profile();
    p.ssr.enabled = false;
    p.ssr.mode = "weird".into();
    let mut diags = Vec::new();
    validate_fullstack(&p, &FULLSTACK.into(), &mut diags);
    assert_eq!(diags.len(), 1);
    assert_eq!(diags[0].path, "ssr.enabled");
    let mut p = good_profile();
    p.ssr.mode = "".into();
    p.delivery_asset_mode = "remote".into();
    let mut diags = Vec::new();
    validate_fullstack(&p, &FULLSTACK.into(), &mut diags);
    assert_eq!(
        codes(&diags),
        vec![
            NativeDiagCode::MissingSsrFirstPaint,
            NativeDiagCode::MissingSsrFirstPaint,
            NativeDiagCode::RemoteWithoutIntegrity,
        ]
    );
    assert_eq!(diags[1].message, "unknown ssr.mode ``");
}

#[test]
fn load_diagnostics_and_foul_profile() {
    let load = vec![NativeHostDiagnostic {
        path: "native-fullstack.json".into(),
        severity: "error".into(),
        message: "invalid NativeFullstackProfile JSON: eof".into(),
        code: Some(NativeDiagCode::InvalidProfile),
    }];
    let mut bad = good_profile();
    bad.auth.reauth_on_webview_crash = false;
    let report = fullstack_check_report(&"check".into(), &FULLSTACK.into(), good_profile(), load, FoulFixture::Parsed(bad));
    assert_eq!(report.status, "failed");
    assert_eq!(report.diagnostics.len(), 2);
    assert_eq!(report.diagnostics[1].path, "auth.reauthOnWebViewCrash");
    let foul = FoulFixture::Unparsed("allowCleartext: yes".into());
    let report = fullstack_check_report(&"check".into(), &FULLSTACK.into(), good_profile(), vec![], foul);
    assert_eq!(report.diagnostics[0].message, "forbidden fullstack assumptions in foul fixture");
}

// --- WebView deployment profile ---

fn patterns() -> Vec<String> {
    strings(&["window.native", "eval(", "addJavascriptInterface"])
}

fn good_profile_nw0() -> WebViewDeploymentProfile {
    WebViewDeploymentProfile {
        identity: ShellIdentity { application_id: "com.example.app".into(), origin: "app://local".into() },
        reuses_browser_lowering: true,
        asset_mode: "local".into(),
        bridge: BridgePolicy {
            require_allowlist: true,
            capability_ids: strings(&["camera.capture"]),
            mode: "typed_capability".into(),
        },
        capabilities: vec![NativeCapability { id: "camera.capture".into(), capability_class: "NativeBacked".into() }],
    }
}

#[test]
fn rejects_window_native_pattern() {
    let mut diags = Vec::new();
    scan_bridge_text_for_arbitrary("x", "window.native = {}", &patterns(), &mut diags);
    assert!(diags.iter().any(|d| d.code == Some(NativeDiagCode::ArbitraryBridge)));
    assert_eq!(
        diags[0].message,
        "forbidden arbitrary bridge pattern `window.native` — use versioned NativeCapability calls only"
    );
    assert_eq!(diags[0].path, "x");
}

#[test]
fn example_profile_is_ready() {
    let report = native_host_check_report(
        &"vmz.native_host_check.v0".into(),
        good_profile_nw0(),
        "{\"assetMode\":\"local\"}",
        &patterns(),
        vec![],
        None,
    );
    assert_eq!(report.status, "ready", "{:?}", report.diagnostics);
    assert!(report.webview_deployment.reuses_browser_lowering);
}

#[test]
fn profile_capability_and_bridge_rules() {
    let mut p = good_profile_nw0();
    p.asset_mode = "remote".into();
    p.bridge.mode = "arbitrary".into();
    p.capabilities.push(NativeCapability { id: "nfc.read".into(), capability_class: "Unsupported".into() });
    p.capabilities.push(NativeCapability { id: "geo".into(), capability_class: "Magic".into() });
    let mut diags = Vec::new();
    validate_profile(&p, "window.native", &patterns(), &mut diags);
    assert_eq!(
        codes(&diags),
        vec![
            NativeDiagCode::RemoteUrlDefault,
            NativeDiagCode::ArbitraryBridge,
            NativeDiagCode::UnsupportedCapability,
            NativeDiagCode::MissingAllowlist,
            NativeDiagCode::UnsupportedCapability,
            NativeDiagCode::MissingAllowlist,
            NativeDiagCode::ArbitraryBridge,
        ]
    );
    assert_eq!(diags[2].message, "capability `nfc.read` is Unsupported on this profile");
    assert_eq!(diags[4].message, "unknown capabilityClass `Magic`");
    assert_eq!(diags[5].message, "capability `geo` not in bridge allowlist");
    assert_eq!(diags[6].path, "webviewDeployment");
}

#[test]
fn bridge_candidate_modes() {
    let none = check_bridge_candidate_json("{}", &patterns(), Some(BridgeCandidate { has_window_native: false, mode: None }));
    assert!(none.is_empty());
    let arbitrary = check_bridge_candidate_json(
        "{\"mode\":\"arbitrary\"}",
        &patterns(),
        Some(BridgeCandidate { has_window_native: false, mode: Some("arbitrary".into()) }),
    );
    assert_eq!(arbitrary.len(), 1);
    assert_eq!(arbitrary[0].message, "bridge candidate uses arbitrary injection mode");
    let unparsed = check_bridge_candidate_json("window.native(", &patterns(), None);
    assert_eq!(codes(&unparsed), vec![NativeDiagCode::ArbitraryBridge]);
}

// --- typed capability bridge ---

fn stub(id: &str) -> BridgeStub {
    BridgeStub {
        id: id.into(),
        capability_class: "NativeBacked".into(),
        is_async: true,
        cancellation: true,
        trace: true,
        permissions: strings(&["camera"]),
    }
}

fn first_batch_ids() -> Vec<String> {
    strings(&["camera.capture", "file.pick", "share.text"])
}

fn catalog() -> BridgeStubCatalog {
    BridgeStubCatalog {
        stubs: vec![stub("camera.capture"), stub("file.pick"), stub("share.text")],
        allowlist: first_batch_ids(),
    }
}

fn call() -> NativeCapabilityCall {
    NativeCapabilityCall {
        call_id: "c1".into(),
        capability_id: "camera.capture".into(),
        origin: "app://local".into(),
        nonce: "n-1".into(),
        timeout_ms: 5000,
        cancellation: true,
        trace: CallTrace { correlation_id: "t-1".into(), redact_sensitive: true },
        permissions: strings(&["camera"]),
    }
}

#[test]
fn example_bridge_ready() {
    let report = bridge_check_report(
        &"check".into(),
        catalog(),
        &first_batch_ids(),
        &patterns(),
        vec![],
        vec![(call(), "{\"callId\":\"c1\"}".into())],
        vec![],
        None,
    );
    assert_eq!(report.status, "ready", "{:?}", report.diagnostics);
    assert_eq!(report.stub_catalog.allowlist.len(), 3);
    assert_eq!(report.sample_calls.len(), 1);
}

#[test]
fn rejects_missing_nonce() {
    let mut c = call();
    c.nonce.clear();
    let report = bridge_check_report(&"check".into(), catalog(), &first_batch_ids(), &patterns(), vec![], vec![(c, "{}".into())], vec![], None);
    assert_eq!(report.status, "failed");
    assert!(report.diagnostics.iter().any(|d| d.code == Some(NativeDiagCode::MissingNonce)));
    assert_eq!(report.diagnostics[0].path, "call:c1");
}

#[test]
fn rejects_not_allowlisted() {
    let mut c = call();
    c.capability_id = "payment.charge".into();
    let report = bridge_check_report(&"check".into(), catalog(), &first_batch_ids(), &patterns(), vec![], vec![(c, "{}".into())], vec![], None);
    assert_eq!(report.status, "failed");
    assert!(report.diagnostics.iter().any(|d| d.code == Some(NativeDiagCode::CallNotAllowlisted)));
    assert_eq!(report.diagnostics[0].message, "capability `payment.charge` is not in bridge allowlist");
}

#[test]
fn call_envelope_rules_in_order() {
    let mut c = call();
    c.origin = " ".into();
    c.timeout_ms = 0;
    c.cancellation = false;
    c.trace.redact_sensitive = false;
    c.permissions.clear();
    let mut diags = Vec::new();
    validate_call(&c, "eval(x)", &first_batch_ids(), &patterns(), &mut diags);
    assert_eq!(
        codes(&diags),
        vec![
            NativeDiagCode::MissingOrigin,
            NativeDiagCode::MissingTimeout,
            NativeDiagCode::MissingCancel,
            NativeDiagCode::MissingTrace,
            NativeDiagCode::MissingPermission,
            NativeDiagCode::ArbitraryBridge,
        ]
    );
    assert_eq!(diags[5].message, "forbidden arbitrary bridge pattern `eval(` — use typed NativeCapabilityCall only");
}

#[test]
fn stub_catalog_rules() {
    let mut c = catalog();
    c.stubs.remove(1);
    c.allowlist = strings(&["camera.capture"]);
    c.stubs[0].capability_class = "PureWeb".into();
    c.stubs[1].cancellation = false;
    c.stubs[1].trace = false;
    c.stubs[1].permissions.clear();
    let mut diags = Vec::new();
    validate_stub_catalog(&c, &first_batch_ids(), &mut diags);
    assert_eq!(
        codes(&diags),
        vec![
            NativeDiagCode::UnknownStub,
            NativeDiagCode::CallNotAllowlisted,
            NativeDiagCode::CallNotAllowlisted,
            NativeDiagCode::UnknownStub,
            NativeDiagCode::MissingCancel,
            NativeDiagCode::MissingTrace,
            NativeDiagCode::MissingPermission,
        ]
    );
    assert_eq!(diags[0].message, "missing first-batch stub `file.pick`");
    assert_eq!(diags[3].message, "NW2 first-batch stub `camera.capture` must be NativeBacked, got `PureWeb`");
    assert_eq!(diags[4].message, "async stub `share.text` requires cancellation=true");
}

// --- app lifecycle ---

fn events() -> Vec<String> {
    strings(&["foreground", "background", "crash", "restore", "destroy"])
}

fn good_lifecycle() -> NativeAppLifecyclePolicy {
    NativeAppLifecyclePolicy {
        schema: "vmz.native.lifecycle.v0".into(),
        events: events(),
        background_equals_destroy: false,
        crash_restore_assumes_js_heap: false,
        persistence: PersistencePolicy { enabled: true, mode: "capability_backed".into(), reauth_on_restore: true },
        update: UpdatePolicy { channel: "stable".into(), rollback: "previous".into() },
        offline: OfflinePolicy { mode: "cached".into() },
        dispose_regions_on_destroy: true,
    }
}

#[test]
fn example_lifecycle_ready() {
    let report = lifecycle_check_report(
        &"check".into(),
        &"vmz.native.lifecycle.v0".into(),
        &events(),
        good_lifecycle(),
        vec![],
        FoulFixture::Absent,
    );
    assert_eq!(report.status, "ready", "{:?}", report.diagnostics);
    assert!(!report.lifecycle.background_equals_destroy);
}

#[test]
fn rejects_background_equals_destroy() {
    let mut p = good_lifecycle();
    p.background_equals_destroy = true;
    let report = lifecycle_check_report(&"check".into(), &"vmz.native.lifecycle.v0".into(), &events(), p, vec![], FoulFixture::Absent);
    assert_eq!(report.status, "failed");
    assert!(report.diagnostics.iter().any(|d| d.code == Some(NativeDiagCode::BackgroundIsDestroy)));
}

#[test]
fn rejects_crash_assumes_js_heap() {
    let mut p = good_lifecycle();
    p.crash_restore_assumes_js_heap = true;
    let report = lifecycle_check_report(&"check".into(), &"vmz.native.lifecycle.v0".into(), &events(), p, vec![], FoulFixture::Absent);
    assert_eq!(report.status, "failed");
    assert!(report.diagnostics.iter().any(|d| d.code == Some(NativeDiagCode::CrashAssumesJsHeap)));
}

#[test]
fn lifecycle_rules_in_order_schema_last() {
    let mut p = good_lifecycle();
    p.schema = "x".into();
    p.events = strings(&["foreground", "destroy"]);
    p.offline.mode = "none".into();
    p.update.rollback = "".into();
    p.dispose_regions_on_destroy = false;
    let mut diags = Vec::new();
    validate_lifecycle(&p, &events(), &"vmz.native.lifecycle.v0".into(), &mut diags);
    assert_eq!(
        codes(&diags),
        vec![
            NativeDiagCode::MissingLifecycleEvent,
            NativeDiagCode::MissingLifecycleEvent,
            NativeDiagCode::MissingLifecycleEvent,
            NativeDiagCode::MissingUpdatePolicy,
            NativeDiagCode::MissingOfflinePolicy,
            NativeDiagCode::MissingLifecycleEvent,
            NativeDiagCode::InvalidProfile,
        ]
    );
    assert_eq!(diags[0].message, "missing required lifecycle event `background`");
    assert_eq!(diags[6].path, "schema");
}

#[test]
fn unparsed_lifecycle_foul_fixture() {
    let report = lifecycle_check_report(
        &"check".into(),
        &"vmz.native.lifecycle.v0".into(),
        &events(),
        good_lifecycle(),
        vec![],
        FoulFixture::Unparsed("crashRestoreAssumesJsHeap: true".into()),
    );
    assert_eq!(report.status, "failed");
    assert_eq!(report.diagnostics[0].path, "native-lifecycle.foul.json");
}

// --- native surface ---

fn camera_preview() -> NativeSurfaceManifest {
    NativeSurfaceManifest {
        schema: "vmz.native.surface.v0".into(),
        surface_id: "camera.preview".into(),
        kind: "camera".into(),
        owner_region_id: "r1".into(),
        lifetime: "bound_to_region".into(),
        dispose_on_owner_destroy: true,
        shares_implicit_webview_state: false,
        confused_with_capability: false,
        is_semantic_truth_source: false,
        plan_schema: "vmz.plan.v0".into(),
        reuses_view_operations: true,
        boundary: SurfaceBoundary { serializable: true, schema_version: "1".into() },
    }
}

#[test]
fn example_camera_preview_ready() {
    let report = surface_check_report(&"check".into(), &"vmz.native.surface.v0".into(), camera_preview(), vec![], FoulFixture::Absent);
    assert_eq!(report.status, "ready", "{:?}", report.diagnostics);
    assert_eq!(report.surface.kind, "camera");
    assert!(!report.surface.confused_with_capability);
}

#[test]
fn rejects_implicit_state_share() {
    let mut s = camera_preview();
    s.shares_implicit_webview_state = true;
    let report = surface_check_report(&"check".into(), &"vmz.native.surface.v0".into(), s, vec![], FoulFixture::Absent);
    assert_eq!(report.status, "failed");
    assert!(report.diagnostics.iter().any(|d| d.code == Some(NativeDiagCode::ImplicitStateShare)));
}

#[test]
fn rejects_surface_as_capability() {
    let mut s = camera_preview();
    s.confused_with_capability = true;
    let report = surface_check_report(&"check".into(), &"vmz.native.surface.v0".into(), s, vec![], FoulFixture::Absent);
    assert_eq!(report.status, "failed");
    assert!(report.diagnostics.iter().any(|d| d.code == Some(NativeDiagCode::SurfaceIsCapability)));
}

#[test]
fn surface_rules_in_order() {
    let mut s = camera_preview();
    s.kind = "radar".into();
    s.lifetime = "".into();
    s.plan_schema = "own".into();
    s.boundary.schema_version = "".into();
    let mut diags = Vec::new();
    validate_surface(&s, &"vmz.native.surface.v0".into(), &mut diags);
    assert_eq!(
        codes(&diags),
        vec![
            NativeDiagCode::InvalidProfile,
            NativeDiagCode::MissingSurfaceLifetime,
            NativeDiagCode::SurfaceIsSemanticTruth,
            NativeDiagCode::ImplicitStateShare,
        ]
    );
    assert_eq!(diags[0].message, "NW5 high-value surface kind must be camera|map|video, got `radar`");
}

// --- multi-platform host profile ---

fn canonical() -> SharedContractSchemas {
    SharedContractSchemas {
        bridge_schema: "vmz.native.bridge.v0".into(),
        capability_call_schema: "vmz.native.call.v0".into(),
        surface_schema: "vmz.native.surface.v0".into(),
        shell_schema: "vmz.native.shell.v0".into(),
        deployment_schema: "vmz.webview.deployment.v0".into(),
        fullstack_schema: "vmz.native.fullstack.v0".into(),
        test_contract_schema: "vmz.native.test.v0".into(),
    }
}

fn mp_proto() -> MultiPlatformProtocol {
    MultiPlatformProtocol {
        manifest_schema: "vmz.native.multi_platform.v0".into(),
        shared_schema: "vmz.native.shared.v0".into(),
        canonical: canonical(),
        platforms: strings(&["ios", "android"]),
        packaging_stub: "packaging_stub".into(),
    }
}

fn mp_adapter(platform: &str) -> MultiPlatformAdapter {
    MultiPlatformAdapter {
        platform: platform.into(),
        kind: "packaging_stub".into(),
        packaging_only: true,
        is_semantic_truth_source: false,
        schemas: canonical(),
    }
}

fn good_mp() -> NativeMultiPlatformManifest {
    NativeMultiPlatformManifest {
        schema: "vmz.native.multi_platform.v0".into(),
        allows_platform_semantic_fork: false,
        shared: MultiPlatformSharedContracts { schema: "vmz.native.shared.v0".into(), schemas: canonical() },
        platforms: strings(&["ios", "android"]),
        adapters: vec![mp_adapter("ios"), mp_adapter("android")],
    }
}

#[test]
fn example_multi_platform_ready() {
    let report = multi_platform_check_report(&"check".into(), &mp_proto(), good_mp(), vec![], FoulFixture::Absent);
    assert_eq!(report.status, "ready", "{:?}", report.diagnostics);
}

#[test]
fn multi_platform_fork_and_private_schema() {
    let mut mp = good_mp();
    mp.allows_platform_semantic_fork = true;
    mp.adapters[1].schemas.shell_schema = "com.android.private.shell".into();
    mp.adapters[1].kind = "gradle".into();
    mp.adapters.push(mp_adapter("windows"));
    mp.platforms = strings(&["ios"]);
    let mut diags = Vec::new();
    validate_manifest(&mp, &mp_proto(), &mut diags);
    assert_eq!(
        codes(&diags),
        vec![
            NativeDiagCode::PlatformSemanticFork,
            NativeDiagCode::MissingPlatformAdapter,
            NativeDiagCode::AdapterIsSemanticCore,
            NativeDiagCode::PlatformSemanticFork,
            NativeDiagCode::PlatformPrivateSchema,
            NativeDiagCode::InvalidProfile,
        ]
    );
    assert_eq!(diags[1].message, "required platform `android` missing from platforms list");
    assert_eq!(diags[2].path, "adapters.android.kind");
    assert_eq!(diags[2].message, "native adapter kind must be `packaging_stub` (real Xcode/Gradle later); got `gradle`");
    assert_eq!(diags[3].path, "adapters.android.shellSchema");
    assert_eq!(
        diags[3].message,
        "platform semantic fork: shellSchema `com.android.private.shell` ≠ shared `vmz.native.shell.v0`"
    );
    assert_eq!(diags[4].message, "platform-private schema forbidden: `com.android.private.shell`");
    assert_eq!(diags[5].message, "unknown platform `windows` — native first version is ios|android only");
}

#[test]
fn shared_contracts_must_be_canonical() {
    let mut mp = good_mp();
    mp.shared.schemas.bridge_schema = "Com.Apple.Bridge".into();
    mp.adapters[0].schemas.bridge_schema = "Com.Apple.Bridge".into();
    mp.adapters[1].schemas.bridge_schema = "Com.Apple.Bridge".into();
    mp.adapters.remove(1);
    let mut diags = Vec::new();
    validate_manifest(&mp, &mp_proto(), &mut diags);
    assert_eq!(diags[0].path, "shared.bridgeSchema");
    assert_eq!(diags[0].message, "shared bridgeSchema must be `vmz.native.bridge.v0`, got `Com.Apple.Bridge`");
    assert_eq!(diags[1].code, Some(NativeDiagCode::PlatformPrivateSchema));
    // the ios adapter shares the manifest's schemas, but the name is private
    assert_eq!(diags[2].path, "adapters.ios.bridgeSchema");
    assert_eq!(diags[2].code, Some(NativeDiagCode::PlatformPrivateSchema));
    assert_eq!(diags[3].message, "missing `android` packaging adapter");
    assert_eq!(diags.len(), 4);
}
