use uniprog::plugin::{
    builtin_modules, builtin_version, is_required_plugin, parse_plugin_state, required_plugin_names, CapabilitySet,
    Dependency, LoadedPlugin, PluginKind, PluginLayer, PluginManager, PluginManifest, PluginPermissions,
    PowerCapability, ScannedManifest, SpiCapability, UartCapability, PLUGIN_API_VERSION,
};

const MINIMAL: &str = r#"
[package]
name = "vnd.example.minimal"
version = "0.1.0"
plugin_api = 1
kind = "adapter"
entry = "plugin.exe"
"#;

fn builtin_manifest(name: &str, kind: &str) -> String {
    format!(
        r#"
[package]
name = "{name}"
version = "1.0.0"
plugin_api = 1
kind = "{kind}"
layer = "required"
entry = "builtin"
provider = "builtin"

[dependencies]

[permissions]

[capabilities]
"#
    )
}

fn scanned(dir: &str, manifest: &str, text: &str, builtin: bool) -> ScannedManifest {
    ScannedManifest {
        dir: dir.to_string(),
        manifest_path: format!("{dir}/{manifest}"),
        text: Ok(text.to_string()),
        builtin,
    }
}

fn third_party(dir: &str, text: &str) -> ScannedManifest {
    scanned(&format!("/root/plugins/{dir}"), "manifest.toml", text, false)
}

fn builtin(dir: &str, text: &str) -> ScannedManifest {
    scanned(&format!("/root/plugins/builtin/{dir}"), "unipkg.toml", text, true)
}

fn loaded_plugin(name: &str, version: &str, dependencies: Vec<Dependency>) -> LoadedPlugin {
    LoadedPlugin {
        manifest: PluginManifest {
            name: name.to_string(),
            version: version.to_string(),
            plugin_api: PLUGIN_API_VERSION,
            kind: PluginKind::Adapter,
            layer: PluginLayer::Cold,
            entry: "plugin.exe".to_string(),
            dependencies,
            permissions: PluginPermissions::default(),
            capabilities: CapabilitySet::default(),
            os: Vec::new(),
            arch: Vec::new(),
            app: None,
            provider: None,
        },
        path: name.to_string(),
        enabled: false,
        builtin: false,
    }
}

fn dep(name: &str, requirement: &str) -> Dependency {
    Dependency { name: name.to_string(), requirement: requirement.to_string() }
}

fn check_full_manifest(with_provider: bool) {
    let provider = if with_provider { "provider = \"vnd.example\"\n" } else { "" };
    let text = format!(
        r#"
[package]
name = "vnd.example.spi-programmer"
version = "1.2.3"
plugin_api = 1
kind = "adapter"
entry = "plugin.exe"
{provider}os = ["windows", "linux"]
arch = ["x86_64"]
app = "^0.3"

[dependencies]
"uni-base" = "^1"
"vnd.example.protocol" = "~1.0"

[permissions]
serial = false
usb = true
network = false
files = ["chips.json", "profiles/*.toml"]

[capabilities.spi]
pins = {{ cs = "CS1", sck = "SCK", mosi = "MOSI", miso = "MISO" }}
max_frame = 4092
max_freq_khz = 60000

[capabilities.uart]
endpoint = "UART1"

[capabilities.i2c]
enabled = true

[capabilities.gpio]
enabled = false

[capabilities.vcc_control]
enabled = true
range_mv = [1800, 3300]

[capabilities.wp_control]
enabled = true

[unknown_top_level]
foo = "bar"
"#
    );
    let manifest = PluginManifest::parse(&text).expect("full manifest should parse");

    assert_eq!(manifest.name, "vnd.example.spi-programmer");
    assert_eq!(manifest.version, "1.2.3");
    assert_eq!(manifest.plugin_api, 1);
    assert_eq!(manifest.kind, PluginKind::Adapter);
    assert_eq!(manifest.layer, PluginLayer::Cold);
    assert_eq!(manifest.entry, "plugin.exe");
    if with_provider {
        assert_eq!(manifest.provider.as_deref(), Some("vnd.example"));
    }
    assert_eq!(manifest.os, vec!["windows", "linux"]);
    assert_eq!(manifest.arch, vec!["x86_64"]);
    assert_eq!(manifest.app.as_deref(), Some("^0.3"));
    assert_eq!(manifest.dependencies.len(), 2);
    assert!(manifest.permissions.usb);
    assert!(!manifest.permissions.serial);
    assert!(!manifest.permissions.network);
    assert_eq!(manifest.permissions.files.len(), 2);

    let spi = manifest.capabilities.spi.as_ref().expect("spi declared");
    assert_eq!(
        spi.pins,
        Some(("CS1".to_string(), "SCK".to_string(), "MOSI".to_string(), "MISO".to_string()))
    );
    assert_eq!(spi.max_frame, 4092);
    assert_eq!(spi.max_freq_khz, 60000);
    assert_eq!(manifest.capabilities.uart.as_ref().unwrap().endpoint.as_deref(), Some("UART1"));
    assert!(manifest.capabilities.i2c);
    assert!(!manifest.capabilities.gpio);
    assert_eq!(manifest.capabilities.vcc_control.as_ref().unwrap().range_mv, Some((1800, 3300)));
    assert!(manifest.capabilities.wp_control);
}

#[test]
fn lib_parses_full_manifest() {
    check_full_manifest(true);
}

#[test]
fn plugin_parses_full_manifest() {
    check_full_manifest(false);
}

fn check_missing_capabilities_default_deny() {
    let manifest = PluginManifest::parse(MINIMAL).expect("minimal manifest should parse");
    let caps = manifest.capabilities;
    assert!(caps.spi.is_none());
    assert!(caps.uart.is_none());
    assert!(!caps.i2c);
    assert!(!caps.gpio);
    assert!(caps.vcc_control.is_none());
    assert!(!caps.wp_control);
    assert!(manifest.dependencies.is_empty());
    assert!(!manifest.permissions.serial);
    assert!(!manifest.permissions.usb);
    assert!(!manifest.permissions.network);
    assert!(manifest.permissions.files.is_empty());
}

#[test]
fn lib_missing_capabilities_default_deny() {
    check_missing_capabilities_default_deny();
}

#[test]
fn plugin_missing_capabilities_default_deny() {
    check_missing_capabilities_default_deny();
}

fn check_enabled_false_capability_is_valid_and_none() {
    let manifest = PluginManifest::parse(
        r#"
[package]
name = "vnd.example.disabled"
version = "0.1.0"
plugin_api = 1
kind = "adapter"
entry = "plugin.exe"

[capabilities.spi]
enabled = false

[capabilities.uart]
enabled = false

[capabilities.i2c]
enabled = false

[capabilities.gpio]
enabled = false

[capabilities.vcc_control]
enabled = false

[capabilities.wp_control]
enabled = false
"#,
    )
    .expect("disabled capabilities should parse");

    assert!(manifest.capabilities.spi.is_none());
    assert!(manifest.capabilities.uart.is_none());
    assert!(!manifest.capabilities.i2c);
    assert!(!manifest.capabilities.gpio);
    assert!(manifest.capabilities.vcc_control.is_none());
    assert!(!manifest.capabilities.wp_control);
}

#[test]
fn lib_enabled_false_capability_is_valid_and_none() {
    check_enabled_false_capability_is_valid_and_none();
}

#[test]
fn plugin_enabled_false_capability_is_valid_and_none() {
    check_enabled_false_capability_is_valid_and_none();
}

fn check_enabled_capability_without_required_limits_is_error() {
    let err = PluginManifest::parse(
        r#"
[package]
name = "vnd.example.bad-spi"
version = "0.1.0"
plugin_api = 1
kind = "adapter"
entry = "plugin.exe"

[capabilities.spi]
pins = { cs = "CS1", sck = "SCK", mosi = "MOSI", miso = "MISO" }
"#,
    )
    .err()
    .expect("SPI without limits must fail");
    assert!(err.contains("max_frame"), "unexpected error: {err}");

    let err = PluginManifest::parse(
        r#"
[package]
name = "vnd.example.bad-vcc"
version = "0.1.0"
plugin_api = 1
kind = "adapter"
entry = "plugin.exe"

[capabilities.vcc_control]
enabled = true
"#,
    )
    .err()
    .expect("VCC without range must fail");
    assert!(err.contains("range_mv"), "unexpected error: {err}");
}

#[test]
fn lib_enabled_capability_without_required_limits_is_error() {
    check_enabled_capability_without_required_limits_is_error();
}

#[test]
fn plugin_enabled_capability_without_required_limits_is_error() {
    check_enabled_capability_without_required_limits_is_error();
}

fn check_malformed_manifest_is_recorded_and_load_continues() {
    let scan = vec![third_party("broken", "[package]\nname = 42\n"), third_party("good", MINIMAL)];
    let manager = PluginManager::load(&scan, &Vec::new());

    assert_eq!(manager.plugins.len(), 1);
    assert_eq!(manager.plugins[0].manifest.name, "vnd.example.minimal");
    assert!(!manager.plugins[0].enabled);
    assert_eq!(manager.errors.len(), 1);
    assert!(manager.errors[0].0.contains("broken"));
    assert!(manager.errors[0].1.contains("name"));
}

#[test]
fn lib_malformed_manifest_is_recorded_and_load_continues() {
    check_malformed_manifest_is_recorded_and_load_continues();
}

#[test]
fn plugin_malformed_manifest_is_recorded_and_load_continues() {
    check_malformed_manifest_is_recorded_and_load_continues();
}

fn check_duplicate_plugin_names_are_a_load_error() {
    let scan = vec![third_party("first", MINIMAL), third_party("second", MINIMAL)];
    let manager = PluginManager::load(&scan, &Vec::new());
    assert_eq!(manager.plugins.len(), 1);
    assert_eq!(manager.errors.len(), 1);
    assert!(manager.errors[0].1.contains("duplicate plugin name"));
    assert!(manager.errors[0].1.contains("/root/plugins/first/manifest.toml"));
}

#[test]
fn lib_duplicate_plugin_names_are_a_load_error() {
    check_duplicate_plugin_names_are_a_load_error();
}

#[test]
fn plugin_duplicate_plugin_names_are_a_load_error() {
    check_duplicate_plugin_names_are_a_load_error();
}

#[test]
fn layer_parses_and_defaults_by_kind() {
    let manifest = PluginManifest::parse(
        "[package]\nname = \"vnd.example.explicit\"\nversion = \"0.1.0\"\nplugin_api = 1\nkind = \"adapter\"\nlayer = \"hot\"\nentry = \"plugin.exe\"\n",
    )
    .expect("explicit layer should parse");
    assert_eq!(manifest.layer, PluginLayer::Hot);

    let ui = PluginManifest::parse(
        "[package]\nname = \"vnd.example.ui\"\nversion = \"0.1.0\"\nplugin_api = 1\nkind = \"ui\"\nentry = \"plugin.exe\"\n",
    )
    .expect("ui manifest should parse");
    assert_eq!(ui.layer, PluginLayer::Required);

    let chipdb = PluginManifest::parse(
        "[package]\nname = \"vnd.example.chipdb\"\nversion = \"0.1.0\"\nplugin_api = 1\nkind = \"chipdb\"\nentry = \"plugin.exe\"\n",
    )
    .expect("chipdb manifest should parse");
    assert_eq!(chipdb.layer, PluginLayer::Required);

    let adapter = PluginManifest::parse(MINIMAL).expect("adapter manifest should parse");
    assert_eq!(adapter.layer, PluginLayer::Cold);

    let protocol = PluginManifest::parse(
        "[package]\nname = \"vnd.example.protocol\"\nversion = \"0.1.0\"\nplugin_api = 1\nkind = \"protocol\"\nentry = \"plugin.exe\"\n",
    )
    .expect("protocol manifest should parse");
    assert_eq!(protocol.layer, PluginLayer::Hot);

    let err = PluginManifest::parse(
        "[package]\nname = \"vnd.example.bad-layer\"\nversion = \"0.1.0\"\nplugin_api = 1\nkind = \"adapter\"\nlayer = \"warm\"\nentry = \"plugin.exe\"\n",
    )
    .err()
    .expect("invalid layer must fail");
    assert!(err.contains("unknown plugin layer 'warm'"), "{err}");
}

fn check_dependency_resolution_uni_base_unknown_and_unsatisfied() {
    let manager = PluginManager {
        plugins: vec![
            loaded_plugin("only-uni-base", "1.0.0", vec![dep("uni-base", "^1")]),
            loaded_plugin("unknown-dep", "1.0.0", vec![dep("vnd.missing", "^1")]),
            loaded_plugin("unsat-uni-base", "1.0.0", vec![dep("uni-base", "^2")]),
            loaded_plugin("dep-version", "1.0.0", vec![dep("only-uni-base", "~0.9")]),
        ],
        errors: Vec::new(),
    };

    let resolved = manager.resolve_dependencies("only-uni-base").expect("uni-base ^1");
    assert_eq!(resolved, vec!["only-uni-base"]);

    let err = manager.resolve_dependencies("unknown-dep").err().expect("unknown dependency must fail");
    assert!(err.contains("unknown dependency 'vnd.missing'"), "{err}");

    let err = manager.resolve_dependencies("unsat-uni-base").err().expect("unsatisfied uni-base must fail");
    assert!(err.contains("requires uni-base '^2'"), "{err}");

    let err = manager.resolve_dependencies("dep-version").err().expect("unsatisfied plugin version must fail");
    assert!(err.contains("requires only-uni-base '~0.9'"), "{err}");
}

#[test]
fn lib_dependency_resolution_uni_base_unknown_and_unsatisfied() {
    check_dependency_resolution_uni_base_unknown_and_unsatisfied();
}

#[test]
fn plugin_dependency_resolution_uni_base_unknown_and_unsatisfied() {
    check_dependency_resolution_uni_base_unknown_and_unsatisfied();
}

#[test]
fn every_builtin_module_resolves_and_reports_its_version() {
    let manager = PluginManager { plugins: Vec::new(), errors: Vec::new() };

    let modules = builtin_modules();
    assert_eq!(modules.len(), 13);
    for module in &modules {
        let resolved = manager
            .resolve_dependencies(&module.name)
            .unwrap_or_else(|e| panic!("builtin {} should resolve: {e}", module.name));
        assert_eq!(resolved, vec![module.name.clone()]);
        assert_eq!(builtin_version(&module.name), Some(module.version.as_str()));
    }
}

#[test]
fn builtin_dependency_versions_are_checked() {
    let manager = PluginManager {
        plugins: vec![
            loaded_plugin("uses-hal-v1", "1.0.0", vec![dep("uni.hal", "^1")]),
            loaded_plugin("uses-hal-v2", "1.0.0", vec![dep("uni.hal", "^2")]),
        ],
        errors: Vec::new(),
    };

    let resolved = manager.resolve_dependencies("uses-hal-v1").expect("uni.hal ^1 must resolve");
    assert_eq!(resolved, vec!["uses-hal-v1"]);

    let err = manager.resolve_dependencies("uses-hal-v2").err().expect("uni.hal ^2 must fail");
    assert!(err.contains("依赖 uni.hal 需要 ^2，当前内置版本为 1.0.0"), "unexpected error: {err}");
}

fn check_dependency_cycle_is_reported() {
    let manager = PluginManager {
        plugins: vec![
            loaded_plugin("a", "1.0.0", vec![dep("b", "^1")]),
            loaded_plugin("b", "1.0.0", vec![dep("a", "^1")]),
        ],
        errors: Vec::new(),
    };

    let err = manager.resolve_dependencies("a").err().expect("cycle must fail");
    assert!(err.contains("dependency cycle"), "{err}");
    assert!(err.contains("a -> b -> a"), "{err}");
}

#[test]
fn lib_dependency_cycle_is_reported() {
    check_dependency_cycle_is_reported();
}

#[test]
fn plugin_dependency_cycle_is_reported() {
    check_dependency_cycle_is_reported();
}

#[test]
fn dependencies_resolve_dependency_first() {
    let manager = PluginManager {
        plugins: vec![
            loaded_plugin("app", "1.0.0", vec![dep("lib", "^1"), dep("uni-base", "^1")]),
            loaded_plugin("lib", "1.2.0", vec![dep("core", "~0.3")]),
            loaded_plugin("core", "0.3.1", Vec::new()),
        ],
        errors: Vec::new(),
    };
    let resolved = manager.resolve_dependencies("app").expect("chain resolves");
    assert_eq!(resolved, vec!["core", "lib", "app"]);
    let err = manager.resolve_dependencies("nope").err().expect("unknown plugin");
    assert_eq!(err, "unknown plugin 'nope'");
}

#[test]
fn load_scans_plugins_builtin_directory() {
    let scan = vec![builtin("uni.hal", &builtin_manifest("uni.hal", "adapter"))];
    let manager = PluginManager::load(&scan, &Vec::new());

    assert_eq!(manager.errors, Vec::<(String, String)>::new());
    assert_eq!(manager.plugins.len(), 1);
    assert_eq!(manager.plugins[0].manifest.name, "uni.hal");
    assert_eq!(manager.plugins[0].manifest.layer, PluginLayer::Required);
    assert_eq!(manager.plugins[0].manifest.provider.as_deref(), Some("builtin"));
    assert!(manager.plugins[0].builtin);
    assert!(manager.plugins[0].enabled);
}

const BUILTIN_COLD: &str = r#"
[package]
name = "uni.hal.ch34x"
version = "1.0.0"
plugin_api = 1
kind = "adapter"
layer = "cold"
entry = "uni_ch34x_sidecar"
provider = "builtin"

[capabilities.spi]
enabled = true
pins = { cs = "CS0", sck = "SCK", mosi = "MOSI", miso = "MISO" }
max_frame = 4092
max_freq_khz = 60000
"#;

#[test]
fn builtin_cold_plugins_start_enabled_but_can_be_disabled_in_state() {
    let scan = vec![builtin("uni.hal.ch34x", BUILTIN_COLD)];
    let manager = PluginManager::load(&scan, &Vec::new());
    assert_eq!(manager.plugins.len(), 1);
    assert!(manager.plugins[0].builtin);
    assert!(manager.plugins[0].enabled);

    let text = manager.plugin_state_text().expect("state should encode");
    let state = parse_plugin_state(&text);
    assert_eq!(state, vec![("uni.hal.ch34x".to_string(), true)]);

    let mut disabled = manager;
    disabled.disable("uni.hal.ch34x").expect("cold plugin can be disabled");
    let text = disabled.plugin_state_text().expect("disabled state should encode");
    let reloaded = PluginManager::load(&scan, &parse_plugin_state(&text));
    assert!(!reloaded.plugins[0].enabled);
}

#[test]
fn third_party_cold_plugins_stay_disabled_until_state_enables_them() {
    let manifest = r#"
[package]
name = "vnd.example.programmer"
version = "0.2.0"
plugin_api = 1
kind = "adapter"
layer = "cold"
entry = "plugin.exe"

[capabilities.spi]
enabled = true
pins = { cs = "CS0", sck = "SCK", mosi = "MOSI", miso = "MISO" }
max_frame = 4092
max_freq_khz = 60000
"#;
    let scan = vec![third_party("vnd.example.programmer", manifest)];
    let mut manager = PluginManager::load(&scan, &Vec::new());
    assert!(!manager.plugins[0].enabled);

    manager.enable("vnd.example.programmer", "linux", "x86_64").expect("third-party cold plugin should enable");
    let text = manager.plugin_state_text().expect("state should encode");

    let reloaded = PluginManager::load(&scan, &parse_plugin_state(&text));
    assert!(reloaded.plugins[0].enabled);
}

#[test]
fn enable_checks_api_os_and_arch() {
    let mut restricted = loaded_plugin("vnd.only-windows", "1.0.0", Vec::new());
    restricted.manifest.os = vec!["windows".to_string()];
    let mut future = loaded_plugin("vnd.future", "1.0.0", Vec::new());
    future.manifest.plugin_api = 2;
    let mut arm = loaded_plugin("vnd.arm", "1.0.0", Vec::new());
    arm.manifest.arch = vec!["aarch64".to_string()];
    let mut manager = PluginManager { plugins: vec![restricted, future, arm], errors: Vec::new() };

    let err = manager.enable("vnd.only-windows", "linux", "x86_64").err().expect("wrong OS");
    assert_eq!(err, "plugin 'vnd.only-windows' is not compatible with OS 'linux' (allowed: windows)");
    manager.enable("vnd.only-windows", "windows", "x86_64").expect("right OS");
    assert!(manager.plugins[0].enabled);

    let err = manager.enable("vnd.future", "linux", "x86_64").err().expect("wrong API");
    assert_eq!(err, "plugin 'vnd.future' targets plugin_api 2 but this host implements 1");
    assert!(!manager.plugins[1].enabled);

    let err = manager.enable("vnd.arm", "linux", "x86_64").err().expect("wrong arch");
    assert!(err.contains("not compatible with arch 'x86_64' (allowed: aarch64)"), "{err}");

    let err = manager.enable("vnd.none", "linux", "x86_64").err().expect("unknown");
    assert_eq!(err, "unknown plugin 'vnd.none'");
}

fn required_scan() -> Vec<ScannedManifest> {
    [("uni.tauri", "ui"), ("uni.hal", "adapter"), ("uni.chipdb", "chipdb"), ("uni.tauri.hexview", "ui"), ("uni.proto", "protocol")]
        .iter()
        .map(|(name, kind)| builtin(name, &builtin_manifest(name, kind)))
        .collect()
}

#[test]
fn boot_check_ok_when_all_required_builtin_manifests_exist() {
    let manager = PluginManager::load(&required_scan(), &Vec::new());
    assert_eq!(manager.plugins.len(), required_plugin_names().len());

    let boot = manager.boot_check();
    assert!(boot.missing.is_empty(), "unexpected missing: {:?}", boot.missing);
    assert!(boot.invalid.is_empty(), "unexpected invalid: {:?}", boot.invalid);
}

#[test]
fn boot_check_reports_missing_required_plugins() {
    let manager = PluginManager { plugins: vec![loaded_plugin("uni.hal", "1.0.0", Vec::new())], errors: Vec::new() };

    let boot = manager.boot_check();
    assert_eq!(
        boot.missing,
        vec!["uni.tauri".to_string(), "uni.chipdb".to_string(), "uni.tauri.hexview".to_string(), "uni.proto".to_string()]
    );
    assert!(boot.invalid.is_empty());
}

#[test]
fn boot_check_reports_duplicate_required_plugin_as_invalid() {
    let scan = vec![
        third_party("uni.hal", &builtin_manifest("uni.hal", "adapter")),
        builtin("uni.hal", &builtin_manifest("uni.hal", "adapter")),
    ];
    let manager = PluginManager::load(&scan, &Vec::new());
    assert_eq!(manager.plugins.len(), 1);
    assert_eq!(manager.errors.len(), 1);

    let boot = manager.boot_check();
    assert_eq!(boot.invalid, vec!["uni.hal".to_string()]);
    assert!(!boot.missing.contains(&"uni.hal".to_string()));
}

#[test]
fn boot_check_reports_parse_error_required_plugin_as_invalid() {
    let manager = PluginManager {
        plugins: Vec::new(),
        errors: vec![(
            "/plugins/builtin/uni.hal/unipkg.toml".to_string(),
            "invalid TOML: expected a table".to_string(),
        )],
    };

    let boot = manager.boot_check();
    assert_eq!(boot.invalid, vec!["uni.hal".to_string()]);
    assert!(!boot.missing.contains(&"uni.hal".to_string()));
}

#[test]
fn boot_check_matches_backslash_paths_and_exact_names() {
    let manager = PluginManager {
        plugins: Vec::new(),
        errors: vec![
            ("C:\\app\\plugins\\builtin\\uni.proto\\unipkg.toml".to_string(), "bad".to_string()),
            ("uni.chipdb".to_string(), "bad".to_string()),
            ("/plugins/uni.tauri.hexviewer/unipkg.toml".to_string(), "bad".to_string()),
        ],
    };
    let boot = manager.boot_check();
    assert_eq!(boot.invalid, vec!["uni.chipdb".to_string(), "uni.proto".to_string()]);
    assert_eq!(boot.missing, vec!["uni.tauri".to_string(), "uni.hal".to_string(), "uni.tauri.hexview".to_string()]);
}

#[test]
fn required_plugin_cannot_be_disabled_and_enable_is_noop() {
    let mut manager = PluginManager { plugins: vec![loaded_plugin("uni.hal", "1.0.0", Vec::new())], errors: Vec::new() };

    let err = manager.disable("uni.hal").err().expect("required plugin must not be disabled");
    assert!(err.contains("required plugin 'uni.hal' cannot be disabled"), "unexpected error: {err}");
    assert!(!manager.plugins[0].enabled);

    manager.enable("uni.hal", "linux", "x86_64").expect("enabling a required plugin is a no-op success");
    assert!(!manager.plugins[0].enabled);
    assert!(is_required_plugin("uni.hal"));
    assert!(!is_required_plugin("uni.hal.ch34x"));
}

fn check_capability_intersection_works() {
    let declared = CapabilitySet {
        spi: Some(SpiCapability {
            pins: Some(("CS1".to_string(), "SCK".to_string(), "MOSI".to_string(), "MISO".to_string())),
            max_frame: 4092,
            max_freq_khz: 60000,
        }),
        uart: Some(UartCapability { endpoint: Some("UART1".to_string()) }),
        i2c: true,
        gpio: true,
        vcc_control: Some(PowerCapability { range_mv: Some((1800, 3300)) }),
        wp_control: true,
    };

    let effective = CapabilitySet {
        spi: Some(SpiCapability {
            pins: Some(("CS0".to_string(), "SCK".to_string(), "MOSI".to_string(), "MISO".to_string())),
            max_frame: 2048,
            max_freq_khz: 30000,
        }),
        uart: Some(UartCapability { endpoint: Some("UART0".to_string()) }),
        i2c: true,
        gpio: false,
        vcc_control: Some(PowerCapability { range_mv: Some((2000, 4000)) }),
        wp_control: true,
    };

    let exposed = effective.expose(&declared).ok().expect("ranges intersect");

    let spi = exposed.spi.as_ref().expect("spi exposed");
    assert_eq!(spi.max_frame, 2048);
    assert_eq!(spi.max_freq_khz, 30000);
    assert_eq!(spi.pins.as_ref().unwrap().0, "CS0");
    assert_eq!(exposed.uart.as_ref().unwrap().endpoint.as_deref(), Some("UART0"));
    assert!(exposed.i2c);
    assert!(!exposed.gpio);
    assert_eq!(exposed.vcc_control.as_ref().unwrap().range_mv, Some((2000, 3300)));
    assert!(exposed.wp_control);
}

#[test]
fn lib_capability_intersection_works() {
    check_capability_intersection_works();
}

#[test]
fn plugin_capability_intersection_works() {
    check_capability_intersection_works();
}

fn check_capability_intersection_rejects_empty_vcc_range() {
    let declared = CapabilitySet {
        vcc_control: Some(PowerCapability { range_mv: Some((1800, 2000)) }),
        ..CapabilitySet::default()
    };
    let effective = CapabilitySet {
        vcc_control: Some(PowerCapability { range_mv: Some((2500, 3000)) }),
        ..CapabilitySet::default()
    };

    let err = effective.expose(&declared).err().expect("empty range must fail");
    assert!(err.contains("VCC control range intersection is empty"), "{err}");
}

#[test]
fn lib_capability_intersection_rejects_empty_vcc_range() {
    check_capability_intersection_rejects_empty_vcc_range();
}

#[test]
fn plugin_capability_intersection_rejects_empty_vcc_range() {
    check_capability_intersection_rejects_empty_vcc_range();
}

#[test]
fn plugin_state_skips_malformed_entries() {
    let state = parse_plugin_state("[plugins]\n\"a\" = true\n\"b\" = \"yes\"\n\"c\" = false\n");
    assert_eq!(state, vec![("a".to_string(), true), ("c".to_string(), false)]);
    assert!(parse_plugin_state("not [ toml").is_empty());
    assert!(parse_plugin_state("[other]\nx = true\n").is_empty());
}

#[test]
fn required_layer_plugins_are_not_persisted() {
    let manager = PluginManager::load(&required_scan(), &Vec::new());
    let text = manager.plugin_state_text().expect("state should encode");
    assert!(parse_plugin_state(&text).is_empty());
}
