use uniprog::pkg_path::{is_root_manifest, normalized_entry_name, safe_entry_path, safe_relative_path, validate_plugin_name};
use uniprog::unipkg::{content_type, error_page, html_escape, request_target, UnipkgProtocol};
use uniprog::plugin::{PluginManager, ScannedManifest};
use uniprog::settings::{debug_console_enabled, looks_installed, settings_location, SettingsLocation};

#[test]
fn rejects_path_traversal() {
    assert!(safe_relative_path("dist/index.html"));
    assert!(!safe_relative_path("../chiplib.bin"));
    assert!(!safe_relative_path("dist/../../chiplib.bin"));
    assert!(!safe_relative_path("C:/windows/win.ini"));
}

#[test]
fn relative_paths_follow_windows_rules() {
    assert!(safe_relative_path("dist\\assets\\app.js"));
    assert!(safe_relative_path("dist/./app.js"));
    assert!(!safe_relative_path("./dist/app.js"));
    assert!(!safe_relative_path("/etc/passwd"));
    assert!(!safe_relative_path("\\\\server\\share"));
    assert!(!safe_relative_path("dist\\..\\x"));
}

#[test]
fn plugin_names_are_single_directory_names() {
    assert!(validate_plugin_name("vnd.example.minimal").is_ok());
    assert_eq!(validate_plugin_name("").err().unwrap(), "plugin manifest package.name is empty");
    assert_eq!(
        validate_plugin_name("a/b").err().unwrap(),
        "invalid plugin name 'a/b': path separators are not allowed"
    );
    assert!(validate_plugin_name("a\\b").is_err());
    assert_eq!(validate_plugin_name("..").err().unwrap(), "invalid plugin name '..'");
    assert!(validate_plugin_name(".").is_err());
    assert!(validate_plugin_name("C:").is_err());
}

#[test]
fn archive_entry_names() {
    assert_eq!(normalized_entry_name("./././unipkg.toml"), "unipkg.toml");
    assert_eq!(normalized_entry_name(".\\manifest.toml"), "manifest.toml");
    assert!(is_root_manifest("./unipkg.toml"));
    assert!(is_root_manifest("manifest.toml"));
    assert!(!is_root_manifest("sub/unipkg.toml"));
    assert_eq!(safe_entry_path("./dist//app.js").unwrap(), vec!["dist".to_string(), "app.js".to_string()]);
    assert_eq!(safe_entry_path("a\\b\\c.txt").unwrap(), vec!["a".to_string(), "b".to_string(), "c.txt".to_string()]);
    assert!(safe_entry_path("../evil").unwrap_err().contains("unsafe path in ZIP package"));
    assert!(safe_entry_path("/abs").is_err());
    assert!(safe_entry_path("C:/x").is_err());
    assert!(safe_entry_path("./").is_err());
}

fn ui_manifest(name: &str, entry: &str) -> String {
    format!(
        "[package]\nname = \"{name}\"\nversion = \"1.0.0\"\nplugin_api = 1\nkind = \"ui\"\nlayer = \"required\"\nentry = \"{entry}\"\n"
    )
}

#[test]
fn resolves_ui_plugin_entry_and_assets() {
    let scan = vec![
        ScannedManifest {
            dir: "/r/plugins/builtin/uni.hexview".to_string(),
            manifest_path: "/r/plugins/builtin/uni.hexview/unipkg.toml".to_string(),
            text: Ok(ui_manifest("uni.hexview", "dist/index.html")),
            builtin: true,
        },
        ScannedManifest {
            dir: "/r/plugins/builtin/uni.shell".to_string(),
            manifest_path: "/r/plugins/builtin/uni.shell/unipkg.toml".to_string(),
            text: Ok(ui_manifest("uni.shell", "builtin")),
            builtin: true,
        },
    ];
    let manager = PluginManager::load(&scan, &Vec::new());
    let protocol = UnipkgProtocol::from_manager(&manager);
    let asset = protocol.get("uni.hexview").unwrap();
    assert_eq!(asset.entry, "dist/index.html");
    assert_eq!(asset.package_dir, "/r/plugins/builtin/uni.hexview");
    assert_eq!(protocol.get("uni.shell").unwrap().entry, "dist/index.html");

    let (dir, file) = protocol.resolve("localhost", "/uni.hexview/").ok().unwrap();
    assert_eq!((dir.as_str(), file.as_str()), ("/r/plugins/builtin/uni.hexview", "dist/index.html"));
    let (_, file) = protocol.resolve("uni.hexview", "/dist/assets/app.js").ok().unwrap();
    assert_eq!(file, "dist/assets/app.js");
    let (status, message) = protocol.resolve("localhost", "/uni.hexview/../unipkg.toml").err().unwrap();
    assert_eq!(status, 403);
    assert!(message.contains("Path traversal rejected."));
    let (status, message) = protocol.resolve("localhost", "/nope/x.js").err().unwrap();
    assert_eq!(status, 404);
    assert!(message.contains("Plugin not found: nope"));
}

#[test]
fn request_targets() {
    assert_eq!(request_target("localhost", "//plugin/a/b.js"), ("plugin".to_string(), "a/b.js".to_string()));
    assert_eq!(request_target("localhost", "/plugin"), ("plugin".to_string(), String::new()));
    assert_eq!(request_target("legacy", "/x.js"), ("legacy".to_string(), "x.js".to_string()));
}

#[test]
fn content_types_and_error_page() {
    assert_eq!(content_type(Some("HTML")), "text/html; charset=utf-8");
    assert_eq!(content_type(Some("mjs")), "text/javascript; charset=utf-8");
    assert_eq!(content_type(Some("woff2")), "font/woff2");
    assert_eq!(content_type(Some("exe")), "application/octet-stream");
    assert_eq!(content_type(None), "application/octet-stream");
    assert_eq!(html_escape("a<b>&c"), "a&lt;b&gt;&amp;c");
    let page = error_page(404, "<x>");
    assert!(page.starts_with("<!doctype html><html><head><meta charset=\"utf-8\"><title>unipkg 404</title>"));
    assert!(page.ends_with("<pre>&lt;x&gt;</pre></body></html>"));
}

#[test]
fn debug_console_setting() {
    assert!(debug_console_enabled("[General]\r\ndebugConsole = TRUE\r\n"));
    assert!(debug_console_enabled("x=1\n[general]\n  DebugConsole=on\n"));
    assert!(!debug_console_enabled("[other]\ndebugConsole = true\n"));
    assert!(!debug_console_enabled("[general]\n[ui]\ndebugConsole = yes\n"));
    assert!(!debug_console_enabled("[general]\ndebugConsole = false\n"));
    assert!(!debug_console_enabled(""));
}

#[test]
fn settings_file_location() {
    assert_eq!(settings_location(true, true, Some(false), true), SettingsLocation::Home);
    assert_eq!(settings_location(true, true, None, true), SettingsLocation::Portable);
    assert_eq!(settings_location(false, true, Some(true), true), SettingsLocation::Portable);
    assert_eq!(settings_location(false, false, Some(true), false), SettingsLocation::Home);
    assert_eq!(settings_location(false, false, Some(false), true), SettingsLocation::Portable);
    assert_eq!(settings_location(false, false, Some(false), false), SettingsLocation::Home);
    assert_eq!(settings_location(false, false, None, false), SettingsLocation::Portable);
    assert!(looks_installed("C:\\Program Files\\UniProgrammer", true));
    assert!(!looks_installed("D:\\tools\\UniProgrammer", true));
    assert!(looks_installed("/opt/uniprog", false));
    assert!(!looks_installed("/home/u/uniprog", false));
}
