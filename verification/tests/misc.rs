use uniprog::autodetect::{ch34x_index_candidate, ch34x_usb_candidate, scan_serprog, serprog_candidate};
use uniprog::boot::{boot_check_failed, boot_error_report, boot_log_level};
use uniprog::ch34x::ChipKind;
use uniprog::plugin::{BootCheck, PluginManifest};
use uniprog::script::check_script_plugin;
use uniprog::ui::{ConfirmKind, ConfirmRequest, FileFilter, NullUiHost, UiEvent, UiHost, UiTheme};
use uniprog::upt_log::Level;

#[test]
fn candidates_are_keyed_and_named() {
    let c = ch34x_index_candidate(2, ChipKind::Ch347F);
    assert_eq!(c.id, "ch347f:2");
    assert_eq!(c.name, "CH347F 编程器");
    assert_eq!(c.detail, "CH34X 设备 2");
    let u = ch34x_usb_candidate(ChipKind::Ch341A, 1, 14);
    assert_eq!(u.id, "ch341:1:14");
    assert_eq!(u.detail, "USB bus 1 addr 14");
    let s = serprog_candidate("COM3", "v1");
    assert_eq!(s.id, "serprog:COM3");
    assert_eq!(s.name, "Serprog (COM3)");
    assert_eq!(s.detail, "COM3 · v1");
    assert_eq!(s.port.as_deref(), Some("COM3"));
    let found = scan_serprog(&[("COM1".to_string(), None), ("COM4".to_string(), Some("x".to_string()))]);
    assert_eq!(found.len(), 1);
    assert_eq!(found[0].id, "serprog:COM4");
}

#[test]
fn boot_report_lists_missing_and_invalid() {
    let boot = BootCheck { missing: vec!["uni.tauri".to_string()], invalid: vec!["uni.hal".to_string(), "uni.proto".to_string()] };
    assert!(boot_check_failed(&boot));
    assert_eq!(
        boot_error_report(&boot),
        "UniProgrammer 启动失败：必需插件缺失或无效\n\n缺少的必需插件:\n  - uni.tauri\n\n无效的必需插件:\n  - uni.hal\n  - uni.proto\n\n请恢复 plugins/builtin 目录下的内置插件清单后重试。\n"
    );
    let ok = BootCheck { missing: Vec::new(), invalid: Vec::new() };
    assert!(!boot_check_failed(&ok));
    assert_eq!(boot_log_level(true), Level::Debug);
    assert_eq!(boot_log_level(false), Level::Info);
}

#[test]
fn only_protocol_js_plugins_run_as_scripts() {
    let js = PluginManifest::parse(
        "[package]\nname = \"p\"\nversion = \"1.0.0\"\nplugin_api = 1\nkind = \"protocol\"\nentry = \"main.js\"\n",
    )
    .ok()
    .unwrap();
    assert!(check_script_plugin(&js).is_ok());
    let exe = PluginManifest::parse(
        "[package]\nname = \"p\"\nversion = \"1.0.0\"\nplugin_api = 1\nkind = \"protocol\"\nentry = \"main.exe\"\n",
    )
    .ok()
    .unwrap();
    assert_eq!(check_script_plugin(&exe).err().unwrap(), "script plugin entry 'main.exe' must end with \".js\"");
    let adapter = PluginManifest::parse(
        "[package]\nname = \"p\"\nversion = \"1.0.0\"\nplugin_api = 1\nkind = \"adapter\"\nentry = \"main.js\"\n",
    )
    .ok()
    .unwrap();
    assert_eq!(check_script_plugin(&adapter).err().unwrap(), "script plugins require kind = \"protocol\", got 'adapter'");
}

#[test]
fn ui_requests_and_null_host() {
    let e = UiEvent::progress("read", 3, 10);
    assert_eq!(
        e,
        UiEvent::Progress { task: "read".to_string(), done: 3, total: 10, phase: None, message: None, elapsed_ms: None }
    );
    let f = FileFilter::new("Firmware", &["bin", "hex"]);
    assert_eq!(f.extensions, vec!["bin".to_string(), "hex".to_string()]);
    let q = ConfirmRequest::new("擦除", "确定?").danger();
    assert_eq!(q.kind, ConfirmKind::Danger);
    assert_eq!(q.confirm_label, "确认");
    assert_eq!(q.cancel_label, "取消");
    let host = NullUiHost;
    host.emit(UiEvent::Busy { running: true });
    assert!(!host.confirm(q));
    assert_eq!(host.open_file(&[f]), Ok(None));
    assert_eq!(host.theme(), UiTheme::System);
    assert_eq!(host.language(), "zh-CN");
    assert_eq!(UiTheme::default(), UiTheme::System);
}
