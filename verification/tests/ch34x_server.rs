use base64::Engine;
use std::cell::RefCell;
use uniprog::ch34x::{Ch34xSettings, ChipKind, DeviceMode, ProgrammerHal};
use uniprog::ch34x_server::{device_json, probe_devices, Ch34xServer, UsbScan};
use uniprog::devcore::Ch34xOpener;
use uniprog::json::JsonValue;
use uniprog::rpc_server::{BUSY, CAPABILITY_NOT_EXPOSED, METHOD_NOT_FOUND, SERVER_ERROR};
use uniprog::sidecar::INVALID_PARAMS;

/// A flash chip behind a programmer: answers `9Fh` with a JEDEC id.
struct MockChip {
    last_cmd: RefCell<Vec<u8>>,
}

impl ProgrammerHal for MockChip {
    fn cs_low(&self) -> Result<(), String> {
        Ok(())
    }
    fn cs_high(&self) -> Result<(), String> {
        Ok(())
    }
    fn spi_tx(&self, data: &[u8]) -> Result<(), String> {
        *self.last_cmd.borrow_mut() = data.to_vec();
        Ok(())
    }
    fn spi_rx(&self, data: &mut [u8]) -> Result<(), String> {
        let id = [0xEF, 0x40, 0x18];
        for (i, b) in data.iter_mut().enumerate() {
            *b = if self.last_cmd.borrow().first() == Some(&0x9F) { *id.get(i).unwrap_or(&0xFF) } else { 0xFF };
        }
        Ok(())
    }
    fn i2c_write(&self, _data: &[u8]) -> Result<(), String> {
        Err("no i2c".to_string())
    }
    fn i2c_read(&self, _data: &mut [u8]) -> Result<usize, String> {
        Err("no i2c".to_string())
    }
    fn gpio_setbits(&self, _bits: u8) -> Result<(), String> {
        Err("no gpio".to_string())
    }
    fn gpio_getbits(&self) -> Result<u8, String> {
        Err("no gpio".to_string())
    }
    fn spi_frame_limit(&self) -> usize {
        4096
    }
    fn is_ch347(&self) -> bool {
        false
    }
    fn delay_ms(&self, _ms: u64) {}
    fn now_ms(&self) -> u64 {
        0
    }
}

/// A USB bus with one CH341A at bus 3, address 9, that opens only there.
struct MockBus {
    opened: RefCell<Vec<(Option<u8>, Option<u8>)>>,
}

impl Ch34xOpener for MockBus {
    type Device = MockChip;

    fn open_with_mode(&self, settings: &Ch34xSettings, mode: DeviceMode) -> Result<MockChip, String> {
        assert_eq!(mode, DeviceMode::Spi);
        self.opened.borrow_mut().push((settings.usb_bus, settings.usb_address));
        if settings.usb_bus == Some(3) && settings.usb_address == Some(9) {
            Ok(MockChip { last_cmd: RefCell::new(Vec::new()) })
        } else {
            Err("not found".to_string())
        }
    }
}

impl UsbScan for MockBus {
    fn usb_devices(&self) -> Vec<(ChipKind, u8, u8)> {
        vec![(ChipKind::Ch341A, 3, 9), (ChipKind::Ch347T, 1, 12)]
    }
}

fn bus() -> MockBus {
    MockBus { opened: RefCell::new(Vec::new()) }
}

fn member<'a>(v: &'a JsonValue, key: &str) -> Option<&'a JsonValue> {
    match v {
        JsonValue::Object(m) => m.iter().find(|(k, _)| k == key).map(|(_, x)| x),
        _ => None,
    }
}

fn text(v: Option<&JsonValue>) -> Option<&str> {
    match v {
        Some(JsonValue::Str(s)) => Some(s.as_str()),
        _ => None,
    }
}

fn error_of(r: &JsonValue) -> (i64, String) {
    let e = member(r, "error").expect("error member");
    let code = match member(e, "code") {
        Some(JsonValue::NegInt(c)) => *c,
        Some(JsonValue::UInt(c)) => *c as i64,
        _ => panic!("no code"),
    };
    (code, text(member(e, "message")).unwrap().to_string())
}

fn obj(pairs: Vec<(&str, JsonValue)>) -> JsonValue {
    JsonValue::Object(pairs.into_iter().map(|(k, v)| (k.to_string(), v)).collect())
}

fn s(t: &str) -> JsonValue {
    JsonValue::Str(t.to_string())
}

#[test]
fn ch34x_device_entries_name_bus_and_address() {
    let d = device_json("ch34x:ch341:3:9".to_string(), "ch341", "CH341A at USB bus 3 address 9".to_string());
    assert_eq!(text(member(&d, "id")), Some("ch34x:ch341:3:9"));
    let list = probe_devices(&vec![(ChipKind::Ch347T, 1, 12), (ChipKind::Ch347F, 255, 0)]);
    match list {
        JsonValue::Array(a) => {
            assert_eq!(a.len(), 2);
            assert_eq!(text(member(&a[0], "id")), Some("ch34x:ch347:1:12"));
            assert_eq!(text(member(&a[0], "kind")), Some("ch347"));
            assert_eq!(text(member(&a[0], "detail")), Some("CH347T at USB bus 1 address 12"));
            assert_eq!(text(member(&a[1], "id")), Some("ch34x:ch347f:255:0"));
            assert_eq!(text(member(&a[1], "detail")), Some("CH347F at USB bus 255 address 0"));
        }
        _ => panic!("expected an array"),
    }
}

#[test]
fn ch34x_handshake_and_probe() {
    let b = bus();
    let mut server: Ch34xServer<MockChip> = Ch34xServer::new();
    let r = server.handle(&b, 1, "handshake", &obj(vec![]));
    let res = member(&r, "result").unwrap();
    assert!(matches!(member(res, "protocol_version"), Some(JsonValue::UInt(1))));
    assert_eq!(text(member(res, "name")), Some("uni.hal.ch34x-sidecar"));
    let spi = member(member(res, "capabilities").unwrap(), "spi").unwrap();
    assert!(matches!(member(spi, "max_frame"), Some(JsonValue::UInt(4092))));
    let r = server.handle(&b, 2, "probe", &obj(vec![]));
    match member(member(&r, "result").unwrap(), "devices") {
        Some(JsonValue::Array(a)) => assert_eq!(text(member(&a[0], "id")), Some("ch34x:ch341:3:9")),
        _ => panic!("no devices"),
    }
}

#[test]
fn ch34x_open_execute_close_session() {
    let b = bus();
    let mut server: Ch34xServer<MockChip> = Ch34xServer::new();
    let r = server.handle(&b, 3, "open", &obj(vec![("device_id", s("ch34x:ch341:3:9"))]));
    assert_eq!(text(member(member(&r, "result").unwrap(), "session_id")), Some("ch34x-session-1"));
    assert_eq!(b.opened.borrow()[0], (Some(3), Some(9)));

    let b64 = base64::engine::general_purpose::STANDARD;
    let op = obj(vec![("op", s("spi_transact")), ("write_b64", s(&b64.encode([0x9F]))), ("read_len", JsonValue::UInt(3))]);
    let r = server.handle(&b, 4, "execute", &obj(vec![("session_id", s("ch34x-session-1")), ("op", op)]));
    let data = text(member(member(&r, "result").unwrap(), "data_b64")).unwrap();
    assert_eq!(b64.decode(data).unwrap(), vec![0xEF, 0x40, 0x18]);

    let r = server.handle(&b, 5, "execute", &obj(vec![("session_id", s("ch34x-session-1")), ("op", obj(vec![("op", s("gpio_set"))]))]));
    assert_eq!(error_of(&r), (CAPABILITY_NOT_EXPOSED as i64, "capability not exposed: gpio_set".to_string()));

    let bad = obj(vec![("op", s("spi_transact")), ("write_b64", s("!!"))]);
    let r = server.handle(&b, 6, "execute", &obj(vec![("session_id", s("ch34x-session-1")), ("op", bad)]));
    let (code, msg) = error_of(&r);
    assert_eq!(code, INVALID_PARAMS as i64);
    assert!(msg.starts_with("missing read_len"), "{msg}");

    let r = server.handle(&b, 7, "close", &obj(vec![("session_id", s("ch34x-session-1"))]));
    assert!(matches!(member(&r, "result"), Some(JsonValue::Object(m)) if m.is_empty()));
    let r = server.handle(&b, 8, "close", &obj(vec![("session_id", s("ch34x-session-1"))]));
    assert_eq!(error_of(&r), (BUSY as i64, "close before open or unknown session_id".to_string()));
    let r = server.handle(&b, 9, "execute", &obj(vec![("session_id", s("ch34x-session-1"))]));
    assert_eq!(error_of(&r), (BUSY as i64, "execute before open or unknown session_id".to_string()));
}

#[test]
fn ch34x_open_errors() {
    let b = bus();
    let mut server: Ch34xServer<MockChip> = Ch34xServer::new();
    let r = server.handle(&b, 1, "open", &obj(vec![("device_id", s("serprog:COM3"))]));
    let (code, msg) = error_of(&r);
    assert_eq!(code, INVALID_PARAMS as i64);
    assert!(msg.starts_with("invalid device_id: "), "{msg}");
    let r = server.handle(&b, 2, "open", &obj(vec![("device_id", s("ch34x:ch347:1:12"))]));
    assert_eq!(error_of(&r), (SERVER_ERROR as i64, "failed to open ch34x:ch347:1:12: not found".to_string()));
    let r = server.handle(&b, 3, "open", &obj(vec![]));
    assert_eq!(error_of(&r).0, INVALID_PARAMS as i64);
    let r = server.handle(&b, 4, "reset", &obj(vec![]));
    assert_eq!(error_of(&r), (METHOD_NOT_FOUND as i64, "method not found: reset".to_string()));
}
