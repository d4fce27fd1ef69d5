use base64::Engine;
use serde_json::Value;
use std::collections::VecDeque;
use uniprog::json::JsonValue;
use uniprog::plugin::{CapabilitySet, SpiCapability};
use uniprog::sidecar::{
    capabilities_json, decode_devices, decode_spi_transact, interpret_response, spi_transact_op, SidecarClient,
    SidecarTransport, INVALID_PARAMS,
};

const JEDEC_ID: [u8; 3] = [0xEF, 0x40, 0x18];

/// A sidecar answered in place: each request is answered as it is sent.
struct MockSidecar {
    replies: VecDeque<Vec<u8>>,
    requests: Vec<Value>,
}

fn b64() -> base64::engine::GeneralPurpose {
    base64::engine::general_purpose::STANDARD
}

impl MockSidecar {
    fn new() -> Self {
        MockSidecar { replies: VecDeque::new(), requests: Vec::new() }
    }

    fn answer(&self, request: &Value) -> String {
        let id = request.get("id").and_then(Value::as_u64).unwrap();
        let method = request.get("method").and_then(Value::as_str).unwrap_or("");
        let params = request.get("params").cloned().unwrap_or(Value::Null);
        match method {
            "handshake" => format!("{{\"id\":{id},\"result\":{{\"protocol_version\":1}}}}"),
            "probe" => format!(
                "{{\"id\":{id},\"result\":{{\"devices\":[{{\"id\":\"mock-0\",\"kind\":\"spi\",\"detail\":\"Mock SPI adapter\"}}]}}}}"
            ),
            "open" => format!("{{\"id\":{id},\"result\":{{\"session_id\":\"sess-1\"}}}}"),
            "close" => format!("{{\"id\":{id},\"result\":{{}}}}"),
            "execute" => {
                if params.get("session_id").and_then(Value::as_str) != Some("sess-1") {
                    return format!(
                        "{{\"id\":{id},\"error\":{{\"code\":-32002,\"message\":\"execute before open or unknown session_id\"}}}}"
                    );
                }
                let op = params.get("op").cloned().unwrap_or(Value::Null);
                let op_name = op.get("op").and_then(Value::as_str).unwrap_or("");
                if op_name == "spi_transact" {
                    let write = b64().decode(op.get("write_b64").and_then(Value::as_str).unwrap_or("")).unwrap_or_default();
                    let read_len = op.get("read_len").and_then(Value::as_u64).unwrap_or(0) as usize;
                    let mut data = vec![0xFFu8; read_len];
                    if write.contains(&0x9F) {
                        for (i, byte) in JEDEC_ID.iter().enumerate().take(read_len) {
                            data[i] = *byte;
                        }
                    }
                    format!("{{\"id\":{id},\"result\":{{\"data_b64\":\"{}\"}}}}", b64().encode(&data))
                } else {
                    format!(
                        "{{\"id\":{id},\"error\":{{\"code\":-32001,\"message\":\"capability not exposed: {op_name}\"}}}}"
                    )
                }
            },
            _ => format!("{{\"id\":{id},\"error\":{{\"code\":-32601,\"message\":\"method not found: {method}\"}}}}"),
        }
    }
}

impl SidecarTransport for MockSidecar {
    fn send(&mut self, bytes: &[u8]) -> Result<(), String> {
        let request: Value = serde_json::from_slice(bytes).map_err(|e| e.to_string())?;
        let reply = self.answer(&request);
        self.requests.push(request);
        self.replies.push_back(reply.into_bytes());
        Ok(())
    }

    fn recv(&mut self) -> Result<Vec<u8>, String> {
        self.replies.pop_front().ok_or_else(|| "mock channel recv failed".to_string())
    }
}

fn spi_capabilities() -> CapabilitySet {
    CapabilitySet {
        spi: Some(SpiCapability {
            pins: Some(("CS0".to_string(), "SCK".to_string(), "MOSI".to_string(), "MISO".to_string())),
            max_frame: 4092,
            max_freq_khz: 60000,
        }),
        ..CapabilitySet::default()
    }
}

fn open_mock_session(client: &mut SidecarClient<MockSidecar>) -> String {
    client.handshake("uni-hal-test", "0.1.0", &spi_capabilities()).expect("handshake should succeed");
    let devices = client.probe().expect("probe should succeed");
    assert_eq!(devices.len(), 1);
    assert_eq!(devices[0].id, "mock-0");
    client.open("mock-0").expect("open should succeed")
}

fn obj(members: Vec<(&str, JsonValue)>) -> JsonValue {
    JsonValue::Object(members.into_iter().map(|(k, v)| (k.to_string(), v)).collect())
}

fn text(s: &str) -> JsonValue {
    JsonValue::Str(s.to_string())
}

#[test]
fn handshake_probe_open_spi_roundtrip() {
    let mut client = SidecarClient::new(MockSidecar::new());

    let session = open_mock_session(&mut client);
    assert_eq!(session, "sess-1");

    let jedec = client.spi_transact(&session, &[0x9F], 4).expect("spi_transact should succeed");
    assert_eq!(jedec, vec![0xEF, 0x40, 0x18, 0xFF]);

    let padded = client.spi_transact(&session, &[0x00], 2).expect("spi_transact should succeed");
    assert_eq!(padded, vec![0xFF, 0xFF]);

    client.close(&session).expect("close should succeed");
}

#[test]
fn undeclared_capability_returns_capability_not_exposed() {
    let mut client = SidecarClient::new(MockSidecar::new());
    let session = open_mock_session(&mut client);

    let err = client
        .execute(&session, obj(vec![("op", text("gpio_set")), ("pin", text("IO0")), ("level", JsonValue::Bool(true))]))
        .err()
        .expect("gpio_set must be rejected");
    assert!(err.contains("CAPABILITY_NOT_EXPOSED"), "{err}");

    let err = client.execute(&session, obj(vec![("op", text("i2c_transfer"))])).err().expect("unknown op must be rejected");
    assert!(err.contains("CAPABILITY_NOT_EXPOSED"), "{err}");
}

#[test]
fn requests_carry_increasing_ids_and_the_handshake_fields() {
    let mut client = SidecarClient::new(MockSidecar::new());
    client.handshake("uni-hal-test", "0.1.0", &spi_capabilities()).expect("handshake");
    client.open("mock-0").expect("open");
    let err = client.execute("sess-1", JsonValue::Bool(true)).err().expect("op must be an object");
    assert_eq!(err, "execute op must be a JSON object");
    let err = client.execute("other", obj(vec![])).err().expect("busy");
    assert_eq!(err, "BUSY: execute before open or unknown session_id");
}

#[test]
fn responses_are_checked_against_the_request() {
    let mismatch = obj(vec![("id", JsonValue::UInt(8)), ("result", JsonValue::Null)]);
    assert!(interpret_response("probe", 7, mismatch).err().unwrap().contains("response id mismatch"));
    let no_id = obj(vec![("result", JsonValue::Null)]);
    assert_eq!(interpret_response("probe", 7, no_id).err().unwrap(), "'probe' response missing numeric id");
    let no_result = obj(vec![("id", JsonValue::UInt(7))]);
    assert_eq!(interpret_response("open", 7, no_result).err().unwrap(), "'open' response missing result");
    let error = obj(vec![("id", JsonValue::UInt(7)), ("error", obj(vec![("code", JsonValue::NegInt(-32001))]))]);
    assert_eq!(interpret_response("x", 7, error).err().unwrap(), "CAPABILITY_NOT_EXPOSED: unknown error");
    let ok = obj(vec![("id", JsonValue::UInt(7)), ("result", JsonValue::UInt(3))]);
    assert!(matches!(interpret_response("x", 7, ok), Ok(JsonValue::UInt(3))));
}

#[test]
fn probe_answers_in_both_struct_forms() {
    let list = JsonValue::Array(vec![JsonValue::Array(vec![text("a"), text("spi"), text("d")])]);
    let devices = decode_devices(&obj(vec![("devices", list)])).ok().unwrap();
    assert_eq!(devices[0].kind, "spi");
    assert!(decode_devices(&obj(vec![("devices", JsonValue::Array(vec![obj(vec![("id", text("x"))])]))])).is_err());
    assert!(decode_devices(&JsonValue::Null).is_err());
}

#[test]
fn capabilities_are_written_field_by_field() {
    let caps = capabilities_json(&spi_capabilities());
    let JsonValue::Object(members) = caps else { panic!("object expected") };
    let keys: Vec<&str> = members.iter().map(|(k, _)| k.as_str()).collect();
    assert_eq!(keys, vec!["spi", "uart", "i2c", "gpio", "vcc_control", "wp_control"]);
    assert!(matches!(members[2].1, JsonValue::Bool(false)));
    assert!(matches!(members[1].1, JsonValue::Null));
}

#[test]
fn spi_transact_decodes_valid_base64_and_read_len() {
    let op = obj(vec![
        ("op", text("spi_transact")),
        ("write_b64", text(&b64().encode([0x03, 0x9F, 0x00]))),
        ("read_len", JsonValue::UInt(4)),
    ]);
    let decoded = decode_spi_transact(&op).ok().expect("op should decode");
    assert_eq!(decoded.write_bytes, [0x03, 0x9F, 0x00]);
    assert_eq!(decoded.read_len, 4);
}

#[test]
fn spi_transact_rejects_malformed_base64() {
    let op = obj(vec![("op", text("spi_transact")), ("write_b64", text("!!!not-base64!!!")), ("read_len", JsonValue::UInt(1))]);
    let (code, message) = decode_spi_transact(&op).err().expect("base64 should be rejected");
    assert_eq!(code, INVALID_PARAMS);
    assert!(message.contains("invalid write_b64"), "{message}");
}

#[test]
fn spi_transact_rejects_missing_read_len() {
    let op = obj(vec![("op", text("spi_transact")), ("write_b64", text(""))]);
    let (code, message) = decode_spi_transact(&op).err().expect("missing read_len should be rejected");
    assert_eq!(code, INVALID_PARAMS);
    assert!(message.contains("missing read_len"), "{message}");
}

#[test]
fn spi_transact_rejects_non_unsigned_read_len() {
    let op = obj(vec![("op", text("spi_transact")), ("write_b64", text("")), ("read_len", JsonValue::NegInt(-1))]);
    let (code, message) = decode_spi_transact(&op).err().expect("negative read_len should be rejected");
    assert_eq!(code, INVALID_PARAMS);
    assert!(message.contains("unsigned integer"), "{message}");
}

#[test]
fn client_operation_decodes_on_the_sidecar() {
    let op = spi_transact_op(&[1, 2, 3, 250], 7);
    let decoded = decode_spi_transact(&op).ok().unwrap();
    assert_eq!(decoded.write_bytes, vec![1, 2, 3, 250]);
    assert_eq!(decoded.read_len, 7);
}
