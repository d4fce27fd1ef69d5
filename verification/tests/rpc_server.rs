use uniprog::chipdb::Chiplib;
use uniprog::json::JsonValue;
use uniprog::rpc_server::{
    error_response, request_head, success_response, ChipdbServer, ChipdbStep, METHOD_NOT_FOUND, SERVER_ERROR,
};
use uniprog::sidecar::INVALID_PARAMS;

const XML: &str = r#"<?xml version="1.0"?>
<chiplist>
  <SPI_NOR>
    <WINBOND>
      <W25Q128 id="EF4018" size="16777216" page="256"/>
      <W25Q64 id="EF4017" size="8388608" page="256"/>
    </WINBOND>
    <Zbit>
      <ZB25D40B id="5E3213" size="524288" page="256"/>
    </Zbit>
  </SPI_NOR>
</chiplist>
"#;

fn member<'a>(v: &'a JsonValue, key: &str) -> Option<&'a JsonValue> {
    match v {
        JsonValue::Object(m) => m.iter().find(|(k, _)| k == key).map(|(_, x)| x),
        _ => None,
    }
}

fn text(v: Option<&JsonValue>) -> Option<&str> {
    match v {
        Some(JsonValue::Str(s)) => Some(s.as_str()),
        _ => None,
    }
}

fn uint(v: Option<&JsonValue>) -> Option<u64> {
    match v {
        Some(JsonValue::UInt(u)) => Some(*u),
        _ => None,
    }
}

fn texts(v: Option<&JsonValue>) -> Vec<String> {
    match v {
        Some(JsonValue::Array(a)) => a.iter().map(|x| text(Some(x)).unwrap().to_string()).collect(),
        _ => panic!("not an array"),
    }
}

fn error_of(r: &JsonValue) -> (i64, String) {
    let e = member(r, "error").expect("error member");
    let code = match member(e, "code") {
        Some(JsonValue::NegInt(c)) => *c,
        Some(JsonValue::UInt(c)) => *c as i64,
        _ => panic!("no code"),
    };
    (code, text(member(e, "message")).unwrap().to_string())
}

fn params(pairs: &[(&str, &str)]) -> JsonValue {
    JsonValue::Object(pairs.iter().map(|(k, v)| (k.to_string(), JsonValue::Str(v.to_string()))).collect())
}

fn reply(step: ChipdbStep) -> JsonValue {
    match step {
        ChipdbStep::Reply(v) => v,
        ChipdbStep::Load { .. } => panic!("unexpected load"),
    }
}

fn loaded_server() -> ChipdbServer {
    let mut server = ChipdbServer::new("chiplib.bin".to_string(), "chiplib.xml".to_string());
    let lib = Chiplib::load_xml(XML.as_bytes()).ok().expect("sample loads");
    let r = server.finish_load(3, Ok(lib));
    assert_eq!(uint(member(member(&r, "result").unwrap(), "count")), Some(3));
    server
}

#[test]
fn replies_have_id_and_result_or_error() {
    let ok = success_response(7, JsonValue::Bool(true));
    assert_eq!(uint(member(&ok, "id")), Some(7));
    assert!(matches!(member(&ok, "result"), Some(JsonValue::Bool(true))));
    let err = error_response(8, -32601, "method not found: x");
    assert_eq!(uint(member(&err, "id")), Some(8));
    assert_eq!(error_of(&err), (-32601, "method not found: x".to_string()));
}

#[test]
fn request_head_reads_id_method_and_params() {
    let h = request_head(br#"{"id":5,"method":"lookup","params":{"id":"EF4018"}}"#).unwrap();
    assert_eq!(h.id, 5);
    assert_eq!(h.method, "lookup");
    assert_eq!(text(member(&h.params, "id")), Some("EF4018"));
    let bare = request_head(br#"{"id":6}"#).unwrap();
    assert_eq!(bare.method, "");
    assert!(matches!(bare.params, JsonValue::Object(ref m) if m.is_empty()));
    assert!(request_head(br#"{"method":"stats"}"#).is_none());
    assert!(request_head(b"not json").is_none());
}

#[test]
fn chipdb_answers_not_loaded_before_load() {
    let server = ChipdbServer::new("a.bin".to_string(), "a.xml".to_string());
    let r = reply(server.handle(1, "stats", &params(&[])));
    assert_eq!(error_of(&r), (SERVER_ERROR as i64, "NOT_LOADED".to_string()));
    let r = reply(server.handle(2, "lookup", &params(&[("id", "EF4018")])));
    assert_eq!(error_of(&r), (SERVER_ERROR as i64, "NOT_LOADED".to_string()));
}

#[test]
fn chipdb_load_uses_defaults_or_params() {
    let server = ChipdbServer::new("dir/chiplib.bin".to_string(), "dir/chiplib.xml".to_string());
    match server.handle(4, "load", &params(&[("bin_path", "x.bin")])) {
        ChipdbStep::Load { id, xml_path, bin_path } => {
            assert_eq!(id, 4);
            assert_eq!(xml_path, "dir/chiplib.xml");
            assert_eq!(bin_path, "x.bin");
        }
        ChipdbStep::Reply(_) => panic!("expected a load"),
    }
}

#[test]
fn chipdb_failed_load_keeps_state_and_reports() {
    let mut server = ChipdbServer::new("a.bin".to_string(), "a.xml".to_string());
    let r = server.finish_load(9, Err("no such file".to_string()));
    assert_eq!(error_of(&r), (SERVER_ERROR as i64, "no such file".to_string()));
    let r = server.handle_stats(10);
    assert_eq!(error_of(&r), (SERVER_ERROR as i64, "NOT_LOADED".to_string()));
}

#[test]
fn chipdb_lookup_vendors_models_stats() {
    let server = loaded_server();
    let r = reply(server.handle(11, "lookup", &params(&[("id", "EF4018")])));
    let chip = member(&r, "result").unwrap();
    assert_eq!(text(member(chip, "model")), Some("W25Q128"));
    assert_eq!(text(member(chip, "vendor")), Some("WINBOND"));
    assert_eq!(text(member(chip, "protocol")), Some("SPI_NOR"));
    assert_eq!(uint(member(chip, "size")), Some(16 * 1024 * 1024));
    assert_eq!(uint(member(chip, "page")), Some(256));
    assert_eq!(text(member(member(chip, "attrs").unwrap(), "model")), Some("W25Q128"));

    let r = reply(server.handle(12, "lookup", &params(&[("id", "123456")])));
    assert_eq!(error_of(&r), (SERVER_ERROR as i64, "NOT_FOUND".to_string()));
    let r = reply(server.handle(13, "lookup", &params(&[])));
    assert_eq!(error_of(&r), (INVALID_PARAMS as i64, "missing id".to_string()));

    let r = reply(server.handle(14, "vendors", &params(&[("protocol", "SPI_NOR")])));
    assert_eq!(texts(member(member(&r, "result").unwrap(), "vendors")), vec!["WINBOND", "Zbit"]);
    let r = reply(server.handle(15, "models", &params(&[("protocol", "SPI_NOR"), ("vendor", "WINBOND")])));
    assert_eq!(texts(member(member(&r, "result").unwrap(), "models")), vec!["W25Q128", "W25Q64"]);
    let r = reply(server.handle(16, "models", &params(&[("protocol", "SPI_NOR")])));
    assert_eq!(error_of(&r), (INVALID_PARAMS as i64, "missing vendor".to_string()));
    let r = reply(server.handle(17, "stats", &params(&[])));
    assert_eq!(uint(member(member(&r, "result").unwrap(), "count")), Some(3));
}

#[test]
fn chipdb_handshake_and_unknown_method() {
    let server = loaded_server();
    let r = reply(server.handle(20, "handshake", &params(&[])));
    let h = member(&r, "result").unwrap();
    assert_eq!(text(member(h, "name")), Some("upt.chipdb"));
    assert_eq!(text(member(h, "version")), Some("1.0.0"));
    assert_eq!(uint(member(h, "plugin_api")), Some(1));
    let r = reply(server.handle(21, "frobnicate", &params(&[])));
    assert_eq!(error_of(&r), (METHOD_NOT_FOUND as i64, "method not found: frobnicate".to_string()));
}
