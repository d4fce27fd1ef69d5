//! The sidecar adapter protocol, JSON-RPC style messages over a framed
//! transport: the client of the host (handshake, probe, sessions, SPI
//! transactions) and the decoding of an SPI transaction on the sidecar side.
use vstd::prelude::*;
use base64::Engine;
use crate::ch34x::ProgrammerHal;
use crate::frame::describe_rpc_error;
use crate::hal_router::SidecarDevice;
use crate::json::{
    as_i64, as_text, as_u64, encode_json, get, member, member_of, parse_json, take_member,
    JsonValue, json_document,
};
use crate::plugin::{CapabilitySet, PLUGIN_API_VERSION};
use crate::text::{msg_join, msg_join3, msg_u64, str_eq};

verus! {

/// Current sidecar protocol version.
pub const SIDECAR_PROTOCOL_VERSION: u32 = 1;

/// `INVALID_PARAMS` of JSON-RPC.
pub const INVALID_PARAMS: i32 = -32602;

/// The text `base64`'s standard engine encodes `bytes` as.
pub uninterp spec fn base64_text(bytes: Seq<u8>) -> Seq<char>;

/// The bytes `base64`'s standard engine decodes `text` into (`None` when
/// `text` is not valid padded standard base64).
pub uninterp spec fn base64_data(text: Seq<char>) -> Option<Seq<u8>>;

/// `base64::engine::general_purpose::STANDARD.encode`; decoding the text
/// gives the bytes back.
#[verifier::external_body]
pub(crate) fn b64_encode(bytes: &[u8]) -> (r: String)
    ensures
        r@ == base64_text(bytes@),
        base64_data(r@) == Some(bytes@),
{
    base64::engine::general_purpose::STANDARD.encode(bytes)
}

/// `base64::engine::general_purpose::STANDARD.decode`.
#[verifier::external_body]
fn b64_decode(text: &str) -> (r: Result<Vec<u8>, String>)
    ensures
        match r {
            Ok(b) => base64_data(text@) == Some(b@),
            Err(_) => base64_data(text@) is None,
        },
{
    base64::engine::general_purpose::STANDARD.decode(text).map_err(|e| e.to_string())
}

/// A message-level transport: `send` delivers one complete payload and
/// `recv` returns the next one (each transport does its own framing).
pub trait SidecarTransport {
    fn send(&mut self, bytes: &[u8]) -> Result<(), String>;

    fn recv(&mut self) -> Result<Vec<u8>, String>;
}

/// What a response document answers to the request with id `id`: its
/// `result` when it carries that numeric id and no `error`.
pub open spec fn spec_response(id: u64, d: JsonValue) -> Result<JsonValue, ()> {
    match as_u64(member(d, "id"@)) {
        None => Err(()),
        Some(got) => if got != id {
            Err(())
        } else if member(d, "error"@) is Some {
            Err(())
        } else {
            match member(d, "result"@) {
                Some(v) => Ok(v),
                None => Err(()),
            }
        },
    }
}

/// The error a response reports: its code (0 when absent) and message
/// (`unknown error` when absent).
pub open spec fn response_error(d: JsonValue) -> Option<(i64, Seq<char>)> {
    match member(d, "error"@) {
        Some(e) => Some((
            match as_i64(member(e, "code"@)) { Some(c) => c, None => 0 },
            match as_text(member(e, "message"@)) { Some(m) => m, None => "unknown error"@ },
        )),
        None => None,
    }
}

/// The text of an error result.
pub open spec fn err_text<T>(r: Result<T, String>) -> Option<Seq<char>> {
    match r {
        Ok(_) => None,
        Err(e) => Some(e@),
    }
}

/// See [`spec_response`]. An error response is reported with its code and
/// message (see [`describe_rpc_error`]).
pub fn interpret_response(method: &str, id: u64, response: JsonValue) -> (r: Result<JsonValue, String>)
    ensures
        match r {
            Ok(v) => spec_response(id, response) == Ok::<JsonValue, ()>(v),
            Err(_) => spec_response(id, response) is Err,
        },
        response_error(response) matches Some((c, m)) ==> (as_u64(member(response, "id"@)) == Some(id) ==> {
            &&& (c == -32001 ==> err_text(r) == Some("CAPABILITY_NOT_EXPOSED: "@ + m))
            &&& (c == -32002 ==> err_text(r) == Some("BUSY: "@ + m))
        }),
{
    let got = match get(&response, "id") {
        Some(JsonValue::UInt(u)) => *u,
        _ => {
            return Err(msg_join3("'", method, "' response missing numeric id"));
        },
    };
    if got != id {
        return Err(msg_join3("'", method, msg_u64("' response id mismatch: got ", got, "").as_str()));
    }
    match get(&response, "error") {
        Some(e) => {
            let code: i64 = match get(e, "code") {
                Some(JsonValue::UInt(u)) => if *u <= 0x7fff_ffff_ffff_ffff { *u as i64 } else { 0 },
                Some(JsonValue::NegInt(i)) => *i,
                _ => 0,
            };
            let message = match get(e, "message") {
                Some(JsonValue::Str(s)) => s.as_str(),
                _ => "unknown error",
            };
            proof {
                reveal_strlit("unknown error");
            }
            return Err(describe_rpc_error(code, message));
        },
        None => {},
    }
    let members = match response {
        JsonValue::Object(m) => m,
        _ => {
            return Err(msg_join3("'", method, "' response missing result"));
        },
    };
    match take_member(members, "result") {
        Some(v) => Ok(v),
        None => Err(msg_join3("'", method, "' response missing result")),
    }
}

/// The request object of a call.
fn request_object(id: u64, method: &str, params: JsonValue) -> (r: JsonValue)
    requires
    ensures
        as_u64(member(r, "id"@)) == Some(id),
        as_text(member(r, "method"@)) == Some(method@),
        member(r, "params"@) == Some(params),
{
    let mut m: Vec<(String, JsonValue)> = Vec::new();
    m.push((String::from_str("id"), JsonValue::UInt(id)));
    m.push((String::from_str("method"), JsonValue::Str(String::from_str(method))));
    m.push((String::from_str("params"), params));
    proof {
        reveal_strlit("id");
        reveal_strlit("method");
        reveal_strlit("params");
        reveal_with_fuel(member_of, 4);
        assert(m@.drop_first()[0].0@ == "method"@);
        assert(m@.drop_first().drop_first()[0].0@ == "params"@);
        assert("id"@.len() == 2 && "method"@.len() == 6 && "params"@.len() == 6);
        assert("method"@[0] != "params"@[0]);
        assert(m@.drop_first().drop_first()[0].1 == params);
        assert(member_of(m@.drop_first().drop_first(), "params"@) == Some(params));
        assert(member_of(m@.drop_first(), "params"@) == Some(params));
    }
    JsonValue::Object(m)
}

/// The id that follows `id` (wrapping).
pub open spec fn next_request_id(id: u64) -> u64 {
    if id == u64::MAX { 0 } else { (id + 1) as u64 }
}

/// A JSON-RPC style client of one sidecar adapter.
pub struct SidecarClient<T: SidecarTransport> {
    transport: T,
    next_id: u64,
}

impl<T: SidecarTransport> SidecarClient<T> {
    /// The id of the next request.
    pub closed spec fn pending_id(&self) -> u64 {
        self.next_id
    }

    pub fn new(transport: T) -> (r: SidecarClient<T>)
        ensures
            r.pending_id() == 1,
    {
        SidecarClient { transport, next_id: 1 }
    }

    /// Send one request and read its response: the response must carry the
    /// request's id and a result; an error response becomes `Err`.
    pub fn request(&mut self, method: &str, params: JsonValue) -> (r: Result<JsonValue, String>)
        requires
        ensures
            final(self).pending_id() == next_request_id(old(self).pending_id()),
            r matches Ok(v) ==> exists|d: JsonValue| spec_response(old(self).pending_id(), d) == Ok::<JsonValue, ()>(v),
    {
        let id = self.next_id;
        self.next_id = self.next_id.wrapping_add(1);
        let request = request_object(id, method, params);
        let payload = match encode_json(&request) {
            Ok(p) => p,
            Err(e) => {
                return Err(msg_join3("failed to encode '", method, msg_join("' request: ", e.as_str()).as_str()));
            },
        };
        match self.transport.send(payload.as_slice()) {
            Ok(()) => {},
            Err(e) => {
                return Err(msg_join3("failed to send '", method, msg_join("' request: ", e.as_str()).as_str()));
            },
        }
        let bytes = match self.transport.recv() {
            Ok(b) => b,
            Err(e) => {
                return Err(msg_join3("failed to receive '", method, msg_join("' response: ", e.as_str()).as_str()));
            },
        };
        let response = match parse_json(bytes.as_slice()) {
            Ok(v) => v,
            Err(e) => {
                return Err(msg_join3("invalid JSON in '", method, msg_join("' response: ", e.as_str()).as_str()));
            },
        };
        let ghost d = response;
        let r = interpret_response(method, id, response);
        assert(r matches Ok(v) ==> spec_response(id, d) == Ok::<JsonValue, ()>(v));
        r
    }
}


/// Append the member `key: v` to an object's members.
fn push_member(m: &mut Vec<(String, JsonValue)>, key: &str, v: JsonValue)
    ensures
        final(m)@.len() == old(m)@.len() + 1,
        forall|i: int| 0 <= i < old(m)@.len() ==> #[trigger] final(m)@[i] == old(m)@[i],
        final(m)@[old(m)@.len() as int].0@ == key@,
        final(m)@[old(m)@.len() as int].1 == v,
{
    let k = String::from_str(key);
    m.push((k, v));
}

/// The JSON form of a capability set, as `serde` writes the struct: each
/// field by name, `None` as `null`, tuples as arrays.
pub fn capabilities_json(c: &CapabilitySet) -> (r: JsonValue)
    ensures
        member(r, "i2c"@) == Some(JsonValue::Bool(c.i2c)),
        member(r, "gpio"@) == Some(JsonValue::Bool(c.gpio)),
        member(r, "wp_control"@) == Some(JsonValue::Bool(c.wp_control)),
{
    let spi = match &c.spi {
        Some(s) => {
            let pins = match &s.pins {
                Some(p) => {
                    let mut a: Vec<JsonValue> = Vec::new();
                    a.push(JsonValue::Str(p.0.clone()));
                    a.push(JsonValue::Str(p.1.clone()));
                    a.push(JsonValue::Str(p.2.clone()));
                    a.push(JsonValue::Str(p.3.clone()));
                    JsonValue::Array(a)
                },
                None => JsonValue::Null,
            };
            let mut m: Vec<(String, JsonValue)> = Vec::new();
            push_member(&mut m, "pins", pins);
            push_member(&mut m, "max_frame", JsonValue::UInt(s.max_frame as u64));
            push_member(&mut m, "max_freq_khz", JsonValue::UInt(s.max_freq_khz as u64));
            JsonValue::Object(m)
        },
        None => JsonValue::Null,
    };
    let uart = match &c.uart {
        Some(u) => {
            let endpoint = match &u.endpoint {
                Some(e) => JsonValue::Str(e.clone()),
                None => JsonValue::Null,
            };
            let mut m: Vec<(String, JsonValue)> = Vec::new();
            push_member(&mut m, "endpoint", endpoint);
            JsonValue::Object(m)
        },
        None => JsonValue::Null,
    };
    let vcc = match &c.vcc_control {
        Some(v) => {
            let range = match v.range_mv {
                Some((lo, hi)) => {
                    let mut a: Vec<JsonValue> = Vec::new();
                    a.push(JsonValue::UInt(lo as u64));
                    a.push(JsonValue::UInt(hi as u64));
                    JsonValue::Array(a)
                },
                None => JsonValue::Null,
            };
            let mut m: Vec<(String, JsonValue)> = Vec::new();
            push_member(&mut m, "range_mv", range);
            JsonValue::Object(m)
        },
        None => JsonValue::Null,
    };
    let mut m: Vec<(String, JsonValue)> = Vec::new();
    push_member(&mut m, "spi", spi);
    push_member(&mut m, "uart", uart);
    push_member(&mut m, "i2c", JsonValue::Bool(c.i2c));
    push_member(&mut m, "gpio", JsonValue::Bool(c.gpio));
    push_member(&mut m, "vcc_control", vcc);
    push_member(&mut m, "wp_control", JsonValue::Bool(c.wp_control));
    proof {
        reveal_strlit("spi");
        reveal_strlit("uart");
        reveal_strlit("i2c");
        reveal_strlit("gpio");
        reveal_strlit("vcc_control");
        reveal_strlit("wp_control");
        reveal_with_fuel(member_of, 7);
        assert("spi"@.len() == 3 && "uart"@.len() == 4 && "i2c"@.len() == 3 && "gpio"@.len() == 4);
        assert("vcc_control"@.len() == 11 && "wp_control"@.len() == 10);
        assert("spi"@[0] != "i2c"@[0] && "uart"@[0] != "gpio"@[0]);
        let m1 = m@.drop_first();
        let m2 = m1.drop_first();
        let m3 = m2.drop_first();
        let m4 = m3.drop_first();
        let m5 = m4.drop_first();
        assert(m@[0].0@ == "spi"@ && m1[0].0@ == "uart"@ && m2[0].0@ == "i2c"@);
        assert(m3[0].0@ == "gpio"@ && m4[0].0@ == "vcc_control"@ && m5[0].0@ == "wp_control"@);
        assert(member_of(m2, "i2c"@) == Some(JsonValue::Bool(c.i2c)));
        assert(member_of(m3, "gpio"@) == Some(JsonValue::Bool(c.gpio)));
        assert(member_of(m5, "wp_control"@) == Some(JsonValue::Bool(c.wp_control)));
    }
    JsonValue::Object(m)
}

/// A device of a probe answer: an object with string `id`, `kind` and
/// `detail` (other members ignored), or an array of exactly those three
/// strings (the two forms `serde` reads a struct from).
pub open spec fn device_fields(v: JsonValue) -> Option<(Seq<char>, Seq<char>, Seq<char>)> {
    match v {
        JsonValue::Object(m) => match (as_text(member_of(m@, "id"@)), as_text(member_of(m@, "kind"@)),
            as_text(member_of(m@, "detail"@))) {
            (Some(a), Some(b), Some(c)) => Some((a, b, c)),
            _ => None,
        },
        JsonValue::Array(a) => if a@.len() == 3 && a@[0] is Str && a@[1] is Str && a@[2] is Str {
            Some((a@[0]->Str_0@, a@[1]->Str_0@, a@[2]->Str_0@))
        } else {
            None
        },
        _ => None,
    }
}

/// The device list of a probe answer: its `devices` array (or the only
/// item of an array answer).
pub open spec fn devices_field(v: JsonValue) -> Option<Seq<JsonValue>> {
    match v {
        JsonValue::Object(m) => match member_of(m@, "devices"@) {
            Some(JsonValue::Array(a)) => Some(a@),
            _ => None,
        },
        JsonValue::Array(x) => if x@.len() == 1 && x@[0] is Array { Some(x@[0]->Array_0@) } else { None },
        _ => None,
    }
}

/// The devices a probe answer lists, when every item is a device.
pub open spec fn probe_devices(v: JsonValue) -> Option<Seq<(Seq<char>, Seq<char>, Seq<char>)>> {
    match devices_field(v) {
        Some(ds) => if forall|i: int| 0 <= i < ds.len() ==> #[trigger] device_fields(ds[i]) is Some {
            Some(Seq::new(ds.len(), |i: int| device_fields(ds[i])->Some_0))
        } else {
            None
        },
        None => None,
    }
}

fn text_of(v: Option<&JsonValue>) -> (r: Option<String>)
    ensures
        match r {
            Some(s) => as_text(match v { Some(x) => Some(*x), None => None }) == Some(s@),
            None => as_text(match v { Some(x) => Some(*x), None => None }) is None,
        },
{
    match v {
        Some(JsonValue::Str(s)) => Some(s.clone()),
        _ => None,
    }
}

fn device_of(v: &JsonValue) -> (r: Option<SidecarDevice>)
    ensures
        match r {
            Some(d) => device_fields(*v) == Some((d.id@, d.kind@, d.detail@)),
            None => device_fields(*v) is None,
        },
{
    match v {
        JsonValue::Object(_) => {
            let id = text_of(get(v, "id"));
            let kind = text_of(get(v, "kind"));
            let detail = text_of(get(v, "detail"));
            match (id, kind, detail) {
                (Some(id), Some(kind), Some(detail)) => Some(SidecarDevice { id, kind, detail }),
                _ => None,
            }
        },
        JsonValue::Array(a) => {
            if a.len() != 3 {
                return None;
            }
            match (&a[0], &a[1], &a[2]) {
                (JsonValue::Str(x), JsonValue::Str(y), JsonValue::Str(z)) => Some(SidecarDevice {
                    id: x.clone(),
                    kind: y.clone(),
                    detail: z.clone(),
                }),
                _ => None,
            }
        },
        _ => None,
    }
}

/// Read the device list of a probe answer.
pub fn decode_devices(result: &JsonValue) -> (r: Result<Vec<SidecarDevice>, String>)
    ensures
        match r {
            Ok(v) => probe_devices(*result) matches Some(ds) && ds.len() == v@.len()
                && forall|i: int| 0 <= i < ds.len() ==> #[trigger] ds[i] == (v@[i].id@, v@[i].kind@, v@[i].detail@),
            Err(_) => probe_devices(*result) is None,
        },
{
    let list: &Vec<JsonValue> = match result {
        JsonValue::Object(_) => match get(result, "devices") {
            Some(JsonValue::Array(a)) => a,
            _ => {
                return Err(String::from_str("invalid probe response: missing device list"));
            },
        },
        JsonValue::Array(x) => {
            if x.len() != 1 {
                return Err(String::from_str("invalid probe response: missing device list"));
            }
            match &x[0] {
                JsonValue::Array(a) => a,
                _ => {
                    return Err(String::from_str("invalid probe response: missing device list"));
                },
            }
        },
        _ => {
            return Err(String::from_str("invalid probe response: missing device list"));
        },
    };
    assert(devices_field(*result) == Some(list@));
    let mut out: Vec<SidecarDevice> = Vec::new();
    let mut i: usize = 0;
    while i < list.len()
        invariant
            i <= list@.len(),
            devices_field(*result) == Some(list@),
            out@.len() == i,
            forall|k: int| 0 <= k < i ==> #[trigger] device_fields(list@[k]) == Some((out@[k].id@, out@[k].kind@, out@[k].detail@)),
        decreases list@.len() - i,
    {
        match device_of(&list[i]) {
            Some(d) => out.push(d),
            None => {
                return Err(String::from_str("invalid probe response: malformed device"));
            },
        }
        i = i + 1;
    }
    Ok(out)
}

/// The `execute` operation of an SPI transaction: `write` base64-encoded
/// and the number of bytes to read back.
pub fn spi_transact_op(write: &[u8], read_len: usize) -> (r: JsonValue)
    ensures
        r is Object,
        spec_decode_spi(r) == Ok::<(Seq<u8>, usize), Seq<char>>((write@, read_len)),
{
    let text = b64_encode(write);
    let k0 = String::from_str("op");
    let k1 = String::from_str("write_b64");
    let k2 = String::from_str("read_len");
    let v0 = JsonValue::Str(String::from_str("spi_transact"));
    let v1 = JsonValue::Str(text);
    let v2 = JsonValue::UInt(read_len as u64);
    let mut m: Vec<(String, JsonValue)> = Vec::new();
    m.push((k0, v0));
    m.push((k1, v1));
    m.push((k2, v2));
    proof {
        reveal_strlit("op");
        reveal_strlit("write_b64");
        reveal_strlit("read_len");
        reveal_with_fuel(member_of, 4);
        assert(m@.len() == 3);
        assert(m@[0] == (k0, v0));
        assert(k0@ == "op"@);
        assert("op"@.len() == 2 && "write_b64"@.len() == 9 && "read_len"@.len() == 8);
        let m1 = m@.drop_first();
        let m2 = m1.drop_first();
        assert(m@[0].0@ != "write_b64"@ && m@[0].0@ != "read_len"@);
        assert(m1[0].0@ == "write_b64"@ && m1[0].0@ != "read_len"@);
        assert(m2[0].0@ == "read_len"@);
    }
    JsonValue::Object(m)
}

/// What the sidecar reads from an SPI transaction operation: the bytes to
/// write and the length to read, or the reason it refuses it.
pub open spec fn spec_decode_spi(op: JsonValue) -> Result<(Seq<u8>, usize), Seq<char>> {
    match member(op, "write_b64"@) {
        None => Err("missing write_b64"@),
        Some(JsonValue::Str(text)) => match member(op, "read_len"@) {
            None => Err("missing read_len"@),
            Some(JsonValue::UInt(n)) => if n > usize::MAX {
                Err("read_len does not fit usize"@)
            } else {
                match base64_data(text@) {
                    Some(b) => Ok((b, n as usize)),
                    None => Err("invalid write_b64"@),
                }
            },
            Some(_) => Err("read_len must be an unsigned integer"@),
        },
        Some(_) => Err("write_b64 must be a string"@),
    }
}

/// A decoded SPI transaction request.
pub struct SpiTransact {
    pub write_bytes: Vec<u8>,
    pub read_len: usize,
}

/// Decode an SPI transaction operation (sidecar side); a refusal carries
/// `INVALID_PARAMS` and a message that starts with the reason.
pub fn decode_spi_transact(op: &JsonValue) -> (r: Result<SpiTransact, (i32, String)>)
    ensures
        match r {
            Ok(t) => spec_decode_spi(*op) == Ok::<(Seq<u8>, usize), Seq<char>>((t.write_bytes@, t.read_len)),
            Err((code, msg)) => code == INVALID_PARAMS && (spec_decode_spi(*op) matches Err(reason)
                && reason.len() <= msg@.len() && msg@.subrange(0, reason.len() as int) == reason),
        },
{
    proof {
        reveal_strlit("missing write_b64");
        reveal_strlit("write_b64 must be a string");
        reveal_strlit("missing read_len");
        reveal_strlit("read_len must be an unsigned integer");
        reveal_strlit("read_len does not fit usize");
        reveal_strlit("invalid write_b64");
        reveal_strlit("invalid write_b64: ");
    }
    let text = match get(op, "write_b64") {
        None => {
            let m = String::from_str("missing write_b64");
            assert(m@.subrange(0, m@.len() as int) =~= m@);
            return Err((INVALID_PARAMS, m));
        },
        Some(JsonValue::Str(t)) => t,
        Some(_) => {
            let m = String::from_str("write_b64 must be a string");
            assert(m@.subrange(0, m@.len() as int) =~= m@);
            return Err((INVALID_PARAMS, m));
        },
    };
    let n = match get(op, "read_len") {
        None => {
            let m = String::from_str("missing read_len");
            assert(m@.subrange(0, m@.len() as int) =~= m@);
            return Err((INVALID_PARAMS, m));
        },
        Some(JsonValue::UInt(n)) => *n,
        Some(_) => {
            let m = String::from_str("read_len must be an unsigned integer");
            assert(m@.subrange(0, m@.len() as int) =~= m@);
            return Err((INVALID_PARAMS, m));
        },
    };
    if n > usize::MAX as u64 {
        let m = String::from_str("read_len does not fit usize");
        assert(m@.subrange(0, m@.len() as int) =~= m@);
        return Err((INVALID_PARAMS, m));
    }
    assert(member(*op, "write_b64"@) == Some(JsonValue::Str(*text)));
    assert(member(*op, "read_len"@) == Some(JsonValue::UInt(n)));
    match b64_decode(text.as_str()) {
        Ok(bytes) => Ok(SpiTransact { write_bytes: bytes, read_len: n as usize }),
        Err(e) => {
            let m = msg_join("invalid write_b64: ", e.as_str());
            assert(m@.subrange(0, "invalid write_b64"@.len() as int) =~= "invalid write_b64"@);
            Err((INVALID_PARAMS, m))
        },
    }
}

/// Run a decoded SPI transaction on a device: select it, write, read
/// `read_len` bytes, deselect. The deselect is attempted whenever the
/// select succeeded; the first failure is reported.
pub fn run_spi_transact<H: ProgrammerHal>(device: &H, request: &SpiTransact) -> (r: Result<Vec<u8>, String>)
    ensures
        r matches Ok(v) ==> v@.len() == request.read_len,
{
    let mut buf: Vec<u8> = vec![0u8; request.read_len];
    match device.cs_low() {
        Ok(()) => {},
        Err(e) => {
            return Err(msg_join("cs_low failed: ", e.as_str()));
        },
    }
    let result = match device.spi_tx(request.write_bytes.as_slice()) {
        Ok(()) => match device.spi_rx(buf.as_mut_slice()) {
            Ok(()) => Ok(()),
            Err(e) => Err(msg_join("spi_rx failed: ", e.as_str())),
        },
        Err(e) => Err(msg_join("spi_tx failed: ", e.as_str())),
    };
    let cs = device.cs_high();
    match result {
        Err(e) => Err(e),
        Ok(()) => match cs {
            Err(e) => Err(msg_join("cs_high failed: ", e.as_str())),
            Ok(()) => Ok(buf),
        },
    }
}

impl<T: SidecarTransport> SidecarClient<T> {
    /// Perform the `handshake` and check the protocol version the sidecar
    /// answers with.
    pub fn handshake(&mut self, name: &str, version: &str, capabilities: &CapabilitySet) -> (r: Result<(), String>)
        ensures
            final(self).pending_id() == next_request_id(old(self).pending_id()),
            r is Ok ==> exists|d: JsonValue, v: JsonValue| spec_response(old(self).pending_id(), d) == Ok::<JsonValue, ()>(v)
                && as_u64(member(v, "protocol_version"@)) == Some(1u64),
    {
        let mut m: Vec<(String, JsonValue)> = Vec::new();
        push_member(&mut m, "name", JsonValue::Str(String::from_str(name)));
        push_member(&mut m, "version", JsonValue::Str(String::from_str(version)));
        push_member(&mut m, "plugin_api", JsonValue::UInt(PLUGIN_API_VERSION as u64));
        push_member(&mut m, "capabilities", capabilities_json(capabilities));
        let result = self.request("handshake", JsonValue::Object(m))?;
        match get(&result, "protocol_version") {
            Some(JsonValue::UInt(v)) => {
                if *v != SIDECAR_PROTOCOL_VERSION as u64 {
                    return Err(msg_u64("unsupported sidecar protocol version ", *v, " (expected 1)"));
                }
                Ok(())
            },
            _ => Err(String::from_str("handshake response missing protocol_version")),
        }
    }

    /// Ask the sidecar for its candidate devices.
    pub fn probe(&mut self) -> (r: Result<Vec<SidecarDevice>, String>)
        ensures
            final(self).pending_id() == next_request_id(old(self).pending_id()),
            r matches Ok(devs) ==> exists|d: JsonValue, v: JsonValue| spec_response(old(self).pending_id(), d) == Ok::<JsonValue, ()>(v)
                && (probe_devices(v) matches Some(ds) && ds.len() == devs@.len()),
    {
        let empty: Vec<(String, JsonValue)> = Vec::new();
        let result = self.request("probe", JsonValue::Object(empty))?;
        decode_devices(&result)
    }

    /// Open a session on `device_id`; returns the session id.
    pub fn open(&mut self, device_id: &str) -> (r: Result<String, String>)
        ensures
            final(self).pending_id() == next_request_id(old(self).pending_id()),
            r matches Ok(s) ==> exists|d: JsonValue, v: JsonValue| spec_response(old(self).pending_id(), d) == Ok::<JsonValue, ()>(v)
                && as_text(member(v, "session_id"@)) == Some(s@),
    {
        let mut m: Vec<(String, JsonValue)> = Vec::new();
        push_member(&mut m, "device_id", JsonValue::Str(String::from_str(device_id)));
        let result = self.request("open", JsonValue::Object(m))?;
        match text_of(get(&result, "session_id")) {
            Some(s) => Ok(s),
            None => Err(String::from_str("open response missing session_id")),
        }
    }

    /// Close a session.
    pub fn close(&mut self, session_id: &str) -> (r: Result<(), String>)
        ensures
            final(self).pending_id() == next_request_id(old(self).pending_id()),
            r is Ok ==> exists|d: JsonValue, v: JsonValue| spec_response(old(self).pending_id(), d) == Ok::<JsonValue, ()>(v),
    {
        let mut m: Vec<(String, JsonValue)> = Vec::new();
        push_member(&mut m, "session_id", JsonValue::Str(String::from_str(session_id)));
        self.request("close", JsonValue::Object(m))?;
        Ok(())
    }

    /// The generic `execute` call; `op` must be a JSON object.
    pub fn execute(&mut self, session_id: &str, op: JsonValue) -> (r: Result<JsonValue, String>)
        requires
        ensures
            !(op is Object) ==> r is Err && final(self).pending_id() == old(self).pending_id(),
            op is Object ==> final(self).pending_id() == next_request_id(old(self).pending_id()),
            r matches Ok(v) ==> exists|d: JsonValue| spec_response(old(self).pending_id(), d) == Ok::<JsonValue, ()>(v),
    {
        match &op {
            JsonValue::Object(_) => {},
            _ => {
                return Err(String::from_str("execute op must be a JSON object"));
            },
        }
        let mut m: Vec<(String, JsonValue)> = Vec::new();
        push_member(&mut m, "session_id", JsonValue::Str(String::from_str(session_id)));
        push_member(&mut m, "op", op);
        self.request("execute", JsonValue::Object(m))
    }

    /// A full-duplex SPI transaction: clock `write_bytes` out while
    /// capturing `read_len` bytes.
    pub fn spi_transact(&mut self, session_id: &str, write_bytes: &[u8], read_len: usize) -> (r: Result<Vec<u8>, String>)
        ensures
            final(self).pending_id() == next_request_id(old(self).pending_id()),
            r matches Ok(data) ==> exists|d: JsonValue, v: JsonValue| spec_response(old(self).pending_id(), d) == Ok::<JsonValue, ()>(v)
                && (as_text(member(v, "data_b64"@)) matches Some(t) && base64_data(t) == Some(data@)),
    {
        let op = spi_transact_op(write_bytes, read_len);
        let result = self.execute(session_id, op)?;
        let text = match text_of(get(&result, "data_b64")) {
            Some(t) => t,
            None => {
                return Err(String::from_str("spi_transact response missing data_b64"));
            },
        };
        match b64_decode(text.as_str()) {
            Ok(b) => Ok(b),
            Err(e) => Err(msg_join("invalid base64 in spi_transact response: ", e.as_str())),
        }
    }
}

} // verus!
