//! The CH34X sidecar adapter (`uni.hal.ch34x-sidecar`): what it answers to
//! each request of the sidecar protocol. The host process moves the frames,
//! enumerates the USB bus and opens the programmer; one session at a time.
use vstd::prelude::*;
use crate::ch34x::{ChipKind, DeviceMode, ProgrammerHal};
use crate::ch34x_sidecar::{kind_wire, parse_ch34x_device_id, settings_for, spec_kind_wire, spec_parse_device_id};
use crate::devcore::{decimal, decimal_string, Ch34xOpener};
use crate::json::{get, member, JsonValue};
use crate::rpc_server::{
    empty_object, error_response, is_text, object1, reply_error, reply_result, success_response, text_param, BUSY,
    CAPABILITY_NOT_EXPOSED, METHOD_NOT_FOUND, SERVER_ERROR,
};
use crate::sidecar::{b64_encode, base64_text, decode_spi_transact, run_spi_transact, spec_decode_spi, INVALID_PARAMS};
use crate::text::{msg_join, msg_join3, str_eq};

verus! {

/// The USB bus of the host, as far as CH34X programmers go.
pub trait UsbScan {
    /// The programmers found: kind, bus number and address.
    fn usb_devices(&self) -> Vec<(ChipKind, u8, u8)>;
}

/// The display label of a chip kind.
pub open spec fn spec_kind_label(kind: ChipKind) -> Seq<char> {
    match kind {
        ChipKind::Ch341A => "CH341A"@,
        ChipKind::Ch347T => "CH347T"@,
        ChipKind::Ch347F => "CH347F"@,
    }
}

/// The device id of a programmer on the USB bus.
pub open spec fn usb_device_id(kind: ChipKind, bus: u8, address: u8) -> Seq<char> {
    "ch34x:"@ + spec_kind_wire(kind) + ":"@ + decimal(bus as nat) + ":"@ + decimal(address as nat)
}

/// The description of a programmer on the USB bus.
pub open spec fn usb_device_detail(kind: ChipKind, bus: u8, address: u8) -> Seq<char> {
    spec_kind_label(kind) + " at USB bus "@ + decimal(bus as nat) + " address "@ + decimal(address as nat)
}

/// `{"id": id, "kind": kind, "detail": detail}`.
pub open spec fn device_entry(v: JsonValue, id: Seq<char>, kind: Seq<char>, detail: Seq<char>) -> bool {
    match v {
        JsonValue::Object(m) => {
            &&& m@.len() == 3
            &&& m@[0].0@ == "id"@ && is_text(m@[0].1, id)
            &&& m@[1].0@ == "kind"@ && is_text(m@[1].1, kind)
            &&& m@[2].0@ == "detail"@ && is_text(m@[2].1, detail)
        },
        _ => false,
    }
}

/// The probe entry of one device.
pub fn device_json(id: String, kind: &str, detail: String) -> (r: JsonValue)
    ensures
        device_entry(r, id@, kind@, detail@),
{
    let mut m: Vec<(String, JsonValue)> = Vec::new();
    m.push((String::from_str("id"), JsonValue::Str(id)));
    m.push((String::from_str("kind"), JsonValue::Str(String::from_str(kind))));
    m.push((String::from_str("detail"), JsonValue::Str(detail)));
    JsonValue::Object(m)
}

/// The `devices` list of a probe: one entry per programmer found.
pub open spec fn probe_list(v: JsonValue, found: Seq<(ChipKind, u8, u8)>) -> bool {
    match v {
        JsonValue::Array(a) => a@.len() == found.len() && forall|i: int| 0 <= i < found.len() ==> device_entry(
            #[trigger] a@[i],
            usb_device_id(found[i].0, found[i].1, found[i].2),
            spec_kind_wire(found[i].0),
            usb_device_detail(found[i].0, found[i].1, found[i].2),
        ),
        _ => false,
    }
}

/// The probe entries of the programmers found on the USB bus.
pub fn probe_devices(found: &Vec<(ChipKind, u8, u8)>) -> (r: JsonValue)
    ensures
        probe_list(r, found@),
{
    let mut a: Vec<JsonValue> = Vec::new();
    let mut i: usize = 0;
    while i < found.len()
        invariant
            i <= found@.len(),
            a@.len() == i,
            forall|j: int| 0 <= j < i ==> device_entry(
                #[trigger] a@[j],
                usb_device_id(found@[j].0, found@[j].1, found@[j].2),
                spec_kind_wire(found@[j].0),
                usb_device_detail(found@[j].0, found@[j].1, found@[j].2),
            ),
        decreases found@.len() - i,
    {
        let (kind, bus, address) = found[i];
        let (wire, label) = kind_wire(kind);
        let bus_text = decimal_string(bus as u64);
        let addr_text = decimal_string(address as u64);
        let id = msg_join(msg_join3(msg_join("ch34x:", wire).as_str(), ":", bus_text.as_str()).as_str(),
            msg_join(":", addr_text.as_str()).as_str());
        let detail = msg_join(msg_join3(label, " at USB bus ", bus_text.as_str()).as_str(),
            msg_join(" address ", addr_text.as_str()).as_str());
        proof {
            assert(id@ =~= usb_device_id(kind, bus, address));
            assert(detail@ =~= usb_device_detail(kind, bus, address));
        }
        a.push(device_json(id, wire, detail));
        i = i + 1;
    }
    JsonValue::Array(a)
}

/// `{key: "t"}`.
pub open spec fn text_member(v: JsonValue, key: Seq<char>, t: Seq<char>) -> bool {
    match v {
        JsonValue::Object(m) => m@.len() == 1 && m@[0].0@ == key && is_text(m@[0].1, t),
        _ => false,
    }
}

/// `reason` starts `msg`.
pub open spec fn starts_with(msg: Seq<char>, reason: Seq<char>) -> bool {
    reason.len() <= msg.len() && msg.subrange(0, reason.len() as int) == reason
}

/// What the adapter answers to an SPI transaction `op` on its device: the
/// refusal of a malformed operation, or the bytes read (base64), or the
/// device's failure.
pub open spec fn spi_reply(id: u64, op: JsonValue, r: JsonValue) -> bool {
    match spec_decode_spi(op) {
        Err(reason) => reply_error(r, id) matches Some((c, m)) && c == INVALID_PARAMS && starts_with(m, reason),
        Ok((_w, n)) => {
            ||| (exists|data: Seq<u8>| data.len() == n && (reply_result(r, id) matches Some(v)
                && text_member(v, "data_b64"@, #[trigger] base64_text(data))))
            ||| (reply_error(r, id) matches Some((c, m)) && c == SERVER_ERROR && starts_with(m, "spi_transact failed: "@))
        },
    }
}

/// Run an SPI transaction operation on `device`.
pub fn handle_spi_transact<D: ProgrammerHal>(id: u64, op: &JsonValue, device: &D) -> (r: JsonValue)
    ensures
        spi_reply(id, *op, r),
{
    let request = match decode_spi_transact(op) {
        Ok(t) => t,
        Err((code, message)) => {
            return error_response(id, code, message.as_str());
        },
    };
    match run_spi_transact(device, &request) {
        Ok(data) => {
            let text = b64_encode(data.as_slice());
            let ghost d = data@;
            let r = success_response(id, object1("data_b64", JsonValue::Str(text)));
            assert(d.len() == request.read_len);
            r
        },
        Err(e) => {
            let m = msg_join("spi_transact failed: ", e.as_str());
            proof {
                reveal_strlit("spi_transact failed: ");
                assert(m@.subrange(0, "spi_transact failed: "@.len() as int) =~= "spi_transact failed: "@);
            }
            error_response(id, SERVER_ERROR, m.as_str())
        },
    }
}

/// The label of the `n`-th session.
pub open spec fn session_label(n: u64) -> Seq<char> {
    "ch34x-session-"@ + decimal(n as nat)
}

/// The counter after `n` (wrapping).
pub open spec fn next_counter(n: u64) -> u64 {
    if n == u64::MAX { 0 } else { (n + 1) as u64 }
}

/// The device id an `open` names (`?` when it names none).
pub open spec fn open_device_id(params: JsonValue) -> Seq<char> {
    text_param(params, "device_id"@, "?"@)
}

/// The name of the operation an `execute` carries (empty when none).
pub open spec fn op_name(params: JsonValue) -> Seq<char> {
    match member(params, "op"@) {
        Some(op) => text_param(op, "op"@, Seq::<char>::empty()),
        None => Seq::<char>::empty(),
    }
}

/// What `open` answers and does to the session (its label) and the
/// session counter.
pub open spec fn open_outcome(
    name0: Option<Seq<char>>,
    counter0: u64,
    name1: Option<Seq<char>>,
    counter1: u64,
    id: u64,
    params: JsonValue,
    r: JsonValue,
) -> bool {
    match spec_parse_device_id(open_device_id(params)) {
        None => {
            &&& reply_error(r, id) matches Some((c, m)) && c == INVALID_PARAMS && starts_with(m, "invalid device_id: "@)
            &&& name1 == name0
            &&& counter1 == counter0
        },
        Some(_) => {
            ||| {
                &&& reply_result(r, id) matches Some(v) && text_member(v, "session_id"@, session_label(counter0))
                &&& name1 == Some(session_label(counter0))
                &&& counter1 == next_counter(counter0)
            }
            ||| {
                &&& reply_error(r, id) matches Some((c, m)) && c == SERVER_ERROR
                    && starts_with(m, "failed to open "@ + open_device_id(params) + ": "@)
                &&& name1 == name0
                &&& counter1 == counter0
            }
        },
    }
}

/// What `close` answers and does to the session.
pub open spec fn close_outcome(name0: Option<Seq<char>>, name1: Option<Seq<char>>, id: u64, params: JsonValue, r: JsonValue) -> bool {
    if name0 == Some(text_param(params, "session_id"@, Seq::<char>::empty())) {
        &&& reply_result(r, id) matches Some(v) && empty_object(v)
        &&& name1 is None
    } else {
        &&& reply_error(r, id) == Some((BUSY as int, "close before open or unknown session_id"@))
        &&& name1 == name0
    }
}

/// What `execute` answers.
pub open spec fn execute_outcome(name: Option<Seq<char>>, id: u64, params: JsonValue, r: JsonValue) -> bool {
    if name == Some(text_param(params, "session_id"@, Seq::<char>::empty())) {
        if op_name(params) == "spi_transact"@ {
            member(params, "op"@) matches Some(op) && spi_reply(id, op, r)
        } else {
            reply_error(r, id) == Some((CAPABILITY_NOT_EXPOSED as int, "capability not exposed: "@ + op_name(params)))
        }
    } else {
        reply_error(r, id) == Some((BUSY as int, "execute before open or unknown session_id"@))
    }
}

/// The `handshake` answer: protocol 1, name, version, plugin API 1, and an
/// SPI capability on pins CS0/SCK/MOSI/MISO with 4092-byte frames up to
/// 60 MHz.
pub open spec fn ch34x_handshake(v: JsonValue) -> bool {
    match v {
        JsonValue::Object(m) => {
            &&& m@.len() == 5
            &&& m@[0].0@ == "protocol_version"@ && m@[0].1 == JsonValue::UInt(1)
            &&& m@[1].0@ == "name"@ && is_text(m@[1].1, "uni.hal.ch34x-sidecar"@)
            &&& m@[2].0@ == "version"@ && is_text(m@[2].1, "1.0.0"@)
            &&& m@[3].0@ == "plugin_api"@ && m@[3].1 == JsonValue::UInt(1)
            &&& m@[4].0@ == "capabilities"@ && match m@[4].1 {
                JsonValue::Object(c) => c@.len() == 1 && c@[0].0@ == "spi"@ && spi_capability(c@[0].1),
                _ => false,
            }
        },
        _ => false,
    }
}

/// `{"pins": ["CS0", "SCK", "MOSI", "MISO"], "max_frame": 4092, "max_freq_khz": 60000}`.
pub open spec fn spi_capability(v: JsonValue) -> bool {
    match v {
        JsonValue::Object(m) => {
            &&& m@.len() == 3
            &&& m@[0].0@ == "pins"@ && crate::rpc_server::string_array(m@[0].1) == Some(seq!["CS0"@, "SCK"@, "MOSI"@, "MISO"@])
            &&& m@[1].0@ == "max_frame"@ && m@[1].1 == JsonValue::UInt(4092)
            &&& m@[2].0@ == "max_freq_khz"@ && m@[2].1 == JsonValue::UInt(60000)
        },
        _ => false,
    }
}

fn handshake_result() -> (r: JsonValue)
    ensures
        ch34x_handshake(r),
{
    let mut pins: Vec<JsonValue> = Vec::new();
    pins.push(JsonValue::Str(String::from_str("CS0")));
    pins.push(JsonValue::Str(String::from_str("SCK")));
    pins.push(JsonValue::Str(String::from_str("MOSI")));
    pins.push(JsonValue::Str(String::from_str("MISO")));
    let ghost pv = pins@;
    let mut spi: Vec<(String, JsonValue)> = Vec::new();
    spi.push((String::from_str("pins"), JsonValue::Array(pins)));
    spi.push((String::from_str("max_frame"), JsonValue::UInt(4092)));
    spi.push((String::from_str("max_freq_khz"), JsonValue::UInt(60000)));
    let mut caps: Vec<(String, JsonValue)> = Vec::new();
    caps.push((String::from_str("spi"), JsonValue::Object(spi)));
    let mut m: Vec<(String, JsonValue)> = Vec::new();
    m.push((String::from_str("protocol_version"), JsonValue::UInt(1)));
    m.push((String::from_str("name"), JsonValue::Str(String::from_str("uni.hal.ch34x-sidecar"))));
    m.push((String::from_str("version"), JsonValue::Str(String::from_str("1.0.0"))));
    m.push((String::from_str("plugin_api"), JsonValue::UInt(1)));
    m.push((String::from_str("capabilities"), JsonValue::Object(caps)));
    proof {
        assert(Seq::new(pv.len(), |i: int| match pv[i] {
            JsonValue::Str(s) => s@,
            _ => Seq::<char>::empty(),
        }) =~= seq!["CS0"@, "SCK"@, "MOSI"@, "MISO"@]);
    }
    JsonValue::Object(m)
}

/// The reply to a probe that found the programmers `found`:
/// `{"devices": [...]}`.
pub open spec fn probe_answer(r: JsonValue, id: u64, found: Seq<(ChipKind, u8, u8)>) -> bool {
    reply_result(r, id) matches Some(v) && match v {
        JsonValue::Object(m) => m@.len() == 1 && m@[0].0@ == "devices"@ && probe_list(m@[0].1, found),
        _ => false,
    }
}

/// The CH34X adapter: the open session (its label and device), if any, and
/// the number the next session gets.
pub struct Ch34xServer<D: ProgrammerHal> {
    session: Option<(String, D)>,
    next_session_id: u64,
}

impl<D: ProgrammerHal> Ch34xServer<D> {
    pub closed spec fn session_name(&self) -> Option<Seq<char>> {
        match self.session {
            Some((sid, _)) => Some(sid@),
            None => None,
        }
    }

    pub closed spec fn counter(&self) -> u64 {
        self.next_session_id
    }

    /// No session; the first gets number 1.
    pub fn new() -> (s: Self)
        ensures
            s.session_name() is None,
            s.counter() == 1,
    {
        Ch34xServer { session: None, next_session_id: 1 }
    }

    /// Answer `open`: parse the device id, open the programmer in SPI mode
    /// and make it the session (replacing any earlier one).
    pub fn handle_open<O: Ch34xOpener<Device = D>>(&mut self, opener: &O, id: u64, params: &JsonValue) -> (r: JsonValue)
        ensures
            open_outcome(old(self).session_name(), old(self).counter(), final(self).session_name(), final(self).counter(), id, *params, r),
    {
        let device_id: &str = match get(params, "device_id") {
            Some(JsonValue::Str(s)) => s.as_str(),
            _ => "?",
        };
        let parsed = match parse_ch34x_device_id(device_id) {
            Ok(p) => p,
            Err(e) => {
                let m = msg_join("invalid device_id: ", e.as_str());
                proof {
                    assert(m@.subrange(0, "invalid device_id: "@.len() as int) =~= "invalid device_id: "@);
                }
                return error_response(id, INVALID_PARAMS, m.as_str());
            },
        };
        let settings = settings_for(&parsed);
        match opener.open_with_mode(&settings, DeviceMode::Spi) {
            Ok(device) => {
                let sid = msg_join("ch34x-session-", decimal_string(self.next_session_id).as_str());
                self.next_session_id = self.next_session_id.wrapping_add(1);
                let reply = success_response(id, object1("session_id", JsonValue::Str(sid.clone())));
                self.session = Some((sid, device));
                reply
            },
            Err(e) => {
                let head = msg_join3("failed to open ", device_id, ": ");
                let m = msg_join(head.as_str(), e.as_str());
                proof {
                    assert(m@.subrange(0, head@.len() as int) =~= head@);
                }
                error_response(id, SERVER_ERROR, m.as_str())
            },
        }
    }

    /// Answer `close`: end the session it names.
    pub fn handle_close(&mut self, id: u64, params: &JsonValue) -> (r: JsonValue)
        ensures
            final(self).counter() == old(self).counter(),
            close_outcome(old(self).session_name(), final(self).session_name(), id, *params, r),
    {
        proof {
            reveal_strlit("");
            assert(""@ =~= Seq::<char>::empty());
        }
        let sid: &str = match get(params, "session_id") {
            Some(JsonValue::Str(s)) => s.as_str(),
            _ => "",
        };
        let matches = match &self.session {
            Some((current, _)) => str_eq(current.as_str(), sid),
            None => false,
        };
        if matches {
            self.session = None;
            success_response(id, JsonValue::Object(Vec::new()))
        } else {
            error_response(id, BUSY, "close before open or unknown session_id")
        }
    }

    /// Answer `execute`: run the operation on the session it names; only
    /// SPI transactions are exposed.
    pub fn handle_execute(&self, id: u64, params: &JsonValue) -> (r: JsonValue)
        ensures
            execute_outcome(self.session_name(), id, *params, r),
    {
        proof {
            reveal_strlit("");
            assert(""@ =~= Seq::<char>::empty());
        }
        let sid: &str = match get(params, "session_id") {
            Some(JsonValue::Str(s)) => s.as_str(),
            _ => "",
        };
        let device = match &self.session {
            Some((current, dev)) => if str_eq(current.as_str(), sid) {
                dev
            } else {
                return error_response(id, BUSY, "execute before open or unknown session_id");
            },
            None => {
                return error_response(id, BUSY, "execute before open or unknown session_id");
            },
        };
        let op = match get(params, "op") {
            Some(o) => o,
            None => {
                assert("capability not exposed: "@ + Seq::<char>::empty() =~= "capability not exposed: "@);
                proof {
                    reveal_strlit("spi_transact");
                }
                return error_response(id, CAPABILITY_NOT_EXPOSED, "capability not exposed: ");
            },
        };
        let name: &str = match get(op, "op") {
            Some(JsonValue::Str(s)) => s.as_str(),
            _ => "",
        };
        if str_eq(name, "spi_transact") {
            handle_spi_transact(id, op, device)
        } else {
            error_response(id, CAPABILITY_NOT_EXPOSED, msg_join("capability not exposed: ", name).as_str())
        }
    }
}

impl<D: ProgrammerHal> Ch34xServer<D> {
    /// Answer one request.
    pub fn handle<B: Ch34xOpener<Device = D> + UsbScan>(&mut self, backend: &B, id: u64, method: &str, params: &JsonValue) -> (r: JsonValue)
        ensures
            method@ == "open"@ ==> open_outcome(old(self).session_name(), old(self).counter(), final(self).session_name(),
                final(self).counter(), id, *params, r),
            method@ == "close"@ ==> close_outcome(old(self).session_name(), final(self).session_name(), id, *params, r)
                && final(self).counter() == old(self).counter(),
            !(method@ == "open"@ || method@ == "close"@) ==> final(self).session_name() == old(self).session_name()
                && final(self).counter() == old(self).counter(),
            method@ == "execute"@ ==> execute_outcome(old(self).session_name(), id, *params, r),
            method@ == "handshake"@ ==> (reply_result(r, id) matches Some(v) && ch34x_handshake(v)),
            method@ == "probe"@ ==> exists|found: Seq<(ChipKind, u8, u8)>| #[trigger] probe_answer(r, id, found),
            !(method@ == "handshake"@ || method@ == "probe"@ || method@ == "open"@ || method@ == "close"@ || method@ == "execute"@)
                ==> reply_error(r, id) == Some((METHOD_NOT_FOUND as int, "method not found: "@ + method@)),
    {
        proof {
            reveal_strlit("handshake");
            reveal_strlit("probe");
            reveal_strlit("open");
            reveal_strlit("close");
            reveal_strlit("execute");
            assert("handshake"@.len() == 9 && "probe"@.len() == 5 && "open"@.len() == 4 && "close"@.len() == 5 && "execute"@.len() == 7);
            assert("probe"@[0] != "close"@[0]);
        }
        if str_eq(method, "handshake") {
            success_response(id, handshake_result())
        } else if str_eq(method, "probe") {
            let found = backend.usb_devices();
            let list = probe_devices(&found);
            let ghost f = found@;
            let r = success_response(id, object1("devices", list));
            assert(probe_answer(r, id, f));
            r
        } else if str_eq(method, "open") {
            self.handle_open(backend, id, params)
        } else if str_eq(method, "close") {
            self.handle_close(id, params)
        } else if str_eq(method, "execute") {
            self.handle_execute(id, params)
        } else {
            error_response(id, METHOD_NOT_FOUND, msg_join("method not found: ", method).as_str())
        }
    }
}

} // verus!
