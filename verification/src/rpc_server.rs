//! The sidecar side of the JSON-RPC style protocol: reading the head of a
//! request, the shape of success and error replies, and the chip database
//! sidecar (`upt.chipdb`), whose answers are decided here while the host
//! process does the file and pipe work.
use vstd::prelude::*;
use crate::chipdb::{
    id_field, id_key, info_matches, spec_protocol_id, ChipInfo, Chiplib,
};
use crate::order::{sorted_texts, texts};
use crate::json::{as_text, as_u64, encode_json, get, json_bytes, member, parse_json, take_member, JsonValue, json_document};
use crate::sidecar::INVALID_PARAMS;
use crate::text::{msg_join, str_eq};
use vstd::utf8::encode_utf8;

verus! {

/// Generic server error of JSON-RPC.
pub const SERVER_ERROR: i32 = -32000;

/// Unknown method of JSON-RPC.
pub const METHOD_NOT_FOUND: i32 = -32601;

/// The operation is outside what the adapter exposes.
pub const CAPABILITY_NOT_EXPOSED: i32 = -32001;

/// No session, or another session, is open.
pub const BUSY: i32 = -32002;

/// The `result` of a reply `{"id": id, "result": ...}` to request `id`.
pub open spec fn reply_result(r: JsonValue, id: u64) -> Option<JsonValue> {
    match r {
        JsonValue::Object(m) => if m@.len() == 2 && m@[0].0@ == "id"@ && m@[0].1 == JsonValue::UInt(id)
            && m@[1].0@ == "result"@ {
            Some(m@[1].1)
        } else {
            None
        },
        _ => None,
    }
}

/// The code and message of an error object `{"code": .., "message": ..}`.
pub open spec fn error_value(e: JsonValue) -> Option<(int, Seq<char>)> {
    match e {
        JsonValue::Object(m) => if m@.len() == 2 && m@[0].0@ == "code"@ && m@[1].0@ == "message"@ {
            match (m@[0].1, m@[1].1) {
                (JsonValue::NegInt(c), JsonValue::Str(s)) => Some((c as int, s@)),
                (JsonValue::UInt(c), JsonValue::Str(s)) => Some((c as int, s@)),
                _ => None,
            }
        } else {
            None
        },
        _ => None,
    }
}

/// The code and message of a reply `{"id": id, "error": {...}}` to request
/// `id`.
pub open spec fn reply_error(r: JsonValue, id: u64) -> Option<(int, Seq<char>)> {
    match r {
        JsonValue::Object(m) => if m@.len() == 2 && m@[0].0@ == "id"@ && m@[0].1 == JsonValue::UInt(id)
            && m@[1].0@ == "error"@ {
            error_value(m@[1].1)
        } else {
            None
        },
        _ => None,
    }
}

/// An object of one member `key: v`.
pub open spec fn single_member(o: JsonValue, key: Seq<char>, v: JsonValue) -> bool {
    match o {
        JsonValue::Object(m) => m@.len() == 1 && m@[0].0@ == key && m@[0].1 == v,
        _ => false,
    }
}

/// A string of text `t`.
pub open spec fn is_text(v: JsonValue, t: Seq<char>) -> bool {
    v matches JsonValue::Str(s) && s@ == t
}

/// An object without members.
pub open spec fn empty_object(o: JsonValue) -> bool {
    o matches JsonValue::Object(m) && m@.len() == 0
}

/// `{"id": id, "result": result}`.
pub fn success_response(id: u64, result: JsonValue) -> (r: JsonValue)
    ensures
        reply_result(r, id) == Some(result),
{
    let mut m: Vec<(String, JsonValue)> = Vec::new();
    m.push((String::from_str("id"), JsonValue::UInt(id)));
    m.push((String::from_str("result"), result));
    JsonValue::Object(m)
}

/// `{"id": id, "error": {"code": code, "message": message}}`.
pub fn error_response(id: u64, code: i32, message: &str) -> (r: JsonValue)
    ensures
        reply_error(r, id) == Some((code as int, message@)),
{
    let c = if code < 0 { JsonValue::NegInt(code as i64) } else { JsonValue::UInt(code as u64) };
    let mut e: Vec<(String, JsonValue)> = Vec::new();
    e.push((String::from_str("code"), c));
    e.push((String::from_str("message"), JsonValue::Str(String::from_str(message))));
    let mut m: Vec<(String, JsonValue)> = Vec::new();
    m.push((String::from_str("id"), JsonValue::UInt(id)));
    m.push((String::from_str("error"), JsonValue::Object(e)));
    JsonValue::Object(m)
}

/// `{key: v}`.
pub fn object1(key: &str, v: JsonValue) -> (r: JsonValue)
    ensures
        single_member(r, key@, v),
{
    let mut m: Vec<(String, JsonValue)> = Vec::new();
    m.push((String::from_str(key), v));
    JsonValue::Object(m)
}

/// The bytes of a reply (`serde_json::to_vec`).
pub fn encode_reply(v: &JsonValue) -> (r: Result<Vec<u8>, String>)
    ensures
        r matches Ok(b) ==> b@ == json_bytes(*v),
{
    encode_json(v)
}

/// The id, method and parameters of a request.
pub struct RequestHead {
    pub id: u64,
    pub method: String,
    pub params: JsonValue,
}

/// A request document has a numeric `id`.
pub open spec fn has_numeric_id(d: JsonValue) -> bool {
    as_u64(member(d, "id"@)) is Some
}

/// Read the head of a request: its numeric `id`, its `method` (empty when
/// absent or no string) and its `params` (an empty object when absent).
/// `None` for bytes that are no JSON document, or a document without a
/// numeric id (such requests are ignored).
pub fn request_head(payload: &[u8]) -> (r: Option<RequestHead>)
    ensures
        match r {
            Some(h) => json_document(payload@) matches Some(d) && {
                &&& as_u64(member(d, "id"@)) == Some(h.id)
                &&& h.method@ == (match as_text(member(d, "method"@)) { Some(t) => t, None => Seq::<char>::empty() })
                &&& match member(d, "params"@) {
                    Some(p) => h.params == p,
                    None => empty_object(h.params),
                }
            },
            None => json_document(payload@) matches Some(d) ==> !has_numeric_id(d),
        },
{
    let doc = match parse_json(payload) {
        Ok(d) => d,
        Err(_) => {
            return None;
        },
    };
    let id = match get(&doc, "id") {
        Some(JsonValue::UInt(u)) => *u,
        _ => {
            return None;
        },
    };
    let method = match get(&doc, "method") {
        Some(JsonValue::Str(s)) => s.clone(),
        _ => String::new(),
    };
    let ghost d = doc;
    let members = match doc {
        JsonValue::Object(m) => m,
        _ => {
            return None;
        },
    };
    let params = match take_member(members, "params") {
        Some(p) => p,
        None => JsonValue::Object(Vec::new()),
    };
    Some(RequestHead { id, method, params })
}

/// The JSON form of a chip record: `id`, `vendor`, `model`, `protocol`,
/// `size`, `page` and its attributes as an object of strings.
pub open spec fn chip_json(v: JsonValue, info: ChipInfo) -> bool {
    match v {
        JsonValue::Object(m) => {
            &&& m@.len() == 7
            &&& m@[0].0@ == "id"@ && is_text(m@[0].1, info.id@)
            &&& m@[1].0@ == "vendor"@ && is_text(m@[1].1, info.vendor@)
            &&& m@[2].0@ == "model"@ && is_text(m@[2].1, info.model@)
            &&& m@[3].0@ == "protocol"@ && is_text(m@[3].1, info.protocol@)
            &&& m@[4].0@ == "size"@ && m@[4].1 == JsonValue::UInt(info.size)
            &&& m@[5].0@ == "page"@ && m@[5].1 == JsonValue::UInt(info.page as u64)
            &&& m@[6].0@ == "attrs"@ && string_object(m@[6].1, info.attrs@)
        },
        _ => false,
    }
}

/// An object whose members are the pairs `pairs`, each value a string.
pub open spec fn string_object(v: JsonValue, pairs: Seq<(String, String)>) -> bool {
    match v {
        JsonValue::Object(m) => m@.len() == pairs.len() && forall|i: int| 0 <= i < pairs.len() ==> {
            &&& (#[trigger] m@[i]).0@ == pairs[i].0@
            &&& is_text(m@[i].1, pairs[i].1@)
        },
        _ => false,
    }
}

/// The texts of an array of strings.
pub open spec fn string_array(v: JsonValue) -> Option<Seq<Seq<char>>> {
    match v {
        JsonValue::Array(a) => if forall|i: int| 0 <= i < a@.len() ==> (#[trigger] a@[i]) is Str {
            Some(Seq::new(a@.len(), |i: int| match a@[i] {
                JsonValue::Str(s) => s@,
                _ => Seq::<char>::empty(),
            }))
        } else {
            None
        },
        _ => None,
    }
}

fn text_value(s: &String) -> (r: JsonValue)
    ensures
        is_text(r, s@),
{
    JsonValue::Str(s.clone())
}

/// `[s0, s1, ...]` of strings.
pub fn string_array_of(v: Vec<String>) -> (r: JsonValue)
    ensures
        string_array(r) == Some(crate::order::texts(v@)),
{
    let mut a: Vec<JsonValue> = Vec::new();
    let mut i: usize = 0;
    while i < v.len()
        invariant
            i <= v@.len(),
            a@.len() == i,
            forall|j: int| 0 <= j < i ==> is_text(#[trigger] a@[j], v@[j]@),
        decreases v@.len() - i,
    {
        a.push(text_value(&v[i]));
        i = i + 1;
    }
    let r = JsonValue::Array(a);
    assert(Seq::new(a@.len(), |j: int| match a@[j] {
        JsonValue::Str(s) => s@,
        _ => Seq::<char>::empty(),
    }) =~= crate::order::texts(v@));
    r
}

/// `{"id": .., "vendor": .., ...}` of a chip record.
pub fn chip_to_json(info: &ChipInfo) -> (r: JsonValue)
    ensures
        chip_json(r, *info),
{
    let mut attrs: Vec<(String, JsonValue)> = Vec::new();
    let mut i: usize = 0;
    while i < info.attrs.len()
        invariant
            i <= info.attrs@.len(),
            attrs@.len() == i,
            forall|j: int| 0 <= j < i ==> {
                &&& (#[trigger] attrs@[j]).0@ == info.attrs@[j].0@
                &&& is_text(attrs@[j].1, info.attrs@[j].1@)
            },
        decreases info.attrs@.len() - i,
    {
        let k = info.attrs[i].0.clone();
        let v = text_value(&info.attrs[i].1);
        attrs.push((k, v));
        i = i + 1;
    }
    let mut m: Vec<(String, JsonValue)> = Vec::new();
    m.push((String::from_str("id"), text_value(&info.id)));
    m.push((String::from_str("vendor"), text_value(&info.vendor)));
    m.push((String::from_str("model"), text_value(&info.model)));
    m.push((String::from_str("protocol"), text_value(&info.protocol)));
    m.push((String::from_str("size"), JsonValue::UInt(info.size)));
    m.push((String::from_str("page"), JsonValue::UInt(info.page as u64)));
    m.push((String::from_str("attrs"), JsonValue::Object(attrs)));
    JsonValue::Object(m)
}

/// The texts of the one member `key` of `v`, an array of strings.
pub open spec fn member_texts(v: JsonValue, key: Seq<char>) -> Option<Seq<Seq<char>>> {
    match v {
        JsonValue::Object(m) => if m@.len() == 1 && m@[0].0@ == key {
            string_array(m@[0].1)
        } else {
            None
        },
        _ => None,
    }
}

/// The text of parameter `key`, or `default`.
pub open spec fn text_param(params: JsonValue, key: Seq<char>, default: Seq<char>) -> Seq<char> {
    match as_text(member(params, key)) {
        Some(t) => t,
        None => default,
    }
}

/// The text of parameter `key`, or `default` (the sidecar's `path_arg`).
pub fn path_arg(params: &JsonValue, key: &str, default: &str) -> (r: String)
    ensures
        r@ == text_param(*params, key@, default@),
{
    match get(params, key) {
        Some(JsonValue::Str(s)) => s.clone(),
        _ => String::from_str(default),
    }
}

/// What the chip database sidecar answers to `lookup` with `params`.
pub open spec fn lookup_reply(lib: Option<Chiplib>, id: u64, params: JsonValue, r: JsonValue) -> bool {
    match as_text(member(params, "id"@)) {
        None => reply_error(r, id) == Some((INVALID_PARAMS as int, "missing id"@)),
        Some(t) => match lib {
            None => reply_error(r, id) == Some((SERVER_ERROR as int, "NOT_LOADED"@)),
            Some(l) => {
                let key = id_key(id_field(encode_utf8(t)));
                if exists|k: int| 0 <= k < l.entries_view().len() && id_key(#[trigger] l.entries_view()[k].id@) == key {
                    exists|k: int, info: ChipInfo| 0 <= k < l.entries_view().len()
                        && id_key(l.entries_view()[k].id@) == key
                        && #[trigger] info_matches(info, l.attrs_at(k), t)
                        && (reply_result(r, id) matches Some(v) && chip_json(v, info))
                } else {
                    reply_error(r, id) == Some((SERVER_ERROR as int, "NOT_FOUND"@))
                }
            },
        },
    }
}

/// What the chip database sidecar answers to `vendors` with `params`.
pub open spec fn vendors_reply(lib: Option<Chiplib>, id: u64, params: JsonValue, r: JsonValue) -> bool {
    match as_text(member(params, "protocol"@)) {
        None => reply_error(r, id) == Some((INVALID_PARAMS as int, "missing protocol"@)),
        Some(p) => match lib {
            None => reply_error(r, id) == Some((SERVER_ERROR as int, "NOT_LOADED"@)),
            Some(l) => reply_result(r, id) matches Some(v) && member_texts(v, "vendors"@) matches Some(ts) && {
                &&& sorted_texts(ts)
                &&& ts.to_multiset() == l.vendors_upto(spec_protocol_id(p), l.entries_view().len() as int).to_multiset()
            },
        },
    }
}

/// What the chip database sidecar answers to `models` with `params`.
pub open spec fn models_reply(lib: Option<Chiplib>, id: u64, params: JsonValue, r: JsonValue) -> bool {
    match as_text(member(params, "protocol"@)) {
        None => reply_error(r, id) == Some((INVALID_PARAMS as int, "missing protocol"@)),
        Some(p) => match as_text(member(params, "vendor"@)) {
            None => reply_error(r, id) == Some((INVALID_PARAMS as int, "missing vendor"@)),
            Some(vd) => match lib {
                None => reply_error(r, id) == Some((SERVER_ERROR as int, "NOT_LOADED"@)),
                Some(l) => reply_result(r, id) matches Some(v) && member_texts(v, "models"@) matches Some(ts) && {
                    &&& sorted_texts(ts)
                    &&& ts.to_multiset() == l.models_upto(spec_protocol_id(p), vd, l.entries_view().len() as int).to_multiset()
                },
            },
        },
    }
}

/// What the chip database sidecar answers to `stats`.
pub open spec fn stats_reply(lib: Option<Chiplib>, id: u64, r: JsonValue) -> bool {
    match lib {
        None => reply_error(r, id) == Some((SERVER_ERROR as int, "NOT_LOADED"@)),
        Some(l) => reply_result(r, id) matches Some(v)
            && single_member(v, "count"@, JsonValue::UInt(l.entries_view().len() as u64)),
    }
}

/// The `handshake` answer of the chip database sidecar.
pub open spec fn chipdb_handshake(v: JsonValue) -> bool {
    match v {
        JsonValue::Object(m) => {
            &&& m@.len() == 3
            &&& m@[0].0@ == "name"@ && is_text(m@[0].1, "upt.chipdb"@)
            &&& m@[1].0@ == "version"@ && is_text(m@[1].1, "1.0.0"@)
            &&& m@[2].0@ == "plugin_api"@ && m@[2].1 == JsonValue::UInt(1)
        },
        _ => false,
    }
}

/// What the chip database sidecar does with one request: answer it, or
/// (for `load`) have the host load the library from two files.
pub enum ChipdbStep {
    Reply(JsonValue),
    Load { id: u64, xml_path: String, bin_path: String },
}

/// The chip database sidecar: the loaded library, if any, and the files
/// `load` reads when its parameters name none.
pub struct ChipdbServer {
    lib: Option<Chiplib>,
    bin_default: String,
    xml_default: String,
}

impl ChipdbServer {
    pub closed spec fn library(&self) -> Option<Chiplib> {
        self.lib
    }

    pub closed spec fn default_paths(&self) -> (Seq<char>, Seq<char>) {
        (self.bin_default@, self.xml_default@)
    }

    /// A loaded library is well formed (lookups rely on it).
    pub open spec fn inv(&self) -> bool {
        self.library() matches Some(l) ==> l.wf()
    }

    /// A server without a library; `load` defaults to `bin_default` and
    /// `xml_default`.
    pub fn new(bin_default: String, xml_default: String) -> (s: ChipdbServer)
        ensures
            s.inv(),
            s.library() is None,
            s.default_paths() == (bin_default@, xml_default@),
    {
        ChipdbServer { lib: None, bin_default, xml_default }
    }

    /// Answer `lookup`: the record of chip `id`.
    pub fn handle_lookup(&self, id: u64, params: &JsonValue) -> (r: JsonValue)
        requires
            self.inv(),
        ensures
            lookup_reply(self.library(), id, *params, r),
    {
        let chip_id = match get(params, "id") {
            Some(JsonValue::Str(s)) => s,
            _ => {
                return error_response(id, INVALID_PARAMS, "missing id");
            },
        };
        let lib = match &self.lib {
            Some(l) => l,
            None => {
                return error_response(id, SERVER_ERROR, "NOT_LOADED");
            },
        };
        match lib.find_by_id(chip_id.as_str()) {
            Some(info) => success_response(id, chip_to_json(&info)),
            None => error_response(id, SERVER_ERROR, "NOT_FOUND"),
        }
    }

    /// Answer `vendors`: the vendors of chips of a protocol, sorted.
    pub fn handle_vendors(&self, id: u64, params: &JsonValue) -> (r: JsonValue)
        requires
            self.inv(),
        ensures
            vendors_reply(self.library(), id, *params, r),
    {
        let protocol = match get(params, "protocol") {
            Some(JsonValue::Str(s)) => s,
            _ => {
                return error_response(id, INVALID_PARAMS, "missing protocol");
            },
        };
        match &self.lib {
            Some(l) => {
                let list = l.list_vendors(protocol.as_str());
                success_response(id, object1("vendors", string_array_of(list)))
            },
            None => error_response(id, SERVER_ERROR, "NOT_LOADED"),
        }
    }

    /// Answer `models`: the models of a vendor's chips of a protocol, sorted.
    pub fn handle_models(&self, id: u64, params: &JsonValue) -> (r: JsonValue)
        requires
            self.inv(),
        ensures
            models_reply(self.library(), id, *params, r),
    {
        let protocol = match get(params, "protocol") {
            Some(JsonValue::Str(s)) => s,
            _ => {
                return error_response(id, INVALID_PARAMS, "missing protocol");
            },
        };
        let vendor = match get(params, "vendor") {
            Some(JsonValue::Str(s)) => s,
            _ => {
                return error_response(id, INVALID_PARAMS, "missing vendor");
            },
        };
        match &self.lib {
            Some(l) => {
                let list = l.list_models(protocol.as_str(), vendor.as_str());
                success_response(id, object1("models", string_array_of(list)))
            },
            None => error_response(id, SERVER_ERROR, "NOT_LOADED"),
        }
    }

    /// Answer `stats`: the number of chips.
    pub fn handle_stats(&self, id: u64) -> (r: JsonValue)
        ensures
            stats_reply(self.library(), id, r),
    {
        match &self.lib {
            Some(l) => success_response(id, object1("count", JsonValue::UInt(l.entry_count() as u64))),
            None => error_response(id, SERVER_ERROR, "NOT_LOADED"),
        }
    }

    /// Decide what to do with a request.
    pub fn handle(&self, id: u64, method: &str, params: &JsonValue) -> (r: ChipdbStep)
        requires
            self.inv(),
        ensures
            method@ == "load"@ ==> (r matches ChipdbStep::Load { id: i, xml_path, bin_path } && i == id
                && xml_path@ == text_param(*params, "xml_path"@, self.default_paths().1)
                && bin_path@ == text_param(*params, "bin_path"@, self.default_paths().0)),
            method@ == "handshake"@ ==> (r matches ChipdbStep::Reply(v) && (reply_result(v, id) matches Some(h) && chipdb_handshake(h))),
            method@ == "lookup"@ ==> (r matches ChipdbStep::Reply(v) && lookup_reply(self.library(), id, *params, v)),
            method@ == "vendors"@ ==> (r matches ChipdbStep::Reply(v) && vendors_reply(self.library(), id, *params, v)),
            method@ == "models"@ ==> (r matches ChipdbStep::Reply(v) && models_reply(self.library(), id, *params, v)),
            method@ == "stats"@ ==> (r matches ChipdbStep::Reply(v) && stats_reply(self.library(), id, v)),
            !(method@ == "load"@ || method@ == "handshake"@ || method@ == "lookup"@ || method@ == "vendors"@
                || method@ == "models"@ || method@ == "stats"@) ==> (r matches ChipdbStep::Reply(v)
                && reply_error(v, id) == Some((METHOD_NOT_FOUND as int, "method not found: "@ + method@))),
    {
        proof {
            reveal_strlit("handshake");
            reveal_strlit("load");
            reveal_strlit("lookup");
            reveal_strlit("vendors");
            reveal_strlit("models");
            reveal_strlit("stats");
            assert("handshake"@.len() == 9 && "load"@.len() == 4 && "lookup"@.len() == 6);
            assert("vendors"@.len() == 7 && "models"@.len() == 6 && "stats"@.len() == 5);
            assert("lookup"@[0] != "models"@[0]);
        }
        if str_eq(method, "handshake") {
            let mut m: Vec<(String, JsonValue)> = Vec::new();
            m.push((String::from_str("name"), JsonValue::Str(String::from_str("upt.chipdb"))));
            m.push((String::from_str("version"), JsonValue::Str(String::from_str("1.0.0"))));
            m.push((String::from_str("plugin_api"), JsonValue::UInt(1)));
            ChipdbStep::Reply(success_response(id, JsonValue::Object(m)))
        } else if str_eq(method, "load") {
            let xml_path = path_arg(params, "xml_path", self.xml_default.as_str());
            let bin_path = path_arg(params, "bin_path", self.bin_default.as_str());
            ChipdbStep::Load { id, xml_path, bin_path }
        } else if str_eq(method, "lookup") {
            ChipdbStep::Reply(self.handle_lookup(id, params))
        } else if str_eq(method, "vendors") {
            ChipdbStep::Reply(self.handle_vendors(id, params))
        } else if str_eq(method, "models") {
            ChipdbStep::Reply(self.handle_models(id, params))
        } else if str_eq(method, "stats") {
            ChipdbStep::Reply(self.handle_stats(id))
        } else {
            ChipdbStep::Reply(error_response(id, METHOD_NOT_FOUND, msg_join("method not found: ", method).as_str()))
        }
    }

    /// Take the outcome of a `load` the host performed: keep the library and
    /// answer its size, or answer the error. A library whose index is not
    /// sorted, or has records outside its data, is refused (lookups in it
    /// would fail), and the one loaded before stays.
    pub fn finish_load(&mut self, id: u64, loaded: Result<Chiplib, String>) -> (r: JsonValue)
        requires
            old(self).inv(),
        ensures
            final(self).inv(),
            final(self).default_paths() == old(self).default_paths(),
            match loaded {
                Ok(l) => if l.wf() {
                    &&& final(self).library() == Some(l)
                    &&& reply_result(r, id) matches Some(v) && single_member(v, "count"@, JsonValue::UInt(l.entries_view().len() as u64))
                } else {
                    &&& final(self).library() == old(self).library()
                    &&& reply_error(r, id) matches Some((c, _)) && c == SERVER_ERROR
                },
                Err(e) => final(self).library() == old(self).library()
                    && reply_error(r, id) == Some((SERVER_ERROR as int, e@)),
            },
    {
        match loaded {
            Ok(lib) => {
                if !lib.is_well_formed() {
                    return error_response(id, SERVER_ERROR, "chiplib index is not sorted or has records outside its data");
                }
                let count = lib.entry_count() as u64;
                self.lib = Some(lib);
                success_response(id, object1("count", JsonValue::UInt(count)))
            },
            Err(e) => error_response(id, SERVER_ERROR, e.as_str()),
        }
    }
}

} // verus!
