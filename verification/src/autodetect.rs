//! The programmer list of auto-detection: how a found CH34X device or
//! serprog port is named and keyed.
use vstd::prelude::*;
use crate::ch34x::ChipKind;
use crate::devcore::{decimal, decimal_string, ProgrammerCandidate};
use crate::text::{msg_join, msg_join3};

verus! {

/// The candidate kind and display name of a CH34X chip.
pub open spec fn spec_kind_name(kind: ChipKind) -> (Seq<char>, Seq<char>) {
    match kind {
        ChipKind::Ch341A => ("ch341"@, "CH341A"@),
        ChipKind::Ch347T => ("ch347"@, "CH347T"@),
        ChipKind::Ch347F => ("ch347f"@, "CH347F"@),
    }
}

pub fn kind_name(kind: ChipKind) -> (r: (&'static str, &'static str))
    ensures
        (r.0@, r.1@) == spec_kind_name(kind),
{
    match kind {
        ChipKind::Ch341A => ("ch341", "CH341A"),
        ChipKind::Ch347T => ("ch347", "CH347T"),
        ChipKind::Ch347F => ("ch347f", "CH347F"),
    }
}

/// A CH34X device found by index (vendor driver enumeration): keyed
/// `<kind>:<index>`.
pub fn ch34x_index_candidate(index: u32, kind: ChipKind) -> (r: ProgrammerCandidate)
    ensures
        r.id@ == spec_kind_name(kind).0 + ":"@ + decimal(index as nat),
        r.kind@ == spec_kind_name(kind).0,
        r.name@ == spec_kind_name(kind).1 + " 编程器"@,
        r.detail@ == "CH34X 设备 "@ + decimal(index as nat),
        r.device_index == Some(index),
        r.usb_bus is None && r.usb_address is None && r.port is None,
{
    let (kind_str, name) = kind_name(kind);
    let idx = decimal_string(index as u64);
    ProgrammerCandidate {
        id: msg_join3(kind_str, ":", idx.as_str()),
        kind: String::from_str(kind_str),
        name: msg_join(name, " 编程器"),
        detail: msg_join("CH34X 设备 ", idx.as_str()),
        device_index: Some(index),
        usb_bus: None,
        usb_address: None,
        port: None,
    }
}

/// A CH34X device found on the USB bus (libusb enumeration): keyed
/// `<kind>:<bus>:<address>`.
pub fn ch34x_usb_candidate(kind: ChipKind, bus: u8, address: u8) -> (r: ProgrammerCandidate)
    ensures
        r.id@ == spec_kind_name(kind).0 + ":"@ + decimal(bus as nat) + ":"@ + decimal(address as nat),
        r.kind@ == spec_kind_name(kind).0,
        r.name@ == spec_kind_name(kind).1 + " 编程器"@,
        r.detail@ == "USB bus "@ + decimal(bus as nat) + " addr "@ + decimal(address as nat),
        r.device_index is None && r.port is None,
        r.usb_bus == Some(bus) && r.usb_address == Some(address),
{
    let (kind_str, name) = kind_name(kind);
    let b = decimal_string(bus as u64);
    let a = decimal_string(address as u64);
    let head = msg_join3(kind_str, ":", b.as_str());
    ProgrammerCandidate {
        id: msg_join3(head.as_str(), ":", a.as_str()),
        kind: String::from_str(kind_str),
        name: msg_join(name, " 编程器"),
        detail: msg_join3("USB bus ", b.as_str(), msg_join(" addr ", a.as_str()).as_str()),
        device_index: None,
        usb_bus: Some(bus),
        usb_address: Some(address),
        port: None,
    }
}

/// A serial port that answered the serprog handshake with `version`.
pub fn serprog_candidate(port: &str, version: &str) -> (r: ProgrammerCandidate)
    ensures
        r.id@ == "serprog:"@ + port@,
        r.kind@ == "serprog"@,
        r.name@ == "Serprog ("@ + port@ + ")"@,
        r.detail@ == port@ + " · "@ + version@,
        r.port matches Some(p) && p@ == port@,
        r.device_index is None && r.usb_bus is None && r.usb_address is None,
{
    ProgrammerCandidate {
        id: msg_join("serprog:", port),
        kind: String::from_str("serprog"),
        name: msg_join3("Serprog (", port, ")"),
        detail: msg_join3(port, " · ", version),
        device_index: None,
        usb_bus: None,
        usb_address: None,
        port: Some(String::from_str(port)),
    }
}

/// The serprog candidates of probed ports, in port order: each port with
/// the version its handshake reported, or `None` when it did not answer.
pub fn scan_serprog(probed: &[(String, Option<String>)]) -> (r: Vec<ProgrammerCandidate>)
    ensures
        r@.len() == count_answered(probed@),
        forall|i: int| 0 <= i < r@.len() ==> #[trigger] r@[i].id@ == "serprog:"@ + answered(probed@)[i].0,
        forall|i: int| 0 <= i < r@.len() ==> #[trigger] r@[i].detail@ == answered(probed@)[i].0 + " · "@ + answered(probed@)[i].1,
{
    let mut out: Vec<ProgrammerCandidate> = Vec::new();
    let mut i: usize = 0;
    assert(probed@.take(0) =~= Seq::<(String, Option<String>)>::empty());
    while i < probed.len()
        invariant
            i <= probed@.len(),
            out@.len() == count_answered(probed@.take(i as int)),
            forall|k: int| 0 <= k < out@.len() ==> #[trigger] out@[k].id@ == "serprog:"@ + answered(probed@.take(i as int))[k].0,
            forall|k: int| 0 <= k < out@.len() ==> #[trigger] out@[k].detail@
                == answered(probed@.take(i as int))[k].0 + " · "@ + answered(probed@.take(i as int))[k].1,
        decreases probed@.len() - i,
    {
        assert(probed@.take(i + 1).drop_last() =~= probed@.take(i as int));
        assert(probed@.take(i + 1).last() == probed@[i as int]);
        match &probed[i].1 {
            Some(version) => {
                out.push(serprog_candidate(probed[i].0.as_str(), version.as_str()));
            },
            None => {},
        }
        i = i + 1;
    }
    assert(probed@.take(probed@.len() as int) =~= probed@);
    out
}

/// The ports that answered, with their versions, in order.
pub open spec fn answered(p: Seq<(String, Option<String>)>) -> Seq<(Seq<char>, Seq<char>)>
    decreases p.len(),
{
    if p.len() == 0 {
        Seq::empty()
    } else {
        let r = answered(p.drop_last());
        match p.last().1 {
            Some(v) => r.push((p.last().0@, v@)),
            None => r,
        }
    }
}

/// How many ports answered.
pub open spec fn count_answered(p: Seq<(String, Option<String>)>) -> nat {
    answered(p).len()
}

} // verus!
