//! Device ids of the CH34X sidecar adapter.
//!
//! A CH34X device id has one of these forms:
//! `ch34x:<kind>:<dll-index>` or `ch34x:<kind>:<bus>:<address>`,
//! with `<kind>` one of `ch341`, `ch347`, `ch347f`.
use vstd::prelude::*;
use crate::ch34x::{default_settings, ChipKind, Ch34xSettings};
use crate::text::{chars_of, parse_unsigned, spec_parse_unsigned};

verus! {

/// Where a CH34X device is found.
#[derive(Debug, Clone, Copy, PartialEq, Eq)]
pub enum DeviceLocation {
    DllIndex(u32),
    UsbBusAddr { bus: u8, address: u8 },
}

/// A decoded device id.
#[derive(Debug, Clone, Copy, PartialEq, Eq)]
pub struct ParsedDeviceId {
    pub kind: ChipKind,
    pub location: DeviceLocation,
}

/// The wire name and the display label of a chip kind.
pub fn kind_wire(kind: ChipKind) -> (r: (&'static str, &'static str))
    ensures
        r.0@ == spec_kind_wire(kind),
        r.1@ == match kind {
            ChipKind::Ch341A => "CH341A"@,
            ChipKind::Ch347T => "CH347T"@,
            ChipKind::Ch347F => "CH347F"@,
        },
{
    match kind {
        ChipKind::Ch341A => ("ch341", "CH341A"),
        ChipKind::Ch347T => ("ch347", "CH347T"),
        ChipKind::Ch347F => ("ch347f", "CH347F"),
    }
}

pub open spec fn spec_kind_wire(kind: ChipKind) -> Seq<char> {
    match kind {
        ChipKind::Ch341A => "ch341"@,
        ChipKind::Ch347T => "ch347"@,
        ChipKind::Ch347F => "ch347f"@,
    }
}

/// Index of the first `sep` at or after `i` in `s` (or `s.len()`).
pub open spec fn next_sep(s: Seq<char>, sep: char, i: int) -> int
    decreases s.len() - i,
{
    if i < 0 || i >= s.len() {
        s.len() as int
    } else if s[i] == sep {
        i
    } else {
        next_sep(s, sep, i + 1)
    }
}

pub proof fn lemma_next_sep(s: Seq<char>, sep: char, i: int)
    requires
        0 <= i <= s.len(),
    ensures
        i <= next_sep(s, sep, i) <= s.len(),
    decreases s.len() - i,
{
    if i < s.len() && s[i] != sep {
        lemma_next_sep(s, sep, i + 1);
    }
}

/// The `sep`-separated parts of `s` from position `i` on (as `str::split`).
pub open spec fn split_from(s: Seq<char>, sep: char, i: int) -> Seq<Seq<char>>
    decreases s.len() - i,
{
    if i < 0 || i > s.len() {
        Seq::empty()
    } else {
        let e = next_sep(s, sep, i);
        proof {
            lemma_next_sep(s, sep, i);
        }
        if e >= s.len() {
            seq![s.subrange(i, s.len() as int)]
        } else {
            seq![s.subrange(i, e)] + split_from(s, sep, e + 1)
        }
    }
}

/// The parts of `s` separated by `sep`.
pub open spec fn split(s: Seq<char>, sep: char) -> Seq<Seq<char>> {
    split_from(s, sep, 0)
}

/// Split `s` at every `sep`.
pub fn split_chars(s: &[char], sep: char) -> (r: Vec<Vec<char>>)
    ensures
        r@.len() == split(s@, sep).len(),
        forall|k: int| 0 <= k < r@.len() ==> #[trigger] r@[k]@ == split(s@, sep)[k],
{
    let n = s.len();
    let mut parts: Vec<Vec<char>> = Vec::new();
    let ghost mut acc: Seq<Seq<char>> = Seq::empty();
    let mut pos: usize = 0;
    loop
        invariant
            n == s@.len(),
            pos <= n,
            parts@.len() == acc.len(),
            forall|k: int| 0 <= k < parts@.len() ==> #[trigger] parts@[k]@ == acc[k],
            split(s@, sep) == acc + split_from(s@, sep, pos as int),
        decreases n - pos,
    {
        let mut e = pos;
        while e < n && s[e] != sep
            invariant
                n == s@.len(),
                pos <= e <= n,
                next_sep(s@, sep, pos as int) == next_sep(s@, sep, e as int),
            decreases n - e,
        {
            e = e + 1;
        }
        let mut part: Vec<char> = Vec::new();
        let mut i = pos;
        while i < e
            invariant
                pos <= i <= e <= n,
                n == s@.len(),
                part@ == s@.subrange(pos as int, i as int),
            decreases e - i,
        {
            part.push(s[i]);
            i = i + 1;
            assert(part@ =~= s@.subrange(pos as int, i as int));
        }
        let ghost piece = s@.subrange(pos as int, e as int);
        parts.push(part);
        proof {
            acc = acc.push(piece);
        }
        if e == n {
            assert(split(s@, sep) =~= acc);
            return parts;
        }
        assert(split_from(s@, sep, pos as int) == seq![piece] + split_from(s@, sep, e + 1));
        assert(acc.drop_last() + seq![piece] =~= acc);
        assert(split(s@, sep) =~= acc + split_from(s@, sep, e + 1));
        pos = e + 1;
    }
}

/// Whether `a` equals `b`.
pub fn chars_eq(a: &[char], b: &[char]) -> (r: bool)
    ensures
        r == (a@ == b@),
{
    if a.len() != b.len() {
        return false;
    }
    let mut i: usize = 0;
    while i < a.len()
        invariant
            a@.len() == b@.len(),
            i <= a@.len(),
            a@.take(i as int) == b@.take(i as int),
        decreases a@.len() - i,
    {
        if a[i] != b[i] {
            assert(a@.take(i + 1)[i as int] != b@.take(i + 1)[i as int]);
            assert(a@ != b@) by {
                if a@ == b@ {
                    assert(a@[i as int] == b@[i as int]);
                }
            }
            return false;
        }
        i = i + 1;
        assert(a@.take(i as int) =~= b@.take(i as int)) by {
            assert forall|k: int| 0 <= k < i implies a@.take(i as int)[k] == b@.take(i as int)[k] by {
                if k < i - 1 {
                    assert(a@.take(i - 1)[k] == b@.take(i - 1)[k]);
                }
            }
        }
    }
    assert(a@ =~= a@.take(a@.len() as int));
    assert(b@ =~= b@.take(b@.len() as int));
    true
}

/// The chip kind named by a device-id kind part.
pub open spec fn spec_kind_of(part: Seq<char>) -> Option<ChipKind> {
    if part == "ch341"@ {
        Some(ChipKind::Ch341A)
    } else if part == "ch347"@ {
        Some(ChipKind::Ch347T)
    } else if part == "ch347f"@ {
        Some(ChipKind::Ch347F)
    } else {
        None
    }
}

/// What a device id denotes, or `None` when it is malformed.
pub open spec fn spec_parse_device_id(id: Seq<char>) -> Option<ParsedDeviceId> {
    if id.len() < 6 || id.take(6) != "ch34x:"@ {
        None
    } else {
        let parts = split(id.skip(6), ':');
        match spec_kind_of(parts[0]) {
            None => None,
            Some(kind) => if parts.len() < 2 || parts.len() > 3 {
                None
            } else if parts.len() == 3 {
                match (spec_parse_unsigned(parts[1], 255), spec_parse_unsigned(parts[2], 255)) {
                    (Some(bus), Some(address)) => Some(ParsedDeviceId { kind,
                        location: DeviceLocation::UsbBusAddr { bus: bus as u8, address: address as u8 } }),
                    _ => None,
                }
            } else {
                match spec_parse_unsigned(parts[1], 0xFFFF_FFFF) {
                    Some(index) => Some(ParsedDeviceId { kind, location: DeviceLocation::DllIndex(index as u32) }),
                    None => None,
                }
            },
        }
    }
}

/// Parse a CH34X sidecar device id.
pub fn parse_ch34x_device_id(device_id: &str) -> (r: Result<ParsedDeviceId, String>)
    ensures
        match r {
            Ok(p) => spec_parse_device_id(device_id@) == Some(p),
            Err(_) => spec_parse_device_id(device_id@) is None,
        },
{
    let chars = chars_of(device_id);
    let prefix = chars_of("ch34x:");
    if chars.len() < 6 {
        return Err(crate::text::msg_join("device_id must start with 'ch34x:': ", device_id));
    }
    let mut head: Vec<char> = Vec::new();
    let mut rest: Vec<char> = Vec::new();
    let mut i: usize = 0;
    while i < chars.len()
        invariant
            chars@ == device_id@,
            i <= chars@.len(),
            chars@.len() >= 6,
            i <= 6 ==> head@ == chars@.take(i as int) && rest@.len() == 0,
            i > 6 ==> head@ == chars@.take(6) && rest@ == chars@.subrange(6, i as int),
        decreases chars@.len() - i,
    {
        if i < 6 {
            head.push(chars[i]);
        } else {
            rest.push(chars[i]);
        }
        i = i + 1;
        assert(i <= 6 ==> head@ =~= chars@.take(i as int));
        assert(i > 6 ==> rest@ =~= chars@.subrange(6, i as int));
    }
    assert(rest@ =~= chars@.skip(6));
    if !chars_eq(head.as_slice(), prefix.as_slice()) {
        return Err(crate::text::msg_join("device_id must start with 'ch34x:': ", device_id));
    }
    let parts = split_chars(rest.as_slice(), ':');
    let ghost sp = split(device_id@.skip(6), ':');
    proof {
        lemma_split_nonempty(device_id@.skip(6), ':', 0);
    }
    let kind = if chars_eq(parts[0].as_slice(), chars_of("ch341").as_slice()) {
        ChipKind::Ch341A
    } else if chars_eq(parts[0].as_slice(), chars_of("ch347").as_slice()) {
        ChipKind::Ch347T
    } else if chars_eq(parts[0].as_slice(), chars_of("ch347f").as_slice()) {
        ChipKind::Ch347F
    } else {
        return Err("unknown CH34X kind in device_id".to_string());
    };
    if parts.len() < 2 {
        return Err("device_id must include an index or bus:address".to_string());
    }
    if parts.len() > 3 {
        return Err("device_id has too many ':'-separated parts".to_string());
    }
    if parts.len() == 3 {
        let bus = match parse_unsigned(parts[1].as_slice(), 255) {
            Some(b) => b as u8,
            None => {
                return Err("invalid USB bus in device_id".to_string());
            },
        };
        let address = match parse_unsigned(parts[2].as_slice(), 255) {
            Some(a) => a as u8,
            None => {
                return Err("invalid USB address in device_id".to_string());
            },
        };
        Ok(ParsedDeviceId { kind, location: DeviceLocation::UsbBusAddr { bus, address } })
    } else {
        match parse_unsigned(parts[1].as_slice(), 0xFFFF_FFFF) {
            Some(index) => Ok(ParsedDeviceId { kind, location: DeviceLocation::DllIndex(index as u32) }),
            None => Err("invalid DLL device index in device_id".to_string()),
        }
    }
}

/// Splitting always yields at least one part.
pub proof fn lemma_split_nonempty(s: Seq<char>, sep: char, i: int)
    requires
        0 <= i <= s.len(),
    ensures
        split_from(s, sep, i).len() >= 1,
{
    lemma_next_sep(s, sep, i);
}

/// Programmer settings that open the device a parsed id names.
pub open spec fn spec_settings_for(p: ParsedDeviceId, s: Ch34xSettings) -> bool {
    &&& s.kind == p.kind
    &&& s.spi_mode == 3 && s.freq_khz == 15_000 && s.io_level_mv == 3300
    &&& match p.location {
        DeviceLocation::DllIndex(index) => s.device_index == index && s.usb_bus is None && s.usb_address
            is None,
        DeviceLocation::UsbBusAddr { bus, address } => s.device_index == 0 && s.usb_bus == Some(bus)
            && s.usb_address == Some(address),
    }
}

/// Default settings with the kind and location of a parsed id.
pub fn settings_for(parsed: &ParsedDeviceId) -> (s: Ch34xSettings)
    ensures
        spec_settings_for(*parsed, s),
{
    let mut s = Ch34xSettings::default();
    s.kind = parsed.kind;
    match parsed.location {
        DeviceLocation::DllIndex(index) => {
            s.device_index = index;
        },
        DeviceLocation::UsbBusAddr { bus, address } => {
            s.usb_bus = Some(bus);
            s.usb_address = Some(address);
        },
    }
    s
}

} // verus!
