//! Records of `IMSProg.Dat`, the chip table used to enrich the chip
//! database: 68-byte records holding a comma-separated description text
//! (type, manufacturer, model), the JEDEC id bytes and geometry fields.
use vstd::prelude::*;
use crate::ch34x_sidecar::{split, split_chars};
use crate::chipdb::{find_byte, lemma_find_byte, lossy_string, utf8_lossy};
use crate::devcore::{hex2, push_hex2};
use crate::text::{chars_of, string_from_chars};
use crate::unicode::{trim, trim_chars};

verus! {

/// Length of one record.
pub const DAT_RECORD_LEN: usize = 68;

/// One chip of the table.
pub struct DatChip {
    /// `MMDDCC` hex of manufacturer, device and capacity bytes; empty when
    /// all three are zero.
    pub id: String,
    pub model: String,
    pub manufacturer: String,
    pub sector: u32,
    pub block: u32,
    pub algorithm: u8,
    pub addr4bit: u8,
    pub timing: u16,
    /// Supply voltage text, when the record names one.
    pub vcc: Option<String>,
}

/// The description text of a record: bytes up to the first NUL within
/// the first 0x30 bytes.
pub open spec fn dat_text(rec: Seq<u8>) -> Seq<char> {
    utf8_lossy(rec.take(find_byte(rec.take(0x30), 0u8, 0)))
}

/// Field `k` of a split text, or nothing.
pub open spec fn field(parts: Seq<Seq<char>>, k: int) -> Seq<char> {
    if k < parts.len() { parts[k] } else { Seq::empty() }
}

/// The manufacturer named by a record.
pub open spec fn dat_manufacturer(rec: Seq<u8>) -> Seq<char> {
    trim(field(split(dat_text(rec), ','), 1))
}

/// The model named by a record.
pub open spec fn dat_model(rec: Seq<u8>) -> Seq<char> {
    trim(field(split(dat_text(rec), ','), 2))
}

/// The id text of a record.
pub open spec fn dat_id(rec: Seq<u8>) -> Seq<char> {
    if rec[0x32] == 0 && rec[0x31] == 0 && rec[0x30] == 0 {
        Seq::empty()
    } else {
        hex2(rec[0x32]) + hex2(rec[0x31]) + hex2(rec[0x30])
    }
}

/// The supply voltage of a voltage code.
pub open spec fn dat_vcc(code: u8) -> Option<Seq<char>> {
    if code == 0 { Some("3.3"@) }
    else if code == 1 { Some("1.8"@) }
    else if code == 2 { Some("5.0"@) }
    else if code == 3 { Some("2.5"@) }
    else { None }
}

/// `c` is the chip described by record `rec`.
pub open spec fn dat_chip_of(c: DatChip, rec: Seq<u8>) -> bool {
    &&& c.id@ == dat_id(rec)
    &&& c.model@ == dat_model(rec)
    &&& c.manufacturer@ == dat_manufacturer(rec)
    &&& c.sector == rec[0x38] + rec[0x39] * 256
    &&& c.block == rec[0x3F] * 262144 + rec[0x40] * 1024
    &&& c.algorithm == rec[0x3B]
    &&& c.addr4bit == rec[0x3E]
    &&& c.timing == rec[0x3C] + rec[0x3D] * 256
    &&& match (c.vcc, dat_vcc(rec[0x43])) {
        (Some(v), Some(w)) => v@ == w,
        (None, None) => true,
        _ => false,
    }
}

/// The records from byte `pos` on that describe a chip: reading stops at
/// the end record (second byte zero) or when no full record is left, and
/// records without a model are skipped.
pub open spec fn dat_records(bytes: Seq<u8>, pos: int) -> Seq<Seq<u8>>
    decreases bytes.len() - pos,
{
    if pos < 0 || pos + 68 > bytes.len() {
        Seq::empty()
    } else {
        let rec = bytes.subrange(pos, pos + 68);
        if rec[1] == 0 {
            Seq::empty()
        } else if dat_model(rec).len() == 0 {
            dat_records(bytes, pos + 68)
        } else {
            seq![rec] + dat_records(bytes, pos + 68)
        }
    }
}

fn part_or_empty(parts: &Vec<Vec<char>>, k: usize) -> (r: Vec<char>)
    ensures
        r@ == (if k < parts@.len() { parts@[k as int]@ } else { Seq::<char>::empty() }),
{
    if k < parts.len() {
        parts[k].clone()
    } else {
        Vec::new()
    }
}

/// Decode one record that names a model.
fn dat_chip(rec: &[u8], manufacturer: String, model: String) -> (c: DatChip)
    requires
        rec@.len() == 68,
        manufacturer@ == dat_manufacturer(rec@),
        model@ == dat_model(rec@),
    ensures
        dat_chip_of(c, rec@),
{
    let man = rec[0x32];
    let dev = rec[0x31];
    let cap = rec[0x30];
    let mut id = String::new();
    if !(man == 0 && dev == 0 && cap == 0) {
        push_hex2(&mut id, man);
        push_hex2(&mut id, dev);
        push_hex2(&mut id, cap);
    }
    assert(id@ =~= dat_id(rec@));
    let vcc = if rec[0x43] == 0 {
        Some(String::from_str("3.3"))
    } else if rec[0x43] == 1 {
        Some(String::from_str("1.8"))
    } else if rec[0x43] == 2 {
        Some(String::from_str("5.0"))
    } else if rec[0x43] == 3 {
        Some(String::from_str("2.5"))
    } else {
        None
    };
    DatChip {
        id,
        model,
        manufacturer,
        sector: rec[0x38] as u32 + rec[0x39] as u32 * 256,
        block: rec[0x3F] as u32 * 262144 + rec[0x40] as u32 * 1024,
        algorithm: rec[0x3B],
        addr4bit: rec[0x3E],
        timing: rec[0x3C] as u16 + rec[0x3D] as u16 * 256,
        vcc,
    }
}

/// The manufacturer and model text of a record.
fn dat_names(rec: &[u8]) -> (r: (String, String))
    requires
        rec@.len() == 68,
    ensures
        r.0@ == dat_manufacturer(rec@),
        r.1@ == dat_model(rec@),
{
    let head = crate::firmware::copy_range(rec, 0, 0x30);
    proof {
        lemma_find_byte(head@, 0u8, 0);
    }
    let mut end: usize = 0;
    while end < 0x30 && head[end] != 0
        invariant
            end <= 0x30,
            head@.len() == 0x30,
            find_byte(head@, 0u8, 0) == find_byte(head@, 0u8, end as int),
        decreases 0x30 - end,
    {
        end = end + 1;
    }
    assert(head@ =~= rec@.take(0x30));
    let text_bytes = crate::firmware::copy_range(rec, 0, end);
    assert(text_bytes@ =~= rec@.take(end as int));
    let text = lossy_string(text_bytes.as_slice());
    let chars = chars_of(text.as_str());
    let parts = split_chars(chars.as_slice(), ',');
    let man = trim_chars(part_or_empty(&parts, 1).as_slice());
    let model = trim_chars(part_or_empty(&parts, 2).as_slice());
    (string_from_chars(man.as_slice()), string_from_chars(model.as_slice()))
}

/// Decode the chips of an `IMSProg.Dat` table (see [`dat_records`]).
pub fn parse_dat_records(bytes: &[u8]) -> (r: Vec<DatChip>)
    ensures
        r@.len() == dat_records(bytes@, 0).len(),
        forall|k: int| 0 <= k < r@.len() ==> #[trigger] dat_chip_of(r@[k], dat_records(bytes@, 0)[k]),
{
    let n = bytes.len();
    let mut out: Vec<DatChip> = Vec::new();
    let ghost mut acc: Seq<Seq<u8>> = Seq::empty();
    let mut pos: usize = 0;
    while n - pos >= DAT_RECORD_LEN
        invariant
            pos <= n,
            n == bytes@.len(),
            out@.len() == acc.len(),
            forall|k: int| 0 <= k < out@.len() ==> #[trigger] dat_chip_of(out@[k], acc[k]),
            dat_records(bytes@, 0) == acc + dat_records(bytes@, pos as int),
        decreases n - pos,
    {
        let rec = crate::firmware::copy_range(bytes, pos, pos + DAT_RECORD_LEN);
        if rec[1] == 0 {
            assert(dat_records(bytes@, pos as int) =~= Seq::<Seq<u8>>::empty());
            assert(acc + dat_records(bytes@, pos as int) =~= acc);
            return out;
        }
        let (man, model) = dat_names(rec.as_slice());
        if model.as_str().is_empty() {
            assert(dat_model(rec@).len() == 0);
        } else {
            let c = dat_chip(rec.as_slice(), man, model);
            out.push(c);
            proof {
                assert(dat_records(bytes@, pos as int) == seq![rec@] + dat_records(bytes@, pos + 68));
                acc = acc.push(rec@);
                assert(acc.drop_last() + seq![rec@] =~= acc);
            }
        }
        pos = pos + DAT_RECORD_LEN;
    }
    assert(dat_records(bytes@, pos as int) =~= Seq::<Seq<u8>>::empty());
    assert(acc + dat_records(bytes@, pos as int) =~= acc);
    out
}

} // verus!
