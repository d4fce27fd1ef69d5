//! The chip database (`chiplib.bin`).
//!
//! Layout: a 20-byte header (`CHIP` magic, version, chip count, data offset,
//! index entry size), a sorted index of 24-byte entries (16-byte zero-padded
//! JEDEC id, data offset, data length, protocol id) and a data section of
//! NUL-terminated `key=value` attribute records.
//!
//! The file is stored under a light byte-wise obfuscation (mask by position,
//! then rotate left) so that it cannot be read with `strings`/hexdump; this
//! gives no cryptographic strength.
use vstd::prelude::*;
use crate::text::{str_eq, parse_unsigned, spec_parse_unsigned, chars_of};
use vstd::string::StringSliceAdditionalSpecFns;
use crate::imsprog_dat::DatChip;
use crate::unicode::norm;
use crate::devcore::decimal;

verus! {

// ── obfuscation ─────────────────────────────────────────────────────────────

/// `value` rotated left by `r` bits (`r < 8`).
pub open spec fn spec_rol(value: u8, r: u16) -> u8 {
    ((((value as u16) << r) | ((value as u16) >> (8 - r) as u16)) & 0xFF) as u8
}

/// `value` rotated right by `r` bits (`r < 8`).
pub open spec fn spec_ror(value: u8, r: u16) -> u8 {
    ((((value as u16) >> r) | ((value as u16) << (8 - r) as u16)) & 0xFF) as u8
}

/// The mask byte for position `i`.
pub open spec fn spec_mask(i: usize) -> u8 {
    let a = (i & 3) as u32;
    let b = (i % 7) as u32;
    let c = ((i % 13) + 4) as u32;
    (((1u32 << a) ^ (1u32 << b) ^ (1u32 << c)) & 0xFF) as u8
}

/// Rotate `value` left by `r % 8` bits.
pub fn obf_rol(value: u8, r: usize) -> (out: u8)
    ensures
        out == spec_rol(value, (r % 8) as u16),
{
    let r = (r % 8) as u16;
    let v = value as u16;
    (((v << r) | (v >> (8 - r))) & 0xFF) as u8
}

/// Rotate `value` right by `r % 8` bits.
pub fn obf_ror(value: u8, r: usize) -> (out: u8)
    ensures
        out == spec_ror(value, (r % 8) as u16),
{
    let r = (r % 8) as u16;
    let v = value as u16;
    (((v >> r) | (v << (8 - r))) & 0xFF) as u8
}

/// The mask byte for position `i`.
pub fn obf_mask(i: usize) -> (m: u8)
    ensures
        m == spec_mask(i),
{
    let a = (i & 3) as u32;
    let b = (i % 7) as u32;
    let c = ((i % 13) + 4) as u32;
    assert(i & 3 <= 3) by (bit_vector);
    let mask = (1u32 << a) ^ (1u32 << b) ^ (1u32 << c);
    (mask & 0xFF) as u8
}

/// The obfuscated form of `data`.
pub open spec fn spec_obfuscate(data: Seq<u8>) -> Seq<u8> {
    Seq::new(data.len(), |i: int| spec_rol(data[i] ^ spec_mask(i as usize), (i % 8) as u16))
}

/// The plain form of obfuscated `data`.
pub open spec fn spec_deobfuscate(data: Seq<u8>) -> Seq<u8> {
    Seq::new(data.len(), |i: int| spec_ror(data[i], (i % 8) as u16) ^ spec_mask(i as usize))
}

/// Obfuscate `data`: byte `i` is masked, then rotated left by `i % 8`.
pub fn obfuscate(data: &[u8]) -> (r: Vec<u8>)
    ensures
        r@ == spec_obfuscate(data@),
{
    let mut out: Vec<u8> = Vec::new();
    let mut i: usize = 0;
    while i < data.len()
        invariant
            i <= data@.len(),
            out@ == spec_obfuscate(data@.take(i as int)),
        decreases data@.len() - i,
    {
        let m = obf_mask(i);
        out.push(obf_rol(data[i] ^ m, i));
        i = i + 1;
        assert(out@ =~= spec_obfuscate(data@.take(i as int)));
    }
    assert(data@.take(i as int) =~= data@);
    out
}

/// Undo [`obfuscate`]: byte `i` is rotated right by `i % 8`, then unmasked.
pub fn deobfuscate(data: &[u8]) -> (r: Vec<u8>)
    ensures
        r@ == spec_deobfuscate(data@),
{
    let mut out: Vec<u8> = Vec::new();
    let mut i: usize = 0;
    while i < data.len()
        invariant
            i <= data@.len(),
            out@ == spec_deobfuscate(data@.take(i as int)),
        decreases data@.len() - i,
    {
        let m = obf_mask(i);
        out.push(obf_ror(data[i], i) ^ m);
        i = i + 1;
        assert(out@ =~= spec_deobfuscate(data@.take(i as int)));
    }
    assert(data@.take(i as int) =~= data@);
    out
}

/// Rotating right undoes rotating left, and the other way round.
pub proof fn lemma_rotate_inverse(v: u8, r: u16)
    requires
        r < 8,
    ensures
        spec_ror(spec_rol(v, r), r) == v,
        spec_rol(spec_ror(v, r), r) == v,
{
    let s: u16 = (8 - r) as u16;
    let a = spec_rol(v, r);
    let b = spec_ror(v, r);
    assert(a == ((((v as u16) << r) | ((v as u16) >> s)) & 0xFF) as u8);
    assert(b == ((((v as u16) >> r) | ((v as u16) << s)) & 0xFF) as u8);
    assert(spec_ror(a, r) == ((((a as u16) >> r) | ((a as u16) << s)) & 0xFF) as u8);
    assert(spec_rol(b, r) == ((((b as u16) << r) | ((b as u16) >> s)) & 0xFF) as u8);
    assert(((((a as u16) >> r) | ((a as u16) << s)) & 0xFF) as u8 == v) by (bit_vector)
        requires
            r < 8,
            s + r == 8,
            a == ((((v as u16) << r) | ((v as u16) >> s)) & 0xFF) as u8,
    ;
    assert(((((b as u16) << r) | ((b as u16) >> s)) & 0xFF) as u8 == v) by (bit_vector)
        requires
            r < 8,
            s + r == 8,
            b == ((((v as u16) >> r) | ((v as u16) << s)) & 0xFF) as u8,
    ;
}

/// Obfuscation is lossless: decoding an obfuscated buffer gives it back,
/// and so does encoding a decoded one.
pub proof fn lemma_obfuscation_round_trip(data: Seq<u8>)
    ensures
        spec_deobfuscate(spec_obfuscate(data)) == data,
        spec_obfuscate(spec_deobfuscate(data)) == data,
{
    assert forall|i: int| 0 <= i < data.len() implies #[trigger] spec_deobfuscate(spec_obfuscate(data))[i]
        == data[i] by {
        let m = spec_mask(i as usize);
        let d = data[i];
        let x = d ^ m;
        lemma_rotate_inverse(x, (i % 8) as u16);
        assert(x ^ m == d) by (bit_vector)
            requires
                x == d ^ m,
        ;
    }
    assert forall|i: int| 0 <= i < data.len() implies #[trigger] spec_obfuscate(spec_deobfuscate(data))[i]
        == data[i] by {
        let m = spec_mask(i as usize);
        let y = spec_ror(data[i], (i % 8) as u16);
        lemma_rotate_inverse(data[i], (i % 8) as u16);
        assert((y ^ m) ^ m == y) by (bit_vector);
    }
    assert(spec_deobfuscate(spec_obfuscate(data)) =~= data);
    assert(spec_obfuscate(spec_deobfuscate(data)) =~= data);
}

// ── protocol ids ────────────────────────────────────────────────────────────

/// Protocol names by id; every other id is `Unknown`.
pub open spec fn spec_protocol_name(id: u16) -> Seq<char> {
    if id == 0 { "SPI_EC"@ }
    else if id == 1 { "SPI_DATA_45"@ }
    else if id == 2 { "SPI_NAND"@ }
    else if id == 3 { "SPI_NOR"@ }
    else if id == 4 { "SPI_EEPROM"@ }
    else if id == 5 { "SPI_F-RAM"@ }
    else if id == 6 { "I2C"@ }
    else if id == 7 { "I2C_F-RAM"@ }
    else if id == 8 { "I2C_SPD"@ }
    else if id == 9 { "Microwire"@ }
    else if id == 10 { "AVR"@ }
    else if id == 11 { "MCU"@ }
    else if id == 12 { "PARALLEL_NAND"@ }
    else { "Unknown"@ }
}

/// The id of a protocol name (`0xFF` when unknown).
pub open spec fn spec_protocol_id(name: Seq<char>) -> u16 {
    if name == "SPI_EC"@ { 0 }
    else if name == "SPI_DATA_45"@ { 1 }
    else if name == "SPI_NAND"@ { 2 }
    else if name == "SPI_NOR"@ { 3 }
    else if name == "SPI_EEPROM"@ { 4 }
    else if name == "SPI_F-RAM"@ { 5 }
    else if name == "I2C"@ { 6 }
    else if name == "I2C_F-RAM"@ { 7 }
    else if name == "I2C_SPD"@ { 8 }
    else if name == "Microwire"@ { 9 }
    else if name == "AVR"@ { 10 }
    else if name == "MCU"@ { 11 }
    else if name == "PARALLEL_NAND"@ { 12 }
    else { 0xFF }
}

/// Name of a protocol id.
pub fn protocol_id_to_name(id: u16) -> (r: String)
    ensures
        r@ == spec_protocol_name(id),
{
    let s = if id == 0 { "SPI_EC" }
        else if id == 1 { "SPI_DATA_45" }
        else if id == 2 { "SPI_NAND" }
        else if id == 3 { "SPI_NOR" }
        else if id == 4 { "SPI_EEPROM" }
        else if id == 5 { "SPI_F-RAM" }
        else if id == 6 { "I2C" }
        else if id == 7 { "I2C_F-RAM" }
        else if id == 8 { "I2C_SPD" }
        else if id == 9 { "Microwire" }
        else if id == 10 { "AVR" }
        else if id == 11 { "MCU" }
        else if id == 12 { "PARALLEL_NAND" }
        else { "Unknown" };
    String::from_str(s)
}

/// Id of a protocol name (`0xFF` when unknown).
pub fn protocol_name_to_id(name: &str) -> (r: u16)
    ensures
        r == spec_protocol_id(name@),
{
    if str_eq(name, "SPI_EC") { 0 }
    else if str_eq(name, "SPI_DATA_45") { 1 }
    else if str_eq(name, "SPI_NAND") { 2 }
    else if str_eq(name, "SPI_NOR") { 3 }
    else if str_eq(name, "SPI_EEPROM") { 4 }
    else if str_eq(name, "SPI_F-RAM") { 5 }
    else if str_eq(name, "I2C") { 6 }
    else if str_eq(name, "I2C_F-RAM") { 7 }
    else if str_eq(name, "I2C_SPD") { 8 }
    else if str_eq(name, "Microwire") { 9 }
    else if str_eq(name, "AVR") { 10 }
    else if str_eq(name, "MCU") { 11 }
    else if str_eq(name, "PARALLEL_NAND") { 12 }
    else { 0xFF }
}

// ── attribute records ───────────────────────────────────────────────────────

/// The text `String::from_utf8_lossy` makes of bytes that are not valid
/// UTF-8 (each invalid sequence replaced by U+FFFD).
pub uninterp spec fn utf8_repaired(bytes: Seq<u8>) -> Seq<char>;

/// The text `String::from_utf8_lossy` makes of `bytes`: valid UTF-8 is
/// decoded as it is.
pub open spec fn utf8_lossy(bytes: Seq<u8>) -> Seq<char> {
    if vstd::utf8::valid_utf8(bytes) { vstd::utf8::decode_utf8(bytes) } else { utf8_repaired(bytes) }
}

/// Whether every byte is ASCII.
pub open spec fn is_ascii_bytes(bytes: Seq<u8>) -> bool {
    forall|i: int| 0 <= i < bytes.len() ==> #[trigger] bytes[i] < 0x80
}

/// The characters of an ASCII byte string.
pub open spec fn ascii_chars(bytes: Seq<u8>) -> Seq<char> {
    Seq::new(bytes.len(), |i: int| bytes[i] as char)
}

/// `String::from_utf8_lossy(bytes).into_owned()`: the text of `bytes`,
/// decoded as it is when they are valid UTF-8 (the documentation: "no
/// replacements occur"), with invalid sequences replaced otherwise; ASCII
/// bytes map to the same characters.
#[verifier::external_body]
pub(crate) fn lossy_string(bytes: &[u8]) -> (r: String)
    ensures
        r@ == utf8_lossy(bytes@),
        !vstd::utf8::valid_utf8(bytes@) ==> r@ == utf8_repaired(bytes@),
        is_ascii_bytes(bytes@) ==> r@ == ascii_chars(bytes@),
{
    String::from_utf8_lossy(bytes).into_owned()
}

/// A key/value attribute list; a key occurs at most once.
pub type AttrPairs = Seq<(Seq<char>, Seq<char>)>;

/// Position of `key` in `pairs`, or `pairs.len()`.
pub open spec fn key_pos(pairs: AttrPairs, key: Seq<char>) -> int
    decreases pairs.len(),
{
    if pairs.len() == 0 {
        0
    } else if pairs.last().0 == key && key_pos(pairs.drop_last(), key) == pairs.len() - 1 {
        pairs.len() - 1
    } else {
        key_pos(pairs.drop_last(), key)
    }
}

/// The value of `key`, if present (the first occurrence).
pub open spec fn lookup(pairs: AttrPairs, key: Seq<char>) -> Option<Seq<char>> {
    if exists|i: int| 0 <= i < pairs.len() && pairs[i].0 == key {
        let i = choose|i: int| 0 <= i < pairs.len() && pairs[i].0 == key && forall|j: int| 0 <= j < i ==> pairs[j].0 != key;
        Some(pairs[i].1)
    } else {
        None
    }
}

/// `pairs` with `key` set to `value`: an existing key keeps its place and
/// takes the new value, a new key goes last (`HashMap::insert`).
pub open spec fn set_attr(pairs: AttrPairs, key: Seq<char>, value: Seq<char>) -> AttrPairs {
    if exists|i: int| 0 <= i < pairs.len() && pairs[i].0 == key {
        let i = choose|i: int| 0 <= i < pairs.len() && pairs[i].0 == key;
        pairs.update(i, (key, value))
    } else {
        pairs.push((key, value))
    }
}

/// No key occurs twice.
pub open spec fn keys_unique(pairs: AttrPairs) -> bool {
    forall|i: int, j: int| 0 <= i < j < pairs.len() ==> pairs[i].0 != pairs[j].0
}

/// First index at or after `i` holding byte `b` (or `data.len()`).
pub open spec fn find_byte(data: Seq<u8>, b: u8, i: int) -> int
    decreases data.len() - i,
{
    if i < 0 || i >= data.len() {
        data.len() as int
    } else if data[i] == b {
        i
    } else {
        find_byte(data, b, i + 1)
    }
}

pub proof fn lemma_find_byte(data: Seq<u8>, b: u8, i: int)
    requires
        0 <= i <= data.len(),
    ensures
        i <= find_byte(data, b, i) <= data.len(),
        find_byte(data, b, i) < data.len() ==> data[find_byte(data, b, i)] == b,
    decreases data.len() - i,
{
    if i < data.len() && data[i] != b {
        lemma_find_byte(data, b, i + 1);
    }
}

/// Decode the `key=value` records of `data` from `start` on into `acc`:
/// records are NUL-terminated, the key ends at the first `=`, and decoding
/// stops at a record without `=`.
pub open spec fn attrs_from(data: Seq<u8>, start: int, acc: AttrPairs) -> AttrPairs
    decreases data.len() + 1 - start,
{
    if start < 0 || start >= data.len() {
        acc
    } else {
        proof {
            lemma_find_byte(data, 0x3Du8, start);
        }
        let eq = find_byte(data, 0x3Du8, start);
        if eq >= data.len() {
            acc
        } else {
            proof {
                lemma_find_byte(data, 0u8, eq + 1);
            }
            let ve = find_byte(data, 0u8, eq + 1);
            attrs_from(
                data,
                ve + 1,
                set_attr(acc, utf8_lossy(data.subrange(start, eq)), utf8_lossy(data.subrange(eq + 1, ve))),
            )
        }
    }
}

/// The attributes of a data record.
pub open spec fn spec_data_attrs(data: Seq<u8>) -> AttrPairs {
    attrs_from(data, 0, Seq::empty())
}

/// The abstract value of an executable attribute list.
pub open spec fn pairs_view(v: Seq<(String, String)>) -> AttrPairs {
    Seq::new(v.len(), |i: int| (v[i].0@, v[i].1@))
}

/// Index of `key` in `v`, if present.
fn find_key(v: &Vec<(String, String)>, key: &str) -> (r: Option<usize>)
    ensures
        match r {
            Some(i) => i < v@.len() && v@[i as int].0@ == key@ && forall|j: int| 0 <= j < i ==> v@[j].0@ != key@,
            None => forall|j: int| 0 <= j < v@.len() ==> v@[j].0@ != key@,
        },
{
    let mut i: usize = 0;
    while i < v.len()
        invariant
            i <= v@.len(),
            forall|j: int| 0 <= j < i ==> v@[j].0@ != key@,
        decreases v@.len() - i,
    {
        if str_eq(v[i].0.as_str(), key) {
            return Some(i);
        }
        i = i + 1;
    }
    None
}

/// Set `key` to `value` in `v` (see [`set_attr`]).
fn insert_attr(v: &mut Vec<(String, String)>, key: String, value: String)
    requires
        keys_unique(pairs_view(old(v)@)),
    ensures
        pairs_view(final(v)@) == set_attr(pairs_view(old(v)@), key@, value@),
        keys_unique(pairs_view(final(v)@)),
{
    let ghost pv = pairs_view(v@);
    match find_key(v, key.as_str()) {
        Some(i) => {
            proof {
                let c = choose|j: int| 0 <= j < pv.len() && pv[j].0 == key@;
                assert(pv[i as int].0 == key@);
                if c != i {
                    assert(pv[c].0 == pv[i as int].0);
                }
            }
            v.set(i, (key, value));
            assert(pairs_view(v@) =~= set_attr(pv, key@, value@));
        },
        None => {
            assert(!exists|j: int| 0 <= j < pv.len() && pv[j].0 == key@) by {
                if exists|j: int| 0 <= j < pv.len() && pv[j].0 == key@ {
                    let j = choose|j: int| 0 <= j < pv.len() && pv[j].0 == key@;
                    assert(v@[j].0@ == key@);
                }
            }
            v.push((key, value));
            assert(pairs_view(v@) =~= set_attr(pv, key@, value@));
        },
    }
}

/// Decode the attribute records of `data`.
pub fn parse_data_attrs(data: &[u8]) -> (r: Vec<(String, String)>)
    ensures
        pairs_view(r@) == spec_data_attrs(data@),
        keys_unique(pairs_view(r@)),
{
    let n = data.len();
    let mut out: Vec<(String, String)> = Vec::new();
    let mut start: usize = 0;
    assert(pairs_view(out@) =~= Seq::<(Seq<char>, Seq<char>)>::empty());
    while start < n
        invariant
            n == data@.len(),
            start <= n,
            keys_unique(pairs_view(out@)),
            spec_data_attrs(data@) == attrs_from(data@, start as int, pairs_view(out@)),
        decreases n - start,
    {
        proof {
            lemma_find_byte(data@, 0x3Du8, start as int);
        }
        let mut eq = start;
        while eq < n && data[eq] != 0x3D
            invariant
                n == data@.len(),
                start <= eq <= n,
                find_byte(data@, 0x3Du8, start as int) == find_byte(data@, 0x3Du8, eq as int),
            decreases n - eq,
        {
            eq = eq + 1;
        }
        if eq == n {
            assert(attrs_from(data@, start as int, pairs_view(out@)) == pairs_view(out@));
            return out;
        }
        proof {
            lemma_find_byte(data@, 0u8, eq + 1);
        }
        let mut ve = eq + 1;
        while ve < n && data[ve] != 0
            invariant
                n == data@.len(),
                eq < ve <= n,
                find_byte(data@, 0u8, eq + 1) == find_byte(data@, 0u8, ve as int),
            decreases n - ve,
        {
            ve = ve + 1;
        }
        let key_bytes = crate::firmware::copy_range(data, start, eq);
        let val_bytes = crate::firmware::copy_range(data, eq + 1, ve);
        let key = lossy_string(key_bytes.as_slice());
        let value = lossy_string(val_bytes.as_slice());
        let ghost before = pairs_view(out@);
        insert_attr(&mut out, key, value);
        assert(key_bytes@ == data@.subrange(start as int, eq as int));
        assert(attrs_from(data@, start as int, before) == attrs_from(data@, ve + 1, pairs_view(out@)));
        if ve == n {
            return out;
        }
        start = ve + 1;
    }
    out
}

/// One chip record of the database.
pub struct ChipInfo {
    pub id: String,
    pub vendor: String,
    pub model: String,
    pub protocol: String,
    pub size: u64,
    pub page: u32,
    /// The raw attribute list of the data record (keys unique). Being
    /// self-describing `key=value` records, it keeps the format forward
    /// compatible when new fields are added.
    pub attrs: Vec<(String, String)>,
}

/// `value` parsed as an unsigned number no larger than `max`, or 0.
pub open spec fn number_or_zero(value: Option<Seq<char>>, max: int) -> int {
    match value {
        Some(v) => match spec_parse_unsigned(v, max) {
            Some(n) => n,
            None => 0,
        },
        None => 0,
    }
}

/// A numeric attribute: the value of `key` parsed as an unsigned number no
/// larger than `max` (`None` when absent or not such a number).
pub open spec fn attr_number(attrs: AttrPairs, key: Seq<char>, max: int) -> Option<int> {
    match lookup(attrs, key) {
        Some(v) => spec_parse_unsigned(v, max),
        None => None,
    }
}

/// The text of an optional value, or the empty text.
pub open spec fn text_or_empty(value: Option<Seq<char>>) -> Seq<char> {
    match value {
        Some(v) => v,
        None => Seq::empty(),
    }
}

impl ChipInfo {
    /// The value of attribute `key`.
    pub fn attr(&self, key: &str) -> (r: Option<&str>)
        requires
            keys_unique(pairs_view(self.attrs@)),
        ensures
            match r {
                Some(v) => lookup(pairs_view(self.attrs@), key@) == Some(v@),
                None => lookup(pairs_view(self.attrs@), key@) is None,
            },
    {
        let ghost pv = pairs_view(self.attrs@);
        match find_key(&self.attrs, key) {
            Some(i) => {
                proof {
                    assert(pv[i as int].0 == key@);
                    let c = choose|j: int| 0 <= j < pv.len() && pv[j].0 == key@ && forall|k: int| 0 <= k < j ==> pv[k].0 != key@;
                    if c < i { assert(pv[c].0 == key@); }
                    if c > i { assert(pv[i as int].0 == key@); }
                }
                Some(self.attrs[i].1.as_str())
            },
            None => {
                assert(!exists|j: int| 0 <= j < pv.len() && pv[j].0 == key@) by {
                    if exists|j: int| 0 <= j < pv.len() && pv[j].0 == key@ {
                        let j = choose|j: int| 0 <= j < pv.len() && pv[j].0 == key@;
                        assert(self.attrs@[j].0@ == key@);
                    }
                }
                None
            },
        }
    }

    /// Attribute `key` parsed as a `u32`.
    pub fn attr_u32(&self, key: &str) -> (r: Option<u32>)
        requires
            keys_unique(pairs_view(self.attrs@)),
        ensures
            match r {
                Some(x) => attr_number(pairs_view(self.attrs@), key@, 0xFFFF_FFFF) == Some(x as int),
                None => attr_number(pairs_view(self.attrs@), key@, 0xFFFF_FFFF) is None,
            },
    {
        match self.attr(key) {
            None => None,
            Some(v) => {
                let chars = chars_of(v);
                match parse_unsigned(chars.as_slice(), 0xFFFF_FFFF) {
                    Some(n) => Some(n as u32),
                    None => None,
                }
            },
        }
    }

    /// Attribute `key` parsed as a `u64`.
    pub fn attr_u64(&self, key: &str) -> (r: Option<u64>)
        requires
            keys_unique(pairs_view(self.attrs@)),
        ensures
            match r {
                Some(x) => attr_number(pairs_view(self.attrs@), key@, 0xFFFF_FFFF_FFFF_FFFF) == Some(x as int),
                None => attr_number(pairs_view(self.attrs@), key@, 0xFFFF_FFFF_FFFF_FFFF) is None,
            },
    {
        match self.attr(key) {
            None => None,
            Some(v) => {
                let chars = chars_of(v);
                parse_unsigned(chars.as_slice(), 0xFFFF_FFFF_FFFF_FFFF)
            },
        }
    }
}

// ── the database ───────────────────────────────────────────────────────────

/// File magic `CHIP` (little-endian).
pub const MAGIC: u32 = 0x50494843;
/// Id field width of an index entry.
pub const MAX_ID_LEN: usize = 16;
/// Size of the file header.
pub const HEADER_SIZE: usize = 20;
/// Size of one index entry.
pub const ENTRY_SIZE: usize = 24;

/// One index entry: zero-padded id, location of the data record, protocol.
#[derive(Clone, Copy)]
pub struct IndexEntry {
    pub id: [u8; 16],
    pub data_offset: u32,
    pub data_len: u16,
    pub protocol: u16,
}

/// Import statistics of a chip database enrichment.
#[derive(Clone, Copy)]
pub struct ImportStats {
    pub dat_records: usize,
    pub matched_by_id: usize,
    pub matched_by_name: usize,
    pub entries_updated: usize,
}

/// The chip database: a sorted index over a data section of attribute
/// records.
pub struct Chiplib {
    entries: Vec<IndexEntry>,
    data: Vec<u8>,
    version: u32,
}

/// The numeric key of an id (big-endian value of its 16 bytes); the index
/// is sorted by it, which is the byte-wise order of the ids.
pub open spec fn id_key(id: Seq<u8>) -> int {
    crate::firmware::be_value(id)
}

/// The zero-padded 16-byte id field for the text `id` (longer ids are cut).
pub open spec fn id_field(id: Seq<u8>) -> Seq<u8> {
    Seq::new(16, |i: int| if i < id.len() { id[i] } else { 0u8 })
}

/// The data record of entry `e`.
pub open spec fn record_of(data: Seq<u8>, e: IndexEntry) -> Seq<u8> {
    data.subrange(e.data_offset as int, e.data_offset + e.data_len)
}

impl Chiplib {
    pub closed spec fn entries_view(&self) -> Seq<IndexEntry> {
        self.entries@
    }

    pub closed spec fn data_view(&self) -> Seq<u8> {
        self.data@
    }

    pub closed spec fn version_view(&self) -> u32 {
        self.version
    }

    /// The index is sorted by id and every record lies inside the
    /// data section.
    pub open spec fn wf(&self) -> bool {
        &&& forall|i: int, j: int| 0 <= i < j < self.entries_view().len() ==> id_key(self.entries_view()[i].id@) <= id_key(self.entries_view()[j].id@)
        &&& forall|i: int| 0 <= i < self.entries_view().len() ==> #[trigger] self.entries_view()[i].data_offset + self.entries_view()[i].data_len <= self.data_view().len()
    }

    /// The attributes of entry `i`.
    #[verifier::opaque]
    pub open spec fn attrs_at(&self, i: int) -> AttrPairs {
        spec_data_attrs(record_of(self.data_view(), self.entries_view()[i]))
    }

    /// Number of chips.
    pub fn entry_count(&self) -> (n: usize)
        ensures
            n == self.entries_view().len(),
    {
        self.entries.len()
    }

    /// The attributes of entry `i`.
    fn entry_attrs(&self, i: usize) -> (r: Vec<(String, String)>)
        requires
            self.wf(),
            i < self.entries_view().len(),
        ensures
            pairs_view(r@) == self.attrs_at(i as int),
            keys_unique(pairs_view(r@)),
    {
        let e = self.entries[i];
        let dl = self.data.len();
        assert(e.data_offset + e.data_len <= dl);
        let rec = crate::firmware::copy_range(self.data.as_slice(), e.data_offset as usize, e.data_offset as usize + e.data_len as usize);
        proof {
            reveal(Chiplib::attrs_at);
        }
        parse_data_attrs(rec.as_slice())
    }

    /// Index of the entry with id field `key`, by binary search.
    fn search(&self, key: &[u8; 16]) -> (r: Result<usize, usize>)
        requires
            self.wf(),
        ensures
            match r {
                Ok(i) => i < self.entries_view().len() && id_key(self.entries_view()[i as int].id@) == id_key(key@),
                Err(i) => i <= self.entries_view().len()
                    && (forall|k: int| 0 <= k < i ==> id_key(self.entries_view()[k].id@) < id_key(key@))
                    && (forall|k: int| i <= k < self.entries_view().len() ==> id_key(key@) < id_key(self.entries_view()[k].id@)),
            },
    {
        let target = id_value(key);
        let mut lo: usize = 0;
        let mut hi: usize = self.entries.len();
        while lo < hi
            invariant
                self.wf(),
                lo <= hi <= self.entries_view().len(),
                target as int == id_key(key@),
                forall|k: int| 0 <= k < lo ==> id_key(self.entries_view()[k].id@) < target,
                forall|k: int| hi <= k < self.entries_view().len() ==> target < id_key(self.entries_view()[k].id@),
            decreases hi - lo,
        {
            let mid = lo + (hi - lo) / 2;
            let v = id_value(&self.entries[mid].id);
            if v == target {
                return Ok(mid);
            } else if v < target {
                lo = mid + 1;
            } else {
                hi = mid;
            }
        }
        Err(lo)
    }
}

/// The numeric key of a 16-byte id.
pub fn id_value(id: &[u8; 16]) -> (r: u128)
    ensures
        r as int == id_key(id@),
{
    proof {
        lemma_pow256_16();
    }
    let mut v: u128 = 0;
    let mut i: usize = 0;
    while i < 16
        invariant
            i <= 16,
            v as int == crate::firmware::be_value(id@.take(i as int)),
            v < crate::firmware::pow256(i as int),
            crate::firmware::pow256(16) == 0x1_0000_0000_0000_0000_0000_0000_0000_0000int,
            forall|k: int| 0 <= k <= 16 ==> #[trigger] crate::firmware::pow256(k) <= crate::firmware::pow256(16),
            forall|k: int| 0 <= k < 16 ==> crate::firmware::pow256(k + 1) == #[trigger] crate::firmware::pow256(k) * 256,
        decreases 16 - i,
    {
        assert(id@.take(i + 1).drop_last() =~= id@.take(i as int));
        assert(v * 256 + id@[i as int] < crate::firmware::pow256(i + 1)) by (nonlinear_arith)
            requires
                v < crate::firmware::pow256(i as int),
                id@[i as int] < 256,
                crate::firmware::pow256(i + 1) == crate::firmware::pow256(i as int) * 256,
        ;
        v = v * 256 + id[i] as u128;
        i = i + 1;
    }
    assert(id@.take(16) =~= id@);
    v
}

proof fn lemma_pow256_16()
    ensures
        crate::firmware::pow256(16) == 0x1_0000_0000_0000_0000_0000_0000_0000_0000int,
        forall|k: int| 0 <= k <= 16 ==> #[trigger] crate::firmware::pow256(k) <= crate::firmware::pow256(16),
        forall|k: int| 0 <= k < 16 ==> crate::firmware::pow256(k + 1) == #[trigger] crate::firmware::pow256(k) * 256,
{
    reveal_with_fuel(crate::firmware::pow256, 17);
    assert(crate::firmware::pow256(16) == 0x1_0000_0000_0000_0000_0000_0000_0000_0000int);
    assert forall|k: int| 0 <= k <= 16 implies #[trigger] crate::firmware::pow256(k) <= crate::firmware::pow256(16) by {
        lemma_pow256_mono(k, 16);
    }
}

proof fn lemma_pow256_mono(a: int, b: int)
    requires
        0 <= a <= b,
    ensures
        crate::firmware::pow256(a) <= crate::firmware::pow256(b),
        crate::firmware::pow256(a) >= 1,
    decreases b,
{
    if b > 0 && a < b {
        lemma_pow256_mono(a, b - 1);
    } else if a == b && a > 0 {
        lemma_pow256_mono(0, a - 1);
        lemma_pow256_mono(a - 1, a - 1);
    }
}

/// `info` is the chip record with attributes `attrs`, reported under `id`.
pub open spec fn info_matches(info: ChipInfo, attrs: AttrPairs, id: Seq<char>) -> bool {
    &&& info.id@ == id
    &&& info.vendor@ == text_or_empty(lookup(attrs, "vendor"@))
    &&& info.model@ == text_or_empty(lookup(attrs, "model"@))
    &&& info.protocol@ == text_or_empty(lookup(attrs, "protocol"@))
    &&& info.size as int == number_or_zero(lookup(attrs, "size"@), 0xFFFF_FFFF_FFFF_FFFF)
    &&& info.page as int == number_or_zero(lookup(attrs, "page"@), 0xFFFF_FFFF)
    &&& pairs_view(info.attrs@) == attrs
    &&& keys_unique(attrs)
}

/// Whether entry attributes name the chip `protocol`/`vendor`/`model`.
pub open spec fn names_model(attrs: AttrPairs, protocol: Seq<char>, vendor: Seq<char>, model: Seq<char>) -> bool {
    lookup(attrs, "protocol"@) == Some(protocol) && lookup(attrs, "vendor"@) == Some(vendor) && lookup(attrs, "model"@) == Some(model)
}

/// The value of `key` or the empty string.
fn text_attr(attrs: &Vec<(String, String)>, key: &str) -> (r: String)
    requires
        keys_unique(pairs_view(attrs@)),
    ensures
        r@ == text_or_empty(lookup(pairs_view(attrs@), key@)),
{
    let probe = ChipInfo { id: String::new(), vendor: String::new(), model: String::new(), protocol: String::new(), size: 0, page: 0, attrs: Vec::new() };
    let ghost pv = pairs_view(attrs@);
    let r = lookup_attr(attrs, key);
    match r {
        Some(v) => v,
        None => String::new(),
    }
}

/// The value of `key`, if present.
fn lookup_attr(attrs: &Vec<(String, String)>, key: &str) -> (r: Option<String>)
    requires
        keys_unique(pairs_view(attrs@)),
    ensures
        match r {
            Some(v) => lookup(pairs_view(attrs@), key@) == Some(v@),
            None => lookup(pairs_view(attrs@), key@) is None,
        },
{
    let ghost pv = pairs_view(attrs@);
    match find_key(attrs, key) {
        Some(i) => {
            proof {
                assert(pv[i as int].0 == key@);
                let c = choose|j: int| 0 <= j < pv.len() && pv[j].0 == key@ && forall|k: int| 0 <= k < j ==> pv[k].0 != key@;
                if c < i { assert(pv[c].0 == key@); }
                if c > i { assert(pv[i as int].0 == key@); }
            }
            Some(attrs[i].1.clone())
        },
        None => {
            assert(!exists|j: int| 0 <= j < pv.len() && pv[j].0 == key@) by {
                if exists|j: int| 0 <= j < pv.len() && pv[j].0 == key@ {
                    let j = choose|j: int| 0 <= j < pv.len() && pv[j].0 == key@;
                    assert(attrs@[j].0@ == key@);
                }
            }
            None
        },
    }
}

/// A numeric attribute or 0.
fn number_attr(attrs: &Vec<(String, String)>, key: &str, max: u64) -> (r: u64)
    requires
        keys_unique(pairs_view(attrs@)),
    ensures
        r as int == number_or_zero(lookup(pairs_view(attrs@), key@), max as int),
{
    match lookup_attr(attrs, key) {
        Some(v) => {
            let chars = chars_of(v.as_str());
            match parse_unsigned(chars.as_slice(), max) {
                Some(n) => n,
                None => 0,
            }
        },
        None => 0,
    }
}

/// Build the chip record for `attrs` reported under `id`.
fn make_info(attrs: Vec<(String, String)>, id: String) -> (info: ChipInfo)
    requires
        keys_unique(pairs_view(attrs@)),
    ensures
        info_matches(info, pairs_view(attrs@), id@),
{
    let vendor = text_attr(&attrs, "vendor");
    let model = text_attr(&attrs, "model");
    let protocol = text_attr(&attrs, "protocol");
    let size = number_attr(&attrs, "size", 0xFFFF_FFFF_FFFF_FFFF);
    let page = number_attr(&attrs, "page", 0xFFFF_FFFF) as u32;
    ChipInfo { id, vendor, model, protocol, size, page, attrs }
}

/// The zero-padded id field for `id`.
pub fn id_field_of(id: &str) -> (key: [u8; 16])
    ensures
        key@ == id_field(id.spec_bytes()),
{
    let src = id.as_bytes();
    let mut key = [0u8; 16];
    let n = if src.len() < 16 { src.len() } else { 16 };
    let mut i: usize = 0;
    while i < n
        invariant
            n <= 16,
            n <= src@.len(),
            n == (if src@.len() < 16 { src@.len() } else { 16 }),
            i <= n,
            forall|k: int| 0 <= k < i ==> key@[k] == src@[k],
            forall|k: int| i <= k < 16 ==> key@[k] == 0u8,
        decreases n - i,
    {
        key[i] = src[i];
        i = i + 1;
    }
    assert(key@ =~= id_field(src@));
    key
}

impl Chiplib {
    /// Look up a chip by id (the id is cut or zero-padded to 16 bytes).
    pub fn find_by_id(&self, id_str: &str) -> (r: Option<ChipInfo>)
        requires
            self.wf(),
        ensures
            match r {
                Some(info) => exists|k: int| 0 <= k < self.entries_view().len()
                    && id_key(#[trigger] self.entries_view()[k].id@) == id_key(id_field(id_str.spec_bytes()))
                    && info_matches(info, self.attrs_at(k), id_str@),
                None => forall|k: int| 0 <= k < self.entries_view().len() ==> id_key(#[trigger] self.entries_view()[k].id@) != id_key(id_field(id_str.spec_bytes())),
            },
    {
        let key = id_field_of(id_str);
        match self.search(&key) {
            Ok(i) => {
                let attrs = self.entry_attrs(i);
                let info = make_info(attrs, String::from_str(id_str));
                assert(id_key(self.entries_view()[i as int].id@) == id_key(id_field(id_str.spec_bytes())));
                Some(info)
            },
            Err(_) => None,
        }
    }

    /// Look up a chip by its database coordinates (for chips without a
    /// JEDEC id): the first entry whose protocol, vendor and model match.
    #[verifier::rlimit(40)]
    pub fn find_by_model(&self, protocol: &str, vendor: &str, model: &str) -> (r: Option<ChipInfo>)
        requires
            self.wf(),
        ensures
            match r {
                Some(info) => exists|k: int| 0 <= k < self.entries_view().len()
                    && names_model(#[trigger] self.attrs_at(k), protocol@, vendor@, model@)
                    && (forall|j: int| 0 <= j < k ==> !names_model(self.attrs_at(j), protocol@, vendor@, model@))
                    && info.id@ == text_or_empty(lookup(self.attrs_at(k), "id"@))
                    && info.vendor@ == vendor@ && info.model@ == model@ && info.protocol@ == protocol@
                    && info.size as int == number_or_zero(lookup(self.attrs_at(k), "size"@), 0xFFFF_FFFF_FFFF_FFFF)
                    && info.page as int == number_or_zero(lookup(self.attrs_at(k), "page"@), 0xFFFF_FFFF)
                    && pairs_view(info.attrs@) == self.attrs_at(k),
                None => forall|k: int| 0 <= k < self.entries_view().len() ==> !names_model(#[trigger] self.attrs_at(k), protocol@, vendor@, model@),
            },
    {
        let mut i: usize = 0;
        while i < self.entries.len()
            invariant
                self.wf(),
                i <= self.entries_view().len(),
                forall|j: int| 0 <= j < i ==> !names_model(#[trigger] self.attrs_at(j), protocol@, vendor@, model@),
            decreases self.entries_view().len() - i,
        {
            let attrs = self.entry_attrs(i);
            let p = lookup_attr(&attrs, "protocol");
            let v = lookup_attr(&attrs, "vendor");
            let m = lookup_attr(&attrs, "model");
            let pm = match &p {
                Some(x) => str_eq(x.as_str(), protocol),
                None => false,
            };
            let vm = match &v {
                Some(x) => str_eq(x.as_str(), vendor),
                None => false,
            };
            let mm = match &m {
                Some(x) => str_eq(x.as_str(), model),
                None => false,
            };
            let matches = pm && vm && mm;
            if matches {
                let id = text_attr(&attrs, "id");
                let size = number_attr(&attrs, "size", 0xFFFF_FFFF_FFFF_FFFF);
                let page = number_attr(&attrs, "page", 0xFFFF_FFFF) as u32;
                let info = ChipInfo {
                    id,
                    vendor: String::from_str(vendor),
                    model: String::from_str(model),
                    protocol: String::from_str(protocol),
                    size,
                    page,
                    attrs,
                };
                assert(names_model(self.attrs_at(i as int), protocol@, vendor@, model@));
                return Some(info);
            }
            i = i + 1;
        }
        None
    }
}

// ── writing records ─────────────────────────────────────────────────────────

/// `set_attr` on a list with unique keys changes only the value of `key`.
pub proof fn lemma_set_attr_lookup(pairs: AttrPairs, key: Seq<char>, value: Seq<char>, q: Seq<char>)
    requires
        keys_unique(pairs),
    ensures
        keys_unique(set_attr(pairs, key, value)),
        lookup(set_attr(pairs, key, value), q) == (if q == key { Some(value) } else { lookup(pairs, q) }),
{
    let s = set_attr(pairs, key, value);
    if exists|i: int| 0 <= i < pairs.len() && pairs[i].0 == key {
        let i = choose|i: int| 0 <= i < pairs.len() && pairs[i].0 == key;
        assert(s == pairs.update(i, (key, value)));
    } else {
        assert(s == pairs.push((key, value)));
    }
    assert(keys_unique(s));
    lemma_lookup_unique(s, q);
    lemma_lookup_unique(pairs, q);
    if q == key {
        if exists|i: int| 0 <= i < pairs.len() && pairs[i].0 == key {
            let i = choose|i: int| 0 <= i < pairs.len() && pairs[i].0 == key;
            assert(s[i].0 == q);
        } else {
            assert(s[pairs.len() as int].0 == q);
        }
    } else {
        if exists|j: int| 0 <= j < pairs.len() && pairs[j].0 == q {
            let j = choose|j: int| 0 <= j < pairs.len() && pairs[j].0 == q;
            assert(s[j] == pairs[j]);
        }
        if exists|j: int| 0 <= j < s.len() && s[j].0 == q {
            let j = choose|j: int| 0 <= j < s.len() && s[j].0 == q;
            assert(j < pairs.len() && pairs[j] == s[j]);
        }
    }
}

/// With unique keys, a key's value is the value at its (only) position.
pub proof fn lemma_lookup_unique(pairs: AttrPairs, q: Seq<char>)
    requires
        keys_unique(pairs),
    ensures
        forall|j: int| 0 <= j < pairs.len() && pairs[j].0 == q ==> lookup(pairs, q) == Some(pairs[j].1),
        (forall|j: int| 0 <= j < pairs.len() ==> pairs[j].0 != q) ==> lookup(pairs, q) is None,
{
    assert forall|j: int| 0 <= j < pairs.len() && pairs[j].0 == q implies lookup(pairs, q) == Some(pairs[j].1) by {
        let c = choose|i: int| 0 <= i < pairs.len() && pairs[i].0 == q && forall|k: int| 0 <= k < i ==> pairs[k].0 != q;
        assert(pairs[j].0 == q);
        if c != j {
            assert(pairs[c].0 == pairs[j].0);
        }
    }
}

/// The first value of `key` (see [`lookup`]).
fn first_value(attrs: &Vec<(String, String)>, key: &str) -> (r: Option<String>)
    ensures
        match r {
            Some(v) => lookup(pairs_view(attrs@), key@) == Some(v@),
            None => lookup(pairs_view(attrs@), key@) is None,
        },
{
    let ghost pv = pairs_view(attrs@);
    match find_key(attrs, key) {
        Some(i) => {
            proof {
                assert(pv[i as int].0 == key@);
                let c = choose|j: int| 0 <= j < pv.len() && pv[j].0 == key@ && forall|k: int| 0 <= k < j ==> pv[k].0 != key@;
                if c < i { assert(pv[c].0 == key@); }
                if c > i { assert(pv[i as int].0 == key@); }
            }
            Some(attrs[i].1.clone())
        },
        None => {
            assert(!exists|j: int| 0 <= j < pv.len() && pv[j].0 == key@) by {
                if exists|j: int| 0 <= j < pv.len() && pv[j].0 == key@ {
                    let j = choose|j: int| 0 <= j < pv.len() && pv[j].0 == key@;
                    assert(attrs@[j].0@ == key@);
                }
            }
            None
        },
    }
}

/// `vendor`, `model` and `protocol` lead a record.
pub open spec fn is_head_key(k: Seq<char>) -> bool {
    k == "vendor"@ || k == "model"@ || k == "protocol"@
}

/// `(key, value)` of `key` when present.
pub open spec fn head_pair(attrs: AttrPairs, key: Seq<char>) -> AttrPairs {
    match lookup(attrs, key) {
        Some(v) => seq![(key, v)],
        None => Seq::empty(),
    }
}

/// The leading pairs: vendor, model, protocol, those present.
pub open spec fn head_pairs(attrs: AttrPairs) -> AttrPairs {
    head_pair(attrs, "vendor"@) + head_pair(attrs, "model"@) + head_pair(attrs, "protocol"@)
}

/// The other pairs, in their order.
pub open spec fn tail_pairs(attrs: AttrPairs) -> AttrPairs
    decreases attrs.len(),
{
    if attrs.len() == 0 {
        Seq::empty()
    } else if is_head_key(attrs.last().0) {
        tail_pairs(attrs.drop_last())
    } else {
        tail_pairs(attrs.drop_last()).push(attrs.last())
    }
}

/// The bytes of one record: `key=value` in UTF-8 and a terminating NUL.
pub open spec fn record_bytes(p: (Seq<char>, Seq<char>)) -> Seq<u8> {
    vstd::utf8::encode_utf8(p.0) + seq![0x3Du8] + vstd::utf8::encode_utf8(p.1) + seq![0u8]
}

/// The records of `pairs`, in order.
pub open spec fn records_bytes(pairs: AttrPairs) -> Seq<u8>
    decreases pairs.len(),
{
    if pairs.len() == 0 {
        Seq::empty()
    } else {
        records_bytes(pairs.drop_last()) + record_bytes(pairs.last())
    }
}

/// A data record written from `pairs` (records joined by NUL plus a final
/// NUL; a lone NUL when there is nothing to write).
pub open spec fn blob_bytes(pairs: AttrPairs) -> Seq<u8> {
    if pairs.len() == 0 { seq![0u8] } else { records_bytes(pairs) }
}

/// `blob` is the canonical record of `attrs`: vendor, model and protocol
/// first, then the other pairs sorted by key.
#[verifier::opaque]
pub open spec fn canonical_record(attrs: AttrPairs, blob: Seq<u8>) -> bool {
    exists|rest: AttrPairs|
        crate::order::sorted_by_key(rest) && rest.to_multiset() == tail_pairs(attrs).to_multiset()
            && blob == blob_bytes(head_pairs(attrs) + rest)
}

fn push_head(parts: &mut Vec<(String, String)>, attrs: &Vec<(String, String)>, key: &str)
    ensures
        pairs_view(final(parts)@) == pairs_view(old(parts)@) + head_pair(pairs_view(attrs@), key@),
{
    let ghost before = pairs_view(parts@);
    match first_value(attrs, key) {
        Some(v) => {
            parts.push((String::from_str(key), v));
            assert(pairs_view(parts@) =~= before + head_pair(pairs_view(attrs@), key@));
        },
        None => {
            assert(pairs_view(parts@) =~= before + head_pair(pairs_view(attrs@), key@));
        },
    }
}

fn head_part(attrs: &Vec<(String, String)>) -> (r: Vec<(String, String)>)
    ensures
        pairs_view(r@) == head_pairs(pairs_view(attrs@)),
{
    let mut parts: Vec<(String, String)> = Vec::new();
    assert(pairs_view(parts@) =~= Seq::<(Seq<char>, Seq<char>)>::empty());
    push_head(&mut parts, attrs, "vendor");
    push_head(&mut parts, attrs, "model");
    push_head(&mut parts, attrs, "protocol");
    assert(pairs_view(parts@) =~= head_pairs(pairs_view(attrs@)));
    parts
}

fn tail_part(attrs: &Vec<(String, String)>) -> (r: Vec<(String, String)>)
    ensures
        pairs_view(r@) == tail_pairs(pairs_view(attrs@)),
{
    let ghost pv = pairs_view(attrs@);
    let mut rest: Vec<(String, String)> = Vec::new();
    let mut i: usize = 0;
    assert(pairs_view(rest@) =~= tail_pairs(pv.take(0)));
    while i < attrs.len()
        invariant
            i <= attrs@.len(),
            pv == pairs_view(attrs@),
            pairs_view(rest@) == tail_pairs(pv.take(i as int)),
        decreases attrs@.len() - i,
    {
        let k = &attrs[i].0;
        assert(pv.take(i + 1).drop_last() =~= pv.take(i as int));
        let head = str_eq(k.as_str(), "vendor") || str_eq(k.as_str(), "model") || str_eq(k.as_str(), "protocol");
        if !head {
            let ghost before = pairs_view(rest@);
            rest.push((attrs[i].0.clone(), attrs[i].1.clone()));
            assert(pairs_view(rest@) =~= before.push(pv[i as int]));
        }
        i = i + 1;
    }
    assert(pv.take(attrs@.len() as int) =~= pv);
    rest
}

pub(crate) fn push_records(out: &mut Vec<u8>, pairs: &Vec<(String, String)>)
    ensures
        final(out)@ == old(out)@ + records_bytes(pairs_view(pairs@)),
{
    let ghost pv = pairs_view(pairs@);
    let ghost o = out@;
    let mut j: usize = 0;
    assert(records_bytes(pv.take(0)) =~= Seq::<u8>::empty());
    assert(o + records_bytes(pv.take(0)) =~= o);
    while j < pairs.len()
        invariant
            j <= pairs@.len(),
            pv == pairs_view(pairs@),
            out@ == o + records_bytes(pv.take(j as int)),
        decreases pairs@.len() - j,
    {
        crate::order::push_utf8(out, pairs[j].0.as_str());
        out.push(0x3D);
        crate::order::push_utf8(out, pairs[j].1.as_str());
        out.push(0);
        assert(pv.take(j + 1).drop_last() =~= pv.take(j as int));
        assert(out@ =~= o + records_bytes(pv.take(j as int)) + record_bytes(pv[j as int]));
        j = j + 1;
    }
    assert(pv.take(pairs@.len() as int) =~= pv);
}

proof fn lemma_records_concat(a: AttrPairs, b: AttrPairs)
    ensures
        records_bytes(a + b) == records_bytes(a) + records_bytes(b),
    decreases b.len(),
{
    if b.len() == 0 {
        assert(a + b =~= a);
    } else {
        lemma_records_concat(a, b.drop_last());
        assert((a + b).drop_last() =~= a + b.drop_last());
    }
}

/// A text that can be a record key: no `=` and no NUL.
pub open spec fn key_text_ok(k: Seq<char>) -> bool {
    forall|i: int| 0 <= i < k.len() ==> #[trigger] k[i] != '=' && k[i] != '\0'
}

/// A text that can be a record value: no NUL.
pub open spec fn value_text_ok(v: Seq<char>) -> bool {
    forall|i: int| 0 <= i < v.len() ==> #[trigger] v[i] != '\0'
}

/// Pairs that records can carry: distinct keys, each key and value
/// writable.
pub open spec fn pairs_writable(pairs: AttrPairs) -> bool {
    &&& keys_unique(pairs)
    &&& forall|i: int| 0 <= i < pairs.len() ==> key_text_ok(#[trigger] pairs[i].0) && value_text_ok(pairs[i].1)
}

/// The UTF-8 encoding of a text without the ASCII character `b` holds no
/// byte `b` (bytes of multi-byte sequences are all 0x80 or above).
proof fn lemma_encode_avoids(s: Seq<char>, b: u8)
    requires
        b < 0x80,
        forall|i: int| 0 <= i < s.len() ==> (#[trigger] s[i]) as u32 != b as u32,
    ensures
        forall|j: int| 0 <= j < vstd::utf8::encode_utf8(s).len() ==> #[trigger] vstd::utf8::encode_utf8(s)[j] != b,
    decreases s.len(),
{
    if s.len() > 0 {
        let c = s[0] as u32;
        lemma_encode_avoids(s.drop_first(), b);
        assert forall|i: int| 0 <= i < s.drop_first().len() implies (#[trigger] s.drop_first()[i]) as u32 != b as u32 by {
            assert(s.drop_first()[i] == s[i + 1]);
        }
        let head = vstd::utf8::encode_scalar(c);
        assert(c != b as u32);
        assert forall|j: int| 0 <= j < head.len() implies #[trigger] head[j] != b by {
            if vstd::utf8::has_width_1_encoding(c) {
                assert((c & 0x7F) as u8 != b) by (bit_vector)
                    requires c <= 0x7F, c != b as u32;
            } else {
                assert(0xC0u8 | ((c >> 6u32) & 0x1F) as u8 >= 0x80) by (bit_vector);
                assert(0xE0u8 | ((c >> 12u32) & 0x0F) as u8 >= 0x80) by (bit_vector);
                assert(0xF0u8 | ((c >> 18u32) & 0x7) as u8 >= 0x80) by (bit_vector);
                assert(0x80u8 | (c & 0x3F) as u8 >= 0x80) by (bit_vector);
                assert(0x80u8 | ((c >> 6u32) & 0x3F) as u8 >= 0x80) by (bit_vector);
                assert(0x80u8 | ((c >> 12u32) & 0x3F) as u8 >= 0x80) by (bit_vector);
            }
        }
        let e = vstd::utf8::encode_utf8(s);
        assert(e == head + vstd::utf8::encode_utf8(s.drop_first()));
        assert forall|j: int| 0 <= j < e.len() implies #[trigger] e[j] != b by {
            if j < head.len() {
                assert(e[j] == head[j]);
            } else {
                assert(e[j] == vstd::utf8::encode_utf8(s.drop_first())[j - head.len()]);
            }
        }
    }
}

/// `find_byte` stops at the first `b` after a run without it.
proof fn lemma_find_byte_at(data: Seq<u8>, b: u8, i: int, j: int)
    requires
        0 <= i <= j < data.len(),
        data[j] == b,
        forall|t: int| i <= t < j ==> #[trigger] data[t] != b,
    ensures
        find_byte(data, b, i) == j,
    decreases j - i,
{
    if i < j {
        lemma_find_byte_at(data, b, i + 1, j);
    }
}

/// `find_byte` finds nothing in a run without `b` that reaches the end.
proof fn lemma_find_byte_none(data: Seq<u8>, b: u8, i: int)
    requires
        0 <= i <= data.len(),
        forall|t: int| i <= t < data.len() ==> #[trigger] data[t] != b,
    ensures
        find_byte(data, b, i) == data.len(),
    decreases data.len() - i,
{
    if i < data.len() {
        lemma_find_byte_none(data, b, i + 1);
    }
}

/// Reading the records that follow `prefix` appends their pairs, in order,
/// to what was read so far.
proof fn lemma_read_records(prefix: Seq<u8>, pairs: AttrPairs, acc: AttrPairs)
    requires
        pairs_writable(pairs),
        forall|i: int, j: int| 0 <= i < acc.len() && 0 <= j < pairs.len() ==> acc[i].0 != pairs[j].0,
    ensures
        attrs_from(prefix + records_bytes(pairs), prefix.len() as int, acc) == acc + pairs,
    decreases pairs.len(),
{
    broadcast use vstd::utf8::encode_utf8_decode_utf8, vstd::utf8::encode_utf8_valid_utf8;
    let data = prefix + records_bytes(pairs);
    if pairs.len() == 0 {
        assert(data =~= prefix);
        assert(acc + pairs =~= acc);
    } else {
        let p = pairs[0];
        let rest = pairs.drop_first();
        assert(pairs =~= seq![p] + rest);
        lemma_records_concat(seq![p], rest);
        assert(records_bytes(seq![p]) =~= record_bytes(p)) by {
            assert(seq![p].drop_last() =~= Seq::<(Seq<char>, Seq<char>)>::empty());
            assert(seq![p].last() == p);
            assert(records_bytes(Seq::<(Seq<char>, Seq<char>)>::empty()) =~= Seq::<u8>::empty());
            assert(records_bytes(seq![p]) == records_bytes(seq![p].drop_last()) + record_bytes(seq![p].last()));
        }
        let ek = vstd::utf8::encode_utf8(p.0);
        let ev = vstd::utf8::encode_utf8(p.1);
        assert(key_text_ok(p.0) && value_text_ok(p.1));
        assert forall|i: int| 0 <= i < p.0.len() implies (#[trigger] p.0[i]) as u32 != 0x3Du8 as u32
            && (p.0[i] as u32) != 0u8 as u32 by {
            vstd::utf8::char_u32_cast(p.0[i], p.0[i] as u32);
            assert(p.0[i] != '=' && p.0[i] != '\0');
        }
        assert forall|i: int| 0 <= i < p.1.len() implies (#[trigger] p.1[i]) as u32 != 0u8 as u32 by {
            vstd::utf8::char_u32_cast(p.1[i], p.1[i] as u32);
            assert(p.1[i] != '\0');
        }
        lemma_encode_avoids(p.0, 0x3Du8);
        lemma_encode_avoids(p.1, 0u8);
        let start = prefix.len() as int;
        let eq = start + ek.len();
        let ve = eq + 1 + ev.len();
        assert(data =~= prefix + ek + seq![0x3Du8] + ev + seq![0u8] + records_bytes(rest));
        assert forall|t: int| start <= t < eq implies #[trigger] data[t] != 0x3Du8 by {
            assert(data[t] == ek[t - start]);
        }
        assert(data[eq] == 0x3Du8);
        lemma_find_byte_at(data, 0x3Du8, start, eq);
        assert forall|t: int| eq + 1 <= t < ve implies #[trigger] data[t] != 0u8 by {
            assert(data[t] == ev[t - eq - 1]);
        }
        assert(data[ve] == 0u8);
        lemma_find_byte_at(data, 0u8, eq + 1, ve);
        assert(data.subrange(start, eq) =~= ek);
        assert(data.subrange(eq + 1, ve) =~= ev);
        assert(utf8_lossy(ek) == p.0);
        assert(utf8_lossy(ev) == p.1);
        assert(!(exists|i: int| 0 <= i < acc.len() && acc[i].0 == p.0));
        assert(set_attr(acc, p.0, p.1) == acc.push(p));
        let prefix2 = prefix + record_bytes(p);
        assert(data =~= prefix2 + records_bytes(rest));
        assert(prefix2.len() == ve + 1);
        assert(pairs_writable(rest)) by {
            assert forall|i: int, j: int| 0 <= i < j < rest.len() implies rest[i].0 != rest[j].0 by {
                assert(rest[i] == pairs[i + 1] && rest[j] == pairs[j + 1]);
            }
            assert forall|i: int| 0 <= i < rest.len() implies key_text_ok(#[trigger] rest[i].0) && value_text_ok(rest[i].1) by {
                assert(rest[i] == pairs[i + 1]);
            }
        }
        let acc2 = acc.push(p);
        assert forall|i: int, j: int| 0 <= i < acc2.len() && 0 <= j < rest.len() implies acc2[i].0 != rest[j].0 by {
            assert(rest[j] == pairs[j + 1]);
            if i < acc.len() {
                assert(acc2[i] == acc[i]);
            } else {
                assert(acc2[i] == pairs[0]);
            }
        }
        lemma_read_records(prefix2, rest, acc2);
        assert(acc2 + rest =~= acc + pairs);
    }
}

/// What a lookup reads back of a record: the record written from pairs with
/// distinct keys (no `=` or NUL in a key, no NUL in a value) reads back as
/// exactly those pairs.
pub proof fn lemma_record_round_trip(pairs: AttrPairs)
    requires
        pairs_writable(pairs),
    ensures
        spec_data_attrs(blob_bytes(pairs)) == pairs,
{
    if pairs.len() == 0 {
        let d = seq![0u8];
        lemma_find_byte_none(d, 0x3Du8, 0);
        assert(spec_data_attrs(d) =~= pairs);
    } else {
        lemma_read_records(Seq::empty(), pairs, Seq::empty());
        assert(Seq::<u8>::empty() + records_bytes(pairs) =~= records_bytes(pairs));
        assert(Seq::<(Seq<char>, Seq<char>)>::empty() + pairs =~= pairs);
    }
}

/// The pairs of `tail_pairs(attrs)` are the pairs of `attrs` whose keys are
/// not vendor, model or protocol; their keys are unique when those of
/// `attrs` are.
proof fn lemma_tail_pairs(attrs: AttrPairs)
    ensures
        forall|i: int| 0 <= i < tail_pairs(attrs).len() ==> attrs.contains(#[trigger] tail_pairs(attrs)[i])
            && !is_head_key(tail_pairs(attrs)[i].0),
        forall|x: (Seq<char>, Seq<char>)| attrs.contains(x) && !is_head_key(x.0) ==> #[trigger] tail_pairs(attrs).contains(x),
        keys_unique(attrs) ==> keys_unique(tail_pairs(attrs)),
    decreases attrs.len(),
{
    if attrs.len() > 0 {
        let d = attrs.drop_last();
        let x = attrs.last();
        lemma_tail_pairs(d);
        let td = tail_pairs(d);
        let t = tail_pairs(attrs);
        assert forall|i: int| 0 <= i < d.len() implies #[trigger] d[i] == attrs[i] by {}
        assert forall|i: int| 0 <= i < t.len() implies attrs.contains(#[trigger] t[i]) && !is_head_key(t[i].0) by {
            if i < td.len() {
                assert(t[i] == td[i]);
                let k = choose|k: int| 0 <= k < d.len() && d[k] == td[i];
                assert(attrs[k] == td[i]);
            } else {
                assert(t[i] == x);
                assert(attrs[attrs.len() - 1] == x);
            }
        }
        assert forall|y: (Seq<char>, Seq<char>)| attrs.contains(y) && !is_head_key(y.0) implies #[trigger] t.contains(y) by {
            let k = choose|k: int| 0 <= k < attrs.len() && attrs[k] == y;
            if k < d.len() {
                assert(d[k] == y);
                assert(td.contains(y));
                let m = choose|m: int| 0 <= m < td.len() && td[m] == y;
                assert(t[m] == y);
            } else {
                assert(y == x);
                assert(t[t.len() - 1] == x);
            }
        }
        if keys_unique(attrs) {
            assert(keys_unique(d));
            assert forall|i: int, j: int| 0 <= i < j < t.len() implies t[i].0 != t[j].0 by {
                if j < td.len() {
                    assert(t[i] == td[i] && t[j] == td[j]);
                } else {
                    assert(t[j] == x && t[i] == td[i]);
                    let k = choose|k: int| 0 <= k < d.len() && d[k] == td[i];
                    assert(attrs[k].0 != attrs[attrs.len() - 1].0);
                }
            }
        }
    }
}

/// The pair a lookup finds is a pair of the list.
proof fn lemma_lookup_member(pairs: AttrPairs, key: Seq<char>)
    requires
        keys_unique(pairs),
    ensures
        lookup(pairs, key) matches Some(v) ==> pairs.contains((key, v)),
        lookup(pairs, key) is None ==> forall|i: int| 0 <= i < pairs.len() ==> pairs[i].0 != key,
{
    lemma_lookup_unique(pairs, key);
    if exists|i: int| 0 <= i < pairs.len() && pairs[i].0 == key {
        let i = choose|i: int| 0 <= i < pairs.len() && pairs[i].0 == key;
        assert(lookup(pairs, key) == Some(pairs[i].1));
        assert(pairs[i] == (key, pairs[i].1));
    }
}

/// What a lookup reads back of a canonically written record: every key
/// has the value it had in the attributes written (keys distinct, no `=`
/// or NUL in a key, no NUL in a value).
pub proof fn lemma_canonical_reads_back(attrs: AttrPairs, blob: Seq<u8>, key: Seq<char>)
    requires
        canonical_record(attrs, blob),
        pairs_writable(attrs),
    ensures
        lookup(spec_data_attrs(blob), key) == lookup(attrs, key),
{
    broadcast use vstd::seq_lib::group_to_multiset_ensures;
    reveal(canonical_record);
    let rest = choose|rest: AttrPairs|
        crate::order::sorted_by_key(rest) && rest.to_multiset() == tail_pairs(attrs).to_multiset()
            && blob == blob_bytes(head_pairs(attrs) + rest);
    let t = tail_pairs(attrs);
    lemma_tail_pairs(attrs);
    assert forall|i: int| 0 <= i < rest.len() implies #[trigger] t.contains(rest[i]) by {
        assert(rest.contains(rest[i]));
        assert(rest.to_multiset().count(rest[i]) > 0);
    }
    assert(t.no_duplicates()) by {
        assert forall|i: int, j: int| 0 <= i < t.len() && 0 <= j < t.len() && i != j implies t[i] != t[j] by {
            if i < j {
                assert(t[i].0 != t[j].0);
            } else {
                assert(t[j].0 != t[i].0);
            }
        }
    }
    t.lemma_multiset_has_no_duplicates();
    assert forall|x: (Seq<char>, Seq<char>)| rest.to_multiset().contains(x) implies rest.to_multiset().count(x) == 1 by {
        assert(t.to_multiset().contains(x));
    }
    rest.lemma_multiset_has_no_duplicates_conv();
    assert(keys_unique(rest)) by {
        assert forall|i: int, j: int| 0 <= i < j < rest.len() implies rest[i].0 != rest[j].0 by {
            if rest[i].0 == rest[j].0 {
                assert(t.contains(rest[i]) && t.contains(rest[j]));
                let a = choose|a: int| 0 <= a < t.len() && t[a] == rest[i];
                let b = choose|b: int| 0 <= b < t.len() && t[b] == rest[j];
                if a != b {
                    if a < b {
                        assert(t[a].0 != t[b].0);
                    } else {
                        assert(t[b].0 != t[a].0);
                    }
                }
                assert(rest[i] == rest[j]);
            }
        }
    }
    let hv = head_pair(attrs, "vendor"@);
    let hm = head_pair(attrs, "model"@);
    let hp = head_pair(attrs, "protocol"@);
    let h = head_pairs(attrs);
    assert(h == hv + hm + hp);
    lemma_lookup_member(attrs, "vendor"@);
    lemma_lookup_member(attrs, "model"@);
    lemma_lookup_member(attrs, "protocol"@);
    assert forall|i: int| 0 <= i < h.len() implies #[trigger] attrs.contains(h[i]) && is_head_key(h[i].0) by {
        if i < hv.len() {
            assert(h[i] == hv[i]);
        } else if i < hv.len() + hm.len() {
            assert(h[i] == hm[i - hv.len()]);
        } else {
            assert(h[i] == hp[i - hv.len() - hm.len()]);
        }
    }
    assert(keys_unique(h)) by {
        assert("vendor"@ != "model"@ && "vendor"@ != "protocol"@ && "model"@ != "protocol"@) by {
            reveal_strlit("vendor");
            reveal_strlit("model");
            reveal_strlit("protocol");
            assert("vendor"@.len() == 6 && "model"@.len() == 5 && "protocol"@.len() == 8);
        }
        assert forall|i: int, j: int| 0 <= i < j < h.len() implies h[i].0 != h[j].0 by {
            if i < hv.len() {
                assert(h[i] == hv[i]);
                if j < hv.len() + hm.len() {
                    assert(h[j] == hm[j - hv.len()]);
                } else {
                    assert(h[j] == hp[j - hv.len() - hm.len()]);
                }
            } else if i < hv.len() + hm.len() {
                assert(h[i] == hm[i - hv.len()]);
                assert(h[j] == hp[j - hv.len() - hm.len()]);
            }
        }
    }
    let all = h + rest;
    assert forall|i: int| 0 <= i < all.len() implies #[trigger] attrs.contains(all[i]) by {
        if i < h.len() {
            assert(all[i] == h[i]);
        } else {
            assert(all[i] == rest[i - h.len()]);
            assert(t.contains(rest[i - h.len()]));
            let k = choose|k: int| 0 <= k < t.len() && t[k] == rest[i - h.len()];
            assert(attrs.contains(t[k]));
        }
    }
    assert(pairs_writable(all)) by {
        assert forall|i: int, j: int| 0 <= i < j < all.len() implies all[i].0 != all[j].0 by {
            if j < h.len() {
                assert(all[i] == h[i] && all[j] == h[j]);
            } else if i >= h.len() {
                assert(all[i] == rest[i - h.len()] && all[j] == rest[j - h.len()]);
            } else {
                assert(all[i] == h[i] && all[j] == rest[j - h.len()]);
                assert(t.contains(rest[j - h.len()]));
                let k = choose|k: int| 0 <= k < t.len() && t[k] == rest[j - h.len()];
                assert(!is_head_key(t[k].0));
                assert(attrs.contains(h[i]) && is_head_key(h[i].0));
            }
        }
        assert forall|i: int| 0 <= i < all.len() implies key_text_ok(#[trigger] all[i].0) && value_text_ok(all[i].1) by {
            assert(attrs.contains(all[i]));
            let k = choose|k: int| 0 <= k < attrs.len() && attrs[k] == all[i];
        }
    }
    lemma_record_round_trip(all);
    lemma_lookup_unique(all, key);
    lemma_lookup_unique(attrs, key);
    lemma_lookup_member(attrs, key);
    if is_head_key(key) {
        match lookup(attrs, key) {
            Some(v) => {
                let j = if key == "vendor"@ { 0int } else if key == "model"@ { hv.len() as int } else { (hv.len() + hm.len()) as int };
                assert(all[j] == (key, v));
            },
            None => {
                assert forall|i: int| 0 <= i < all.len() implies all[i].0 != key by {
                    assert(attrs.contains(all[i]));
                    let k = choose|k: int| 0 <= k < attrs.len() && attrs[k] == all[i];
                }
            },
        }
    } else {
        match lookup(attrs, key) {
            Some(v) => {
                assert(t.contains((key, v)));
                assert(t.to_multiset().count((key, v)) > 0);
                assert(rest.contains((key, v)));
                let j = choose|j: int| 0 <= j < rest.len() && rest[j] == (key, v);
                assert(all[h.len() + j] == (key, v));
            },
            None => {
                assert forall|i: int| 0 <= i < all.len() implies all[i].0 != key by {
                    assert(attrs.contains(all[i]));
                    let k = choose|k: int| 0 <= k < attrs.len() && attrs[k] == all[i];
                }
            },
        }
    }
}

proof fn lemma_canonical_witness(attrs: AttrPairs, rest: AttrPairs, blob: Seq<u8>)
    requires
        crate::order::sorted_by_key(rest),
        rest.to_multiset() == tail_pairs(attrs).to_multiset(),
        blob == blob_bytes(head_pairs(attrs) + rest),
    ensures
        canonical_record(attrs, blob),
{
    reveal(canonical_record);
}

/// Serialise `attrs` canonically (see [`canonical_record`]).
pub fn canonical_blob(attrs: &Vec<(String, String)>) -> (r: Vec<u8>)
    ensures
        canonical_record(pairs_view(attrs@), r@),
{
    let parts = head_part(attrs);
    let rest = tail_part(attrs);
    let sorted = crate::order::sort_pairs_by_key(rest);
    let out = serialize_pairs(&parts, &sorted);
    proof {
        lemma_canonical_witness(pairs_view(attrs@), pairs_view(sorted@), out@);
    }
    out
}

/// The data record of the pairs of `first` followed by those of `second`.
fn serialize_pairs(first: &Vec<(String, String)>, second: &Vec<(String, String)>) -> (r: Vec<u8>)
    ensures
        r@ == blob_bytes(pairs_view(first@) + pairs_view(second@)),
{
    let ghost hp = pairs_view(first@);
    let ghost sp = pairs_view(second@);
    let mut out: Vec<u8> = Vec::new();
    push_records(&mut out, first);
    assert(out@ =~= records_bytes(hp));
    push_records(&mut out, second);
    proof {
        lemma_records_concat(hp, sp);
    }
    assert(out@ =~= records_bytes(hp + sp));
    if first.len() == 0 && second.len() == 0 {
        out.push(0);
        assert(hp + sp =~= Seq::<(Seq<char>, Seq<char>)>::empty());
    }
    out
}

/// The largest data record an index entry can describe.
pub const MAX_RECORD_LEN: usize = 0xFFFF;

/// Serialise `attrs` canonically, refusing records longer than 64 KiB - 1.
pub fn build_blob(attrs: &Vec<(String, String)>) -> (r: Result<Vec<u8>, String>)
    ensures
        match r {
            Ok(b) => canonical_record(pairs_view(attrs@), b@) && b@.len() <= MAX_RECORD_LEN,
            Err(_) => exists|b: Seq<u8>| canonical_record(pairs_view(attrs@), b) && b.len() > MAX_RECORD_LEN,
        },
{
    let blob = canonical_blob(attrs);
    if blob.len() > MAX_RECORD_LEN {
        return Err("芯片属性块超过 64KB 上限".to_string());
    }
    Ok(blob)
}

/// The views of a list of `&str` pairs.
pub open spec fn str_pairs(v: Seq<(&str, &str)>) -> AttrPairs {
    Seq::new(v.len(), |i: int| (v[i].0@, v[i].1@))
}

/// Whether some pair of `pairs` has key `key`.
pub open spec fn has_key(pairs: AttrPairs, key: Seq<char>) -> bool {
    exists|i: int| 0 <= i < pairs.len() && pairs[i].0 == key
}

/// The attribute list an upsert writes: vendor, model, protocol, the extra
/// pairs, and the id unless an extra pair already names one.
pub open spec fn upsert_attrs(id: Seq<char>, vendor: Seq<char>, model: Seq<char>, protocol: Seq<char>, extra: AttrPairs) -> AttrPairs {
    let base = seq![("vendor"@, vendor), ("model"@, model), ("protocol"@, protocol)] + extra;
    if has_key(extra, "id"@) { base } else { base.push(("id"@, id)) }
}

/// `e` is the index entry, with id field `key` and protocol id `protocol`,
/// of a record of `blob_len` bytes appended to a data section of
/// `data_len` bytes (the offset is kept modulo 2^32).
pub open spec fn entry_for(e: IndexEntry, key: Seq<u8>, data_len: nat, blob_len: nat, protocol: u16) -> bool {
    &&& e.id@ == key
    &&& e.data_offset == (data_len % 0x1_0000_0000) as u32
    &&& e.data_len == blob_len
    &&& e.protocol == protocol
}

impl Chiplib {
    /// `new` is `old` with `e` put into the index: replacing an entry with
    /// the same id, or inserted where the order keeps the index sorted; the
    /// record bytes `blob` were appended to the data section.
    pub open spec fn put_entry(old: Chiplib, new: Chiplib, e: IndexEntry, blob: Seq<u8>) -> bool {
        &&& new.data_view() == old.data_view() + blob
        &&& new.version_view() == old.version_view()
        &&& exists|idx: int| 0 <= idx <= old.entries_view().len() && {
            ||| (idx < old.entries_view().len() && id_key(old.entries_view()[idx].id@) == id_key(e.id@)
                && new.entries_view() == old.entries_view().update(idx, e))
            ||| ((forall|k: int| 0 <= k < idx ==> id_key(old.entries_view()[k].id@) < id_key(e.id@))
                && (forall|k: int| idx <= k < old.entries_view().len() ==> id_key(e.id@) < id_key(old.entries_view()[k].id@))
                && new.entries_view() == old.entries_view().insert(idx, e))
        }
    }
}

impl Chiplib {
    /// Put `e` into the index (see [`Chiplib::put_entry`]) and append `blob`.
    fn put_entry_exec(&mut self, e: IndexEntry, blob: &Vec<u8>)
        requires
            old(self).wf(),
            e.data_offset as int + e.data_len as int <= old(self).data_view().len() + blob@.len(),
        ensures
            final(self).wf(),
            Chiplib::put_entry(*old(self), *final(self), e, blob@),
    {
        let ghost oe = self.entries@;
        let r = self.search(&e.id);
        match r {
            Ok(idx) => {
                self.entries.set(idx, e);
            },
            Err(idx) => {
                self.entries.insert(idx, e);
            },
        }
        crate::protocols::append(&mut self.data, blob);
        proof {
            match r {
                Ok(idx) => {
                    assert(self.entries@ == oe.update(idx as int, e));
                    assert(idx < oe.len() && id_key(oe[idx as int].id@) == id_key(e.id@));
                },
                Err(idx) => {
                    assert(self.entries@ == oe.insert(idx as int, e));
                    assert forall|i: int, j: int| 0 <= i < j < self.entries@.len() implies
                        id_key(self.entries@[i].id@) <= id_key(self.entries@[j].id@) by {
                        if j < idx {
                        } else if j == idx {
                        } else if i < idx {
                        } else if i == idx {
                        } else {
                            assert(self.entries@[i] == oe[i - 1] && self.entries@[j] == oe[j - 1]);
                        }
                    }
                },
            }
        }
    }
}

/// No two index entries share an id.
pub open spec fn ids_unique(es: Seq<IndexEntry>) -> bool {
    forall|i: int, j: int| 0 <= i < j < es.len() ==> id_key(es[i].id@) != id_key(es[j].id@)
}

/// What a lookup reads back of a write: in a library whose ids are unique,
/// after `e` is put in with the record `blob` appended at the end of the
/// data section, the ids stay unique, an entry with `e`'s id is present,
/// and every entry with that id is `e` itself, whose attributes are those
/// of `blob`.
pub proof fn lemma_put_then_lookup(old: Chiplib, new: Chiplib, e: IndexEntry, blob: Seq<u8>)
    requires
        old.wf(),
        ids_unique(old.entries_view()),
        Chiplib::put_entry(old, new, e, blob),
        e.data_offset == old.data_view().len(),
        e.data_len == blob.len(),
    ensures
        ids_unique(new.entries_view()),
        exists|k: int| 0 <= k < new.entries_view().len() && id_key(#[trigger] new.entries_view()[k].id@) == id_key(e.id@),
        forall|k: int| 0 <= k < new.entries_view().len() && id_key(#[trigger] new.entries_view()[k].id@) == id_key(e.id@)
            ==> new.entries_view()[k] == e && new.attrs_at(k) == spec_data_attrs(blob),
{
    let oe = old.entries_view();
    let ne = new.entries_view();
    let idx = choose|idx: int| 0 <= idx <= oe.len() && {
        ||| (idx < oe.len() && id_key(oe[idx].id@) == id_key(e.id@) && ne == oe.update(idx, e))
        ||| ((forall|k: int| 0 <= k < idx ==> id_key(oe[k].id@) < id_key(e.id@))
            && (forall|k: int| idx <= k < oe.len() ==> id_key(e.id@) < id_key(oe[k].id@))
            && ne == oe.insert(idx, e))
    };
    if idx < oe.len() && id_key(oe[idx].id@) == id_key(e.id@) && ne == oe.update(idx, e) {
        assert(ne[idx] == e);
        assert forall|i: int, j: int| 0 <= i < j < ne.len() implies id_key(ne[i].id@) != id_key(ne[j].id@) by {
            if i != idx && j != idx {
                assert(ne[i] == oe[i] && ne[j] == oe[j]);
            } else if i == idx {
                assert(ne[j] == oe[j]);
            } else {
                assert(ne[i] == oe[i]);
            }
        }
        assert forall|k: int| 0 <= k < ne.len() && id_key(#[trigger] ne[k].id@) == id_key(e.id@) implies ne[k] == e by {
            if k != idx {
                assert(ne[k] == oe[k]);
                if k < idx {
                    assert(id_key(oe[k].id@) != id_key(oe[idx].id@));
                } else {
                    assert(id_key(oe[idx].id@) != id_key(oe[k].id@));
                }
            }
        }
    } else {
        assert(ne == oe.insert(idx, e));
        assert(ne[idx] == e);
        assert forall|k: int| 0 <= k < ne.len() && k != idx implies id_key(#[trigger] ne[k].id@) != id_key(e.id@) by {
            if k < idx {
                assert(ne[k] == oe[k]);
            } else {
                assert(ne[k] == oe[k - 1]);
            }
        }
        assert forall|i: int, j: int| 0 <= i < j < ne.len() implies id_key(ne[i].id@) != id_key(ne[j].id@) by {
            if i == idx || j == idx {
            } else {
                let oi = if i < idx { i } else { i - 1 };
                let oj = if j < idx { j } else { j - 1 };
                assert(ne[i] == oe[oi] && ne[j] == oe[oj]);
            }
        }
    }
    assert(new.data_view().subrange(e.data_offset as int, e.data_offset + e.data_len) =~= blob);
    assert forall|k: int| 0 <= k < ne.len() && id_key(#[trigger] ne[k].id@) == id_key(e.id@)
        implies ne[k] == e && new.attrs_at(k) == spec_data_attrs(blob) by {
        reveal(Chiplib::attrs_at);
        assert(record_of(new.data_view(), ne[k]) == blob);
    }
}

/// What a lookup reads back of an upsert: in a library whose ids are
/// unique and whose data section is under 4 GiB, once an upsert has put
/// `e` in with the canonical record `blob` of `attrs` (as
/// [`Chiplib::upsert_chip`] states), every entry with `e`'s id reads back
/// each key with the value `attrs` gave it.
pub proof fn lemma_upsert_reads_back(
    old: Chiplib,
    new: Chiplib,
    e: IndexEntry,
    blob: Seq<u8>,
    attrs: AttrPairs,
    k: int,
    key: Seq<char>,
)
    requires
        old.wf(),
        ids_unique(old.entries_view()),
        old.data_view().len() < 0x1_0000_0000,
        canonical_record(attrs, blob),
        pairs_writable(attrs),
        entry_for(e, e.id@, old.data_view().len(), blob.len(), e.protocol),
        Chiplib::put_entry(old, new, e, blob),
        0 <= k < new.entries_view().len(),
        id_key(new.entries_view()[k].id@) == id_key(e.id@),
    ensures
        new.entries_view()[k] == e,
        lookup(new.attrs_at(k), key) == lookup(attrs, key),
{
    lemma_put_then_lookup(old, new, e, blob);
    lemma_canonical_reads_back(attrs, blob, key);
}

/// The pairs of a `&str` pair list as owned strings.
fn owned_pairs(v: &[(&str, &str)]) -> (r: Vec<(String, String)>)
    ensures
        pairs_view(r@) == str_pairs(v@),
{
    let mut out: Vec<(String, String)> = Vec::new();
    let mut i: usize = 0;
    while i < v.len()
        invariant
            i <= v@.len(),
            pairs_view(out@) == str_pairs(v@).take(i as int),
        decreases v@.len() - i,
    {
        let ghost before = pairs_view(out@);
        out.push((String::from_str(v[i].0), String::from_str(v[i].1)));
        assert(pairs_view(out@) =~= before.push(str_pairs(v@)[i as int]));
        assert(str_pairs(v@).take(i + 1) =~= str_pairs(v@).take(i as int).push(str_pairs(v@)[i as int]));
        i = i + 1;
    }
    assert(str_pairs(v@).take(v@.len() as int) =~= str_pairs(v@));
    out
}

/// The attribute list of an upsert (see [`upsert_attrs`]).
fn upsert_attr_list(id: &str, vendor: &str, model: &str, protocol: &str, extra_attrs: &[(&str, &str)]) -> (r: Vec<(String, String)>)
    ensures
        pairs_view(r@) == upsert_attrs(id@, vendor@, model@, protocol@, str_pairs(extra_attrs@)),
{
    let extra = owned_pairs(extra_attrs);
    let mut attrs: Vec<(String, String)> = Vec::new();
    attrs.push((String::from_str("vendor"), String::from_str(vendor)));
    attrs.push((String::from_str("model"), String::from_str(model)));
    attrs.push((String::from_str("protocol"), String::from_str(protocol)));
    let ghost head = pairs_view(attrs@);
    assert(head =~= seq![("vendor"@, vendor@), ("model"@, model@), ("protocol"@, protocol@)]);
    let mut i: usize = 0;
    while i < extra.len()
        invariant
            i <= extra@.len(),
            pairs_view(attrs@) == head + pairs_view(extra@).take(i as int),
        decreases extra@.len() - i,
    {
        let ghost before = pairs_view(attrs@);
        attrs.push((extra[i].0.clone(), extra[i].1.clone()));
        assert(pairs_view(attrs@) =~= before.push(pairs_view(extra@)[i as int]));
        assert(pairs_view(extra@).take(i + 1) =~= pairs_view(extra@).take(i as int).push(pairs_view(extra@)[i as int]));
        i = i + 1;
    }
    assert(pairs_view(extra@).take(extra@.len() as int) =~= pairs_view(extra@));
    let has_id = match find_key(&extra, "id") {
        Some(k) => {
            assert(pairs_view(extra@)[k as int].0 == "id"@);
            true
        },
        None => {
            assert(!has_key(pairs_view(extra@), "id"@)) by {
                if has_key(pairs_view(extra@), "id"@) {
                    let k = choose|k: int| 0 <= k < pairs_view(extra@).len() && pairs_view(extra@)[k].0 == "id"@;
                    assert(extra@[k].0@ == "id"@);
                }
            }
            false
        },
    };
    if !has_id {
        let ghost before = pairs_view(attrs@);
        attrs.push((String::from_str("id"), String::from_str(id)));
        assert(pairs_view(attrs@) =~= before.push(("id"@, id@)));
    }
    attrs
}

impl Chiplib {
    /// Insert or replace the chip with id `id` (replacing keeps every other
    /// entry untouched). The record holds vendor, model, protocol, the
    /// extra pairs and the id (unless an extra pair names one), written
    /// canonically and appended to the data section; an old record stays in
    /// place. Refused for an unknown protocol, an id that is empty or longer
    /// than 16 bytes, or a record over 64 KiB - 1.
    pub fn upsert_chip(
        &mut self,
        id: &str,
        vendor: &str,
        model: &str,
        protocol: &str,
        extra_attrs: &[(&str, &str)],
    ) -> (r: Result<(), String>)
        requires
            old(self).wf(),
        ensures
            final(self).wf(),
            spec_protocol_id(protocol@) == 0xFF || id.spec_bytes().len() == 0 || id.spec_bytes().len() > 16 ==> r is Err,
            r is Err ==> spec_protocol_id(protocol@) == 0xFF || id.spec_bytes().len() == 0 || id.spec_bytes().len() > 16
                || exists|b: Seq<u8>| canonical_record(upsert_attrs(id@, vendor@, model@, protocol@, str_pairs(extra_attrs@)), b)
                    && b.len() > MAX_RECORD_LEN,
            r is Err ==> *final(self) == *old(self),
            r is Ok ==> exists|e: IndexEntry, blob: Seq<u8>|
                canonical_record(upsert_attrs(id@, vendor@, model@, protocol@, str_pairs(extra_attrs@)), blob)
                && entry_for(e, id_field(id.spec_bytes()), old(self).data_view().len(), blob.len(), spec_protocol_id(protocol@))
                && #[trigger] Chiplib::put_entry(*old(self), *final(self), e, blob),
    {
        let proto_id = protocol_name_to_id(protocol);
        if proto_id == 0xFF {
            return Err(crate::text::msg_join("未知协议: ", protocol));
        }
        let idb = id.as_bytes();
        if idb.len() == 0 || idb.len() > MAX_ID_LEN {
            return Err(crate::text::msg_join("无效 ID: ", id));
        }
        let attrs = upsert_attr_list(id, vendor, model, protocol, extra_attrs);
        let blob = build_blob(&attrs)?;
        let key = id_field_of(id);
        let dl = self.data.len();
        let offset = (dl as u64 % 0x1_0000_0000) as u32;
        assert(offset as int <= dl as int);
        let e = IndexEntry { id: key, data_offset: offset, data_len: blob.len() as u16, protocol: proto_id };
        self.put_entry_exec(e, &blob);
        Ok(())
    }

    /// Replace the record of entry `idx` by the canonical record of
    /// `attrs`, keeping its id and protocol.
    fn replace_entry_blob(&mut self, idx: usize, attrs: &Vec<(String, String)>) -> (r: Result<(), String>)
        requires
            old(self).wf(),
            idx < old(self).entries_view().len(),
        ensures
            final(self).wf(),
            r is Err ==> *final(self) == *old(self),
            r is Err ==> exists|b: Seq<u8>| canonical_record(pairs_view(attrs@), b) && b.len() > MAX_RECORD_LEN,
            r is Ok ==> exists|blob: Seq<u8>| #[trigger] canonical_record(pairs_view(attrs@), blob)
                && final(self).data_view() == old(self).data_view() + blob
                && final(self).version_view() == old(self).version_view()
                && final(self).entries_view().len() == old(self).entries_view().len()
                && (forall|k: int| 0 <= k < old(self).entries_view().len() && k != idx ==> final(self).entries_view()[k] == old(self).entries_view()[k])
                && entry_for(final(self).entries_view()[idx as int], old(self).entries_view()[idx as int].id@,
                    old(self).data_view().len(), blob.len(), old(self).entries_view()[idx as int].protocol),
    {
        let blob = build_blob(attrs)?;
        let old_entry = self.entries[idx];
        let dl = self.data.len();
        let offset = (dl as u64 % 0x1_0000_0000) as u32;
        assert(offset as int <= dl as int);
        let e = IndexEntry { id: old_entry.id, data_offset: offset, data_len: blob.len() as u16, protocol: old_entry.protocol };
        self.entries.set(idx, e);
        crate::protocols::append(&mut self.data, &blob);
        Ok(())
    }
}

/// Set `key` to `value` when `value` is not empty and `key` is missing or
/// empty.
pub open spec fn fill_if_blank(m: AttrPairs, key: Seq<char>, value: Seq<char>) -> AttrPairs {
    if (lookup(m, key) is None || lookup(m, key) == Some(Seq::<char>::empty())) && value.len() > 0 {
        set_attr(m, key, value)
    } else {
        m
    }
}

/// Add each extra pair, in order, whose value is not empty and whose key
/// is still missing.
pub open spec fn fill_missing(m: AttrPairs, extra: AttrPairs) -> AttrPairs
    decreases extra.len(),
{
    if extra.len() == 0 {
        m
    } else {
        let m0 = fill_missing(m, extra.drop_last());
        let p = extra.last();
        if lookup(m0, p.0) is None && p.1.len() > 0 {
            set_attr(m0, p.0, p.1)
        } else {
            m0
        }
    }
}

/// The attributes of an existing chip after a merge.
pub open spec fn merged_attrs(before: AttrPairs, vendor: Seq<char>, model: Seq<char>, extra: AttrPairs) -> AttrPairs {
    fill_missing(fill_if_blank(fill_if_blank(before, "vendor"@, vendor), "model"@, model), extra)
}

proof fn lemma_fill_missing_keeps(m: AttrPairs, extra: AttrPairs, k: Seq<char>)
    requires
        keys_unique(m),
    ensures
        keys_unique(fill_missing(m, extra)),
        lookup(m, k) is Some ==> lookup(fill_missing(m, extra), k) == lookup(m, k),
    decreases extra.len(),
{
    if extra.len() > 0 {
        lemma_fill_missing_keeps(m, extra.drop_last(), k);
        let m0 = fill_missing(m, extra.drop_last());
        let p = extra.last();
        lemma_set_attr_lookup(m0, p.0, p.1, k);
    }
}

/// A merge never loses a value: every key the chip had keeps its value,
/// except that an empty vendor or model may be filled in.
pub proof fn lemma_merge_keeps_values(before: AttrPairs, vendor: Seq<char>, model: Seq<char>, extra: AttrPairs, k: Seq<char>)
    requires
        keys_unique(before),
        lookup(before, k) is Some,
        !((k == "vendor"@ || k == "model"@) && lookup(before, k) == Some(Seq::<char>::empty())),
    ensures
        lookup(merged_attrs(before, vendor, model, extra), k) == lookup(before, k),
        keys_unique(merged_attrs(before, vendor, model, extra)),
{
    lemma_set_attr_lookup(before, "vendor"@, vendor, k);
    let m1 = fill_if_blank(before, "vendor"@, vendor);
    lemma_set_attr_lookup(m1, "model"@, model, k);
    let m2 = fill_if_blank(m1, "model"@, model);
    lemma_fill_missing_keeps(m2, extra, k);
}

/// Whether `v` is empty or missing (as `get(..).filter(non-empty).is_none()`).
fn blank_or_missing(attrs: &Vec<(String, String)>, key: &str) -> (r: bool)
    ensures
        r == (lookup(pairs_view(attrs@), key@) is None || lookup(pairs_view(attrs@), key@) == Some(Seq::<char>::empty())),
{
    match first_value(attrs, key) {
        Some(v) => {
            let e = v.as_str().is_empty();
            assert(e ==> v@ =~= Seq::<char>::empty());
            e
        },
        None => true,
    }
}

impl Chiplib {
    /// Merge a chip into the database: a missing chip is inserted as by
    /// [`Chiplib::upsert_chip`]; an existing chip only gets the pairs it
    /// does not have yet (an empty vendor or model is filled in), so values
    /// already there are never lost. The version becomes 20260816.
    pub fn upsert_chip_merge(
        &mut self,
        id: &str,
        vendor: &str,
        model: &str,
        protocol: &str,
        extra_attrs: &[(&str, &str)],
    ) -> (r: Result<(), String>)
        requires
            old(self).wf(),
            id.spec_bytes().len() <= 16,
        ensures
            final(self).wf(),
            final(self).version_view() == 20260816,
            final(self).entries_view().len() >= old(self).entries_view().len(),
            (exists|k: int| 0 <= k < old(self).entries_view().len() && id_key(old(self).entries_view()[k].id@) == id_key(id_field(id.spec_bytes())))
            ==> (exists|k: int| 0 <= k < old(self).entries_view().len() && id_key(old(self).entries_view()[k].id@) == id_key(id_field(id.spec_bytes()))
                && (r is Ok ==> exists|blob: Seq<u8>|
                    #[trigger] canonical_record(merged_attrs(old(self).attrs_at(k), vendor@, model@, str_pairs(extra_attrs@)), blob)
                    && final(self).data_view() == old(self).data_view() + blob
                    && final(self).entries_view().len() == old(self).entries_view().len()
                    && entry_for(final(self).entries_view()[k], old(self).entries_view()[k].id@, old(self).data_view().len(), blob.len(),
                        old(self).entries_view()[k].protocol))),
    {
        let key = id_field_of(id);
        let found = self.search(&key);
        let result = match found {
            Ok(idx) => {
                let mut attrs = self.entry_attrs(idx);
                let ghost before = pairs_view(attrs@);
                if blank_or_missing(&attrs, "vendor") && !vendor.is_empty() {
                    insert_attr(&mut attrs, String::from_str("vendor"), String::from_str(vendor));
                }
                if blank_or_missing(&attrs, "model") && !model.is_empty() {
                    insert_attr(&mut attrs, String::from_str("model"), String::from_str(model));
                }
                let ghost m2 = pairs_view(attrs@);
                assert(m2 == fill_if_blank(fill_if_blank(before, "vendor"@, vendor@), "model"@, model@));
                let mut i: usize = 0;
                while i < extra_attrs.len()
                    invariant
                        i <= extra_attrs@.len(),
                        keys_unique(pairs_view(attrs@)),
                        pairs_view(attrs@) == fill_missing(m2, str_pairs(extra_attrs@).take(i as int)),
                    decreases extra_attrs@.len() - i,
                {
                    let (k, v) = extra_attrs[i];
                    let ghost prev = pairs_view(attrs@);
                    assert(str_pairs(extra_attrs@).take(i + 1).drop_last() =~= str_pairs(extra_attrs@).take(i as int));
                    let missing = match find_key(&attrs, k) {
                        Some(j) => {
                            assert(pairs_view(attrs@)[j as int].0 == k@);
                            false
                        },
                        None => {
                            assert(!exists|j: int| 0 <= j < prev.len() && prev[j].0 == k@) by {
                                if exists|j: int| 0 <= j < prev.len() && prev[j].0 == k@ {
                                    let j = choose|j: int| 0 <= j < prev.len() && prev[j].0 == k@;
                                    assert(attrs@[j].0@ == k@);
                                }
                            }
                            true
                        },
                    };
                    if missing && !v.is_empty() {
                        insert_attr(&mut attrs, String::from_str(k), String::from_str(v));
                    }
                    i = i + 1;
                }
                assert(str_pairs(extra_attrs@).take(extra_attrs@.len() as int) =~= str_pairs(extra_attrs@));
                assert(pairs_view(attrs@) == merged_attrs(old(self).attrs_at(idx as int), vendor@, model@, str_pairs(extra_attrs@)));
                self.replace_entry_blob(idx, &attrs)
            },
            Err(_) => self.upsert_chip(id, vendor, model, protocol, extra_attrs),
        };
        self.version = 20260816;
        proof {
            match found {
                Ok(idx) => {
                    assert(id_key(old(self).entries_view()[idx as int].id@) == id_key(id_field(id.spec_bytes())));
                },
                Err(_) => {
                    if exists|k: int| 0 <= k < old(self).entries_view().len() && id_key(old(self).entries_view()[k].id@) == id_key(id_field(id.spec_bytes())) {
                        let k = choose|k: int| 0 <= k < old(self).entries_view().len() && id_key(old(self).entries_view()[k].id@) == id_key(id_field(id.spec_bytes()));
                        assert(id_key(old(self).entries_view()[k].id@) != id_key(key@));
                    }
                },
            }
        }
        result
    }
}

// ── listings ────────────────────────────────────────────────────────────────

/// Number of entries among the first `n` with protocol id `pid`.
pub open spec fn count_protocol(entries: Seq<IndexEntry>, pid: u16, n: int) -> nat
    decreases n,
{
    if n <= 0 {
        0
    } else {
        count_protocol(entries, pid, n - 1) + (if entries[n - 1].protocol == pid { 1nat } else { 0nat })
    }
}

/// `(name, count)` of the protocol ids below `upto` (of 0..=11) that occur.
pub open spec fn counts_upto(entries: Seq<IndexEntry>, upto: int) -> Seq<(Seq<char>, nat)>
    decreases upto,
{
    if upto <= 0 {
        Seq::empty()
    } else {
        let prev = counts_upto(entries, upto - 1);
        let c = count_protocol(entries, (upto - 1) as u16, entries.len() as int);
        if c > 0 { prev.push((spec_protocol_name((upto - 1) as u16), c)) } else { prev }
    }
}

/// The distinct protocol names of the first `n` entries, by first occurrence.
pub open spec fn protocol_names(entries: Seq<IndexEntry>, n: int) -> Seq<Seq<char>>
    decreases n,
{
    if n <= 0 {
        Seq::empty()
    } else {
        let prev = protocol_names(entries, n - 1);
        let name = spec_protocol_name(entries[n - 1].protocol);
        if prev.contains(name) { prev } else { prev.push(name) }
    }
}

/// The views of a list of name/count pairs.
pub open spec fn counts_view(v: Seq<(String, usize)>) -> Seq<(Seq<char>, nat)> {
    Seq::new(v.len(), |i: int| (v[i].0@, v[i].1 as nat))
}

fn contains_text(v: &Vec<String>, s: &str) -> (r: bool)
    ensures
        r == crate::order::texts(v@).contains(s@),
{
    let mut i: usize = 0;
    while i < v.len()
        invariant
            i <= v@.len(),
            forall|j: int| 0 <= j < i ==> v@[j]@ != s@,
        decreases v@.len() - i,
    {
        if str_eq(v[i].as_str(), s) {
            assert(crate::order::texts(v@)[i as int] == s@);
            return true;
        }
        i = i + 1;
    }
    assert(!crate::order::texts(v@).contains(s@)) by {
        if crate::order::texts(v@).contains(s@) {
            let j = choose|j: int| 0 <= j < crate::order::texts(v@).len() && crate::order::texts(v@)[j] == s@;
            assert(v@[j]@ == s@);
        }
    }
    false
}

impl Chiplib {
    /// Entries per protocol id 0..=12, in id order, leaving out the ids
    /// without entries.
    pub fn protocol_counts(&self) -> (r: Vec<(String, usize)>)
        ensures
            counts_view(r@) == counts_upto(self.entries_view(), 13),
    {
        let n = self.entries.len();
        let mut out: Vec<(String, usize)> = Vec::new();
        let mut id: u16 = 0;
        while id < 13
            invariant
                id <= 13,
                n == self.entries_view().len(),
                counts_view(out@) == counts_upto(self.entries_view(), id as int),
            decreases 13 - id,
        {
            let mut c: usize = 0;
            let mut i: usize = 0;
            while i < n
                invariant
                    i <= n,
                    n == self.entries_view().len(),
                    c == count_protocol(self.entries_view(), id, i as int),
                    c <= i,
                decreases n - i,
            {
                if self.entries[i].protocol == id {
                    c = c + 1;
                }
                i = i + 1;
            }
            let ghost before = counts_view(out@);
            if c > 0 {
                out.push((protocol_id_to_name(id), c));
                assert(counts_view(out@) =~= before.push((spec_protocol_name(id), c as nat)));
            }
            id = id + 1;
        }
        out
    }

    /// The distinct protocol names, in the order they first occur.
    pub fn list_protocols(&self) -> (r: Vec<String>)
        ensures
            crate::order::texts(r@) == protocol_names(self.entries_view(), self.entries_view().len() as int),
    {
        let n = self.entries.len();
        let mut out: Vec<String> = Vec::new();
        let mut i: usize = 0;
        while i < n
            invariant
                i <= n,
                n == self.entries_view().len(),
                crate::order::texts(out@) == protocol_names(self.entries_view(), i as int),
            decreases n - i,
        {
            let name = protocol_id_to_name(self.entries[i].protocol);
            if !contains_text(&out, name.as_str()) {
                let ghost before = crate::order::texts(out@);
                out.push(name);
                assert(crate::order::texts(out@) =~= before.push(spec_protocol_name(self.entries_view()[i as int].protocol)));
            }
            i = i + 1;
        }
        out
    }
}

impl Chiplib {
    /// The distinct vendors of the first `n` entries with protocol id
    /// `pid`, by first occurrence.
    pub open spec fn vendors_upto(&self, pid: u16, n: int) -> Seq<Seq<char>>
        decreases n,
    {
        if n <= 0 {
            Seq::empty()
        } else {
            let prev = self.vendors_upto(pid, n - 1);
            if self.entries_view()[n - 1].protocol == pid {
                match lookup(self.attrs_at(n - 1), "vendor"@) {
                    Some(v) => if prev.contains(v) { prev } else { prev.push(v) },
                    None => prev,
                }
            } else {
                prev
            }
        }
    }

    /// The models of the first `n` entries with protocol id `pid` and
    /// vendor `vendor`, in order.
    pub open spec fn models_upto(&self, pid: u16, vendor: Seq<char>, n: int) -> Seq<Seq<char>>
        decreases n,
    {
        if n <= 0 {
            Seq::empty()
        } else {
            let prev = self.models_upto(pid, vendor, n - 1);
            let attrs = self.attrs_at(n - 1);
            if self.entries_view()[n - 1].protocol == pid && lookup(attrs, "vendor"@) == Some(vendor) {
                match lookup(attrs, "model"@) {
                    Some(m) => prev.push(m),
                    None => prev,
                }
            } else {
                prev
            }
        }
    }

    /// The vendors of a protocol, each once, sorted.
    #[verifier::rlimit(40)]
    pub fn list_vendors(&self, protocol_name: &str) -> (r: Vec<String>)
        requires
            self.wf(),
        ensures
            crate::order::sorted_texts(crate::order::texts(r@)),
            crate::order::texts(r@).to_multiset()
                == self.vendors_upto(spec_protocol_id(protocol_name@), self.entries_view().len() as int).to_multiset(),
    {
        let pid = protocol_name_to_id(protocol_name);
        let n = self.entries.len();
        let mut out: Vec<String> = Vec::new();
        let mut i: usize = 0;
        while i < n
            invariant
                i <= n,
                n == self.entries_view().len(),
                self.wf(),
                crate::order::texts(out@) == self.vendors_upto(pid, i as int),
            decreases n - i,
        {
            if self.entries[i].protocol == pid {
                let attrs = self.entry_attrs(i);
                match lookup_attr(&attrs, "vendor") {
                    Some(v) => {
                        if !contains_text(&out, v.as_str()) {
                            let ghost before = crate::order::texts(out@);
                            out.push(v);
                            assert(crate::order::texts(out@) =~= before.push(out@[out@.len() - 1]@));
                        }
                    },
                    None => {},
                }
            }
            i = i + 1;
        }
        crate::order::sort_strings(out)
    }

    /// The models of a protocol and vendor, sorted (a model listed twice
    /// appears twice).
    #[verifier::rlimit(40)]
    pub fn list_models(&self, protocol_name: &str, vendor_name: &str) -> (r: Vec<String>)
        requires
            self.wf(),
        ensures
            crate::order::sorted_texts(crate::order::texts(r@)),
            crate::order::texts(r@).to_multiset()
                == self.models_upto(spec_protocol_id(protocol_name@), vendor_name@, self.entries_view().len() as int).to_multiset(),
    {
        let pid = protocol_name_to_id(protocol_name);
        let n = self.entries.len();
        let mut out: Vec<String> = Vec::new();
        let mut i: usize = 0;
        while i < n
            invariant
                i <= n,
                n == self.entries_view().len(),
                self.wf(),
                crate::order::texts(out@) == self.models_upto(pid, vendor_name@, i as int),
            decreases n - i,
        {
            if self.entries[i].protocol == pid {
                let attrs = self.entry_attrs(i);
                let vendor_matches = match lookup_attr(&attrs, "vendor") {
                    Some(v) => str_eq(v.as_str(), vendor_name),
                    None => false,
                };
                if vendor_matches {
                    match lookup_attr(&attrs, "model") {
                        Some(m) => {
                            let ghost before = crate::order::texts(out@);
                            out.push(m);
                            assert(crate::order::texts(out@) =~= before.push(out@[out@.len() - 1]@));
                        },
                        None => {},
                    }
                }
            }
            i = i + 1;
        }
        crate::order::sort_strings(out)
    }
}

// ── XML attribute strings ───────────────────────────────────────────────────

/// ASCII whitespace (`u8::is_ascii_whitespace`): space, tab, LF, FF, CR.
pub open spec fn ascii_ws(c: u8) -> bool {
    c == 0x20 || c == 0x09 || c == 0x0A || c == 0x0C || c == 0x0D
}

/// The first index at or after `i` whose byte stops the scan `kind`, or
/// the end: 0 stops at non-whitespace, 1 at `=` or whitespace (a key), 2
/// at what is neither `=` nor whitespace, 3 at `"`, 4 at whitespace.
pub open spec fn scan(b: Seq<u8>, i: int, kind: int) -> int
    decreases b.len() - i,
{
    if i < 0 || i >= b.len() {
        if i < 0 { 0 } else { b.len() as int }
    } else if stops(b[i], kind) {
        i
    } else {
        scan(b, i + 1, kind)
    }
}

/// Whether byte `c` stops the scan `kind` (see [`scan`]).
pub open spec fn stops(c: u8, kind: int) -> bool {
    if kind == 0 { !ascii_ws(c) }
    else if kind == 1 { c == 0x3D || ascii_ws(c) }
    else if kind == 2 { !(c == 0x3D || ascii_ws(c)) }
    else if kind == 3 { c == 0x22 }
    else { ascii_ws(c) }
}

pub proof fn lemma_scan(b: Seq<u8>, i: int, kind: int)
    requires
        0 <= i <= b.len(),
    ensures
        i <= scan(b, i, kind) <= b.len(),
        scan(b, i, kind) < b.len() ==> stops(b[scan(b, i, kind)], kind),
        forall|j: int| i <= j < scan(b, i, kind) ==> !stops(#[trigger] b[j], kind),
    decreases b.len() - i,
{
    if i < b.len() && !stops(b[i], kind) {
        lemma_scan(b, i + 1, kind);
    }
}

/// The `key=value` / `key="value"` pairs of an XML attribute string from
/// byte `i` on (keys and values decoded as `String::from_utf8_lossy`).
pub open spec fn xml_attrs_from(b: Seq<u8>, i: int) -> AttrPairs
    decreases b.len() + 1 - i,
{
    if i < 0 || i > b.len() {
        Seq::empty()
    } else {
        proof {
            lemma_scan(b, i, 0);
        }
        let k0 = scan(b, i, 0);
        if k0 >= b.len() {
            Seq::empty()
        } else {
            proof {
                lemma_scan(b, k0, 1);
                let ke = scan(b, k0, 1);
                lemma_scan(b, ke, 2);
            }
            let ke = scan(b, k0, 1);
            let vs0 = scan(b, ke, 2);
            let key = utf8_lossy(b.subrange(k0, ke));
            if vs0 < b.len() && b[vs0] == 0x22 {
                proof {
                    lemma_scan(b, vs0 + 1, 3);
                }
                let ve = scan(b, vs0 + 1, 3);
                seq![(key, utf8_lossy(b.subrange(vs0 + 1, ve)))] + xml_attrs_from(b, ve + 1)
            } else {
                proof {
                    lemma_scan(b, vs0, 4);
                    if vs0 == ke {
                        assert(ke < b.len() ==> stops(b[ke], 1));
                        assert(ke > k0);
                    }
                }
                let ve = scan(b, vs0, 4);
                seq![(key, utf8_lossy(b.subrange(vs0, ve)))] + xml_attrs_from(b, ve)
            }
        }
    }
}

fn scan_exec(b: &[u8], i: usize, kind: u8) -> (r: usize)
    requires
        i <= b@.len(),
        kind <= 4,
    ensures
        r as int == scan(b@, i as int, kind as int),
        i <= r <= b@.len(),
        r < b@.len() ==> stops(b@[r as int], kind as int),
{
    proof {
        lemma_scan(b@, i as int, kind as int);
    }
    let mut j = i;
    while j < b.len()
        invariant
            i <= j <= b@.len(),
            kind <= 4,
            scan(b@, i as int, kind as int) == scan(b@, j as int, kind as int),
        decreases b@.len() - j,
    {
        let c = b[j];
        let ws = c == 0x20 || c == 0x09 || c == 0x0A || c == 0x0C || c == 0x0D;
        let stop = if kind == 0 { !ws } else if kind == 1 { c == 0x3D || ws } else if kind == 2 { !(c == 0x3D || ws) }
            else if kind == 3 { c == 0x22 } else { ws };
        if stop {
            return j;
        }
        j = j + 1;
    }
    j
}

/// Parse the attributes of an XML start tag: `key="value"` or `key=value`
/// pairs separated by whitespace.
pub fn parse_attr_string(s: &str) -> (r: Vec<(String, String)>)
    ensures
        pairs_view(r@) == xml_attrs_from(s.spec_bytes(), 0),
{
    let b = s.as_bytes();
    let n = b.len();
    let mut out: Vec<(String, String)> = Vec::new();
    let mut i: usize = 0;
    assert(pairs_view(out@) + xml_attrs_from(b@, 0) =~= xml_attrs_from(b@, 0));
    while i < n
        invariant
            n == b@.len(),
            i <= n,
            b@ == s.spec_bytes(),
            pairs_view(out@) + xml_attrs_from(b@, i as int) == xml_attrs_from(b@, 0),
        decreases n - i,
    {
        let k0 = scan_exec(b, i, 0);
        if k0 >= n {
            assert(xml_attrs_from(b@, i as int) =~= Seq::<(Seq<char>, Seq<char>)>::empty());
            assert(pairs_view(out@) =~= pairs_view(out@) + xml_attrs_from(b@, i as int));
            return out;
        }
        let ke = scan_exec(b, k0, 1);
        let vs0 = scan_exec(b, ke, 2);
        let key = lossy_string(crate::firmware::copy_range(b, k0, ke).as_slice());
        let ghost before = pairs_view(out@);
        if vs0 < n && b[vs0] == 0x22 {
            let ve = scan_exec(b, vs0 + 1, 3);
            let value = lossy_string(crate::firmware::copy_range(b, vs0 + 1, ve).as_slice());
            out.push((key, value));
            assert(pairs_view(out@) =~= before.push((utf8_lossy(b@.subrange(k0 as int, ke as int)), utf8_lossy(b@.subrange(vs0 + 1, ve as int)))));
            assert(before + xml_attrs_from(b@, i as int) =~= pairs_view(out@) + xml_attrs_from(b@, ve + 1));
            if ve >= n {
                assert(xml_attrs_from(b@, ve + 1) =~= Seq::<(Seq<char>, Seq<char>)>::empty());
                assert(pairs_view(out@) =~= pairs_view(out@) + xml_attrs_from(b@, ve + 1));
                return out;
            }
            i = ve + 1;
        } else {
            let ve = scan_exec(b, vs0, 4);
            let value = lossy_string(crate::firmware::copy_range(b, vs0, ve).as_slice());
            out.push((key, value));
            proof {
                lemma_scan(b@, k0 as int, 1);
                if vs0 == ke {
                    assert(ke > k0);
                }
            }
            assert(pairs_view(out@) =~= before.push((utf8_lossy(b@.subrange(k0 as int, ke as int)), utf8_lossy(b@.subrange(vs0 as int, ve as int)))));
            assert(before + xml_attrs_from(b@, i as int) =~= pairs_view(out@) + xml_attrs_from(b@, ve as int));
            i = ve;
        }
    }
    assert(xml_attrs_from(b@, i as int) =~= Seq::<(Seq<char>, Seq<char>)>::empty());
    assert(pairs_view(out@) =~= pairs_view(out@) + xml_attrs_from(b@, i as int));
    out
}

// ── the binary file ─────────────────────────────────────────────────────────

/// Little-endian 16-bit value at `at`.
pub open spec fn le16_at(b: Seq<u8>, at: int) -> int {
    b[at] + b[at + 1] * 256
}

/// Little-endian 32-bit value at `at`.
pub open spec fn le32_at(b: Seq<u8>, at: int) -> int {
    b[at] + b[at + 1] * 256 + b[at + 2] * 65536 + b[at + 3] * 16777216
}

/// Whether `raw` starts with the plain magic `CHIP`.
pub open spec fn starts_with_magic(raw: Seq<u8>) -> bool {
    raw.len() >= 4 && raw[0] == 0x43 && raw[1] == 0x48 && raw[2] == 0x49 && raw[3] == 0x50
}

/// The plain file: a file starting with `CHIP` is plain (older libraries),
/// anything else is obfuscated.
pub open spec fn plain_file(raw: Seq<u8>) -> Seq<u8> {
    if starts_with_magic(raw) { raw } else { spec_deobfuscate(raw) }
}

/// The header is complete, has the magic and the entry size, and the index
/// it announces fits in the file.
pub open spec fn header_valid(f: Seq<u8>) -> bool {
    &&& f.len() >= HEADER_SIZE
    &&& le32_at(f, 0) == MAGIC
    &&& le16_at(f, 16) == ENTRY_SIZE
    &&& f.len() >= HEADER_SIZE + ENTRY_SIZE * le32_at(f, 8)
}

/// Entry `e` is the index entry stored at byte `at` of `f`.
pub open spec fn entry_stored(e: IndexEntry, f: Seq<u8>, at: int) -> bool {
    &&& e.id@ == f.subrange(at, at + 16)
    &&& e.data_offset == le32_at(f, at + 16)
    &&& e.data_len == le16_at(f, at + 20)
    &&& e.protocol == le16_at(f, at + 22)
}

/// The data section a valid header points at starts inside the file.
pub open spec fn data_offset_in_file(raw: Seq<u8>) -> bool {
    header_valid(plain_file(raw)) ==> le32_at(plain_file(raw), 12) <= plain_file(raw).len()
}

fn read_le16(b: &[u8], at: usize) -> (r: u16)
    requires
        at + 2 <= b@.len(),
    ensures
        r as int == le16_at(b@, at as int),
{
    b[at] as u16 + b[at + 1] as u16 * 256
}

fn read_le32(b: &[u8], at: usize) -> (r: u32)
    requires
        at + 4 <= b@.len(),
    ensures
        r as int == le32_at(b@, at as int),
{
    b[at] as u32 + b[at + 1] as u32 * 256 + b[at + 2] as u32 * 65536 + b[at + 3] as u32 * 16777216
}

fn plain_bytes(raw: &[u8]) -> (r: Vec<u8>)
    ensures
        r@ == plain_file(raw@),
{
    if raw.len() >= 4 && raw[0] == 0x43 && raw[1] == 0x48 && raw[2] == 0x49 && raw[3] == 0x50 {
        crate::firmware::copy_range(raw, 0, raw.len())
    } else {
        deobfuscate(raw)
    }
}

/// Whether [`Chiplib::load_bin`] may be called on `raw`: the data
/// offset of a valid header lies inside the file.
pub fn bin_data_offset_ok(raw: &[u8]) -> (r: bool)
    ensures
        r == data_offset_in_file(raw@),
{
    let f = plain_bytes(raw);
    assert(f@.subrange(0, f@.len() as int) =~= f@);
    let n = f.len();
    if n < HEADER_SIZE || read_le32(f.as_slice(), 0) != MAGIC || read_le16(f.as_slice(), 16) as usize != ENTRY_SIZE {
        return true;
    }
    let count = read_le32(f.as_slice(), 8) as u64;
    if (n as u64) < HEADER_SIZE as u64 + ENTRY_SIZE as u64 * count {
        return true;
    }
    read_le32(f.as_slice(), 12) as u64 <= n as u64
}

impl Chiplib {
    /// Load a library from the bytes of a `chiplib.bin` file (obfuscated, or
    /// plain when it starts with `CHIP`). Refused when the header is short,
    /// has the wrong magic or entry size, or announces more entries than
    /// the file holds. The library is not checked further: see
    /// [`Chiplib::is_well_formed`].
    pub fn load_bin(raw: &[u8]) -> (r: Result<Chiplib, String>)
        requires
            data_offset_in_file(raw@),
        ensures
            r is Ok <==> header_valid(plain_file(raw@)),
            r matches Ok(lib) ==> {
                let f = plain_file(raw@);
                &&& lib.entries_view().len() == le32_at(f, 8)
                &&& forall|i: int| 0 <= i < lib.entries_view().len() ==> #[trigger] entry_stored(lib.entries_view()[i], f, HEADER_SIZE + ENTRY_SIZE * i)
                &&& lib.data_view() == f.subrange(le32_at(f, 12), f.len() as int)
                &&& lib.version_view() == le32_at(f, 4)
            },
    {
        let f = plain_bytes(raw);
        let n = f.len();
        if n < HEADER_SIZE {
            return Err("bin 文件太小".to_string());
        }
        if read_le32(f.as_slice(), 0) != MAGIC {
            return Err("魔术不匹配".to_string());
        }
        if read_le16(f.as_slice(), 16) as usize != ENTRY_SIZE {
            return Err("索引项大小不一致".to_string());
        }
        let count = read_le32(f.as_slice(), 8);
        if (n as u64) < HEADER_SIZE as u64 + ENTRY_SIZE as u64 * count as u64 {
            return Err("索引区不完整".to_string());
        }
        let mut entries: Vec<IndexEntry> = Vec::new();
        let mut k: u32 = 0;
        while k < count
            invariant
                k <= count,
                n == f@.len(),
                f@ == plain_file(raw@),
                n >= HEADER_SIZE + ENTRY_SIZE * count,
                entries@.len() == k,
                forall|i: int| 0 <= i < k ==> #[trigger] entry_stored(entries@[i], f@, HEADER_SIZE + ENTRY_SIZE * i),
            decreases count - k,
        {
            assert(HEADER_SIZE + ENTRY_SIZE * (k + 1) <= HEADER_SIZE + ENTRY_SIZE * count) by (nonlinear_arith)
                requires k < count;
            let at = HEADER_SIZE + ENTRY_SIZE * k as usize;
            let mut id = [0u8; 16];
            let mut j: usize = 0;
            while j < 16
                invariant
                    j <= 16,
                    n == f@.len(),
                    at + 24 <= f@.len(),
                    forall|t: int| 0 <= t < j ==> id@[t] == f@[at + t],
                decreases 16 - j,
            {
                id[j] = f[at + j];
                j = j + 1;
            }
            assert(id@ =~= f@.subrange(at as int, at + 16));
            let e = IndexEntry {
                id,
                data_offset: read_le32(f.as_slice(), at + 16),
                data_len: read_le16(f.as_slice(), at + 20),
                protocol: read_le16(f.as_slice(), at + 22),
            };
            entries.push(e);
            k = k + 1;
        }
        let off = read_le32(f.as_slice(), 12) as usize;
        let data = crate::firmware::copy_range(f.as_slice(), off, n);
        Ok(Chiplib { entries, data, version: read_le32(f.as_slice(), 4) })
    }

    /// Whether the index is sorted and every record lies inside the data
    /// section (see [`Chiplib::wf`]).
    pub fn is_well_formed(&self) -> (r: bool)
        ensures
            r == self.wf(),
    {
        let n = self.entries.len();
        let dl = self.data.len();
        let mut k: usize = 0;
        while k < n
            invariant
                k <= n,
                n == self.entries_view().len(),
                dl == self.data_view().len(),
                forall|i: int, j: int| 0 <= i < j < k ==> id_key(self.entries_view()[i].id@) <= id_key(self.entries_view()[j].id@),
                forall|i: int| 0 <= i < k ==> #[trigger] self.entries_view()[i].data_offset + self.entries_view()[i].data_len <= dl,
            decreases n - k,
        {
            let e = self.entries[k];
            if e.data_offset as u64 + e.data_len as u64 > dl as u64 {
                return false;
            }
            if k > 0 {
                let prev = self.entries[k - 1];
                if id_value(&prev.id) > id_value(&e.id) {
                    return false;
                }
            }
            k = k + 1;
        }
        true
    }
}

/// The little-endian bytes of a 32-bit value.
pub open spec fn le32_bytes(v: u32) -> Seq<u8> {
    seq![(v & 0xFF) as u8, ((v >> 8) & 0xFF) as u8, ((v >> 16) & 0xFF) as u8, ((v >> 24) & 0xFF) as u8]
}

/// The little-endian bytes of a 16-bit value.
pub open spec fn le16_bytes(v: u16) -> Seq<u8> {
    seq![(v & 0xFF) as u8, ((v >> 8) & 0xFF) as u8]
}

/// The stored form of an index entry.
pub open spec fn entry_bytes(e: IndexEntry) -> Seq<u8> {
    e.id@ + le32_bytes(e.data_offset) + le16_bytes(e.data_len) + le16_bytes(e.protocol)
}

/// The stored index.
pub open spec fn index_bytes(es: Seq<IndexEntry>) -> Seq<u8>
    decreases es.len(),
{
    if es.len() == 0 { Seq::empty() } else { index_bytes(es.drop_last()) + entry_bytes(es.last()) }
}

/// The stored header of a library of `n` entries.
pub open spec fn bin_header(version: u32, n: nat) -> Seq<u8> {
    le32_bytes(MAGIC) + le32_bytes(version) + le32_bytes((n % 0x1_0000_0000) as u32)
        + le32_bytes(((HEADER_SIZE + ENTRY_SIZE * n) % 0x1_0000_0000) as u32) + le16_bytes(ENTRY_SIZE as u16) + le16_bytes(0)
}

impl Chiplib {
    /// The plain (not yet obfuscated) bytes of the saved library: header,
    /// index, data section. The count and the data offset are stored as
    /// 32-bit values.
    pub open spec fn plain_bin(&self) -> Seq<u8> {
        bin_header(self.version_view(), self.entries_view().len()) + index_bytes(self.entries_view()) + self.data_view()
    }
}

fn push_le32(out: &mut Vec<u8>, v: u32)
    ensures
        final(out)@ == old(out)@ + le32_bytes(v),
{
    out.push((v & 0xFF) as u8);
    out.push(((v >> 8) & 0xFF) as u8);
    out.push(((v >> 16) & 0xFF) as u8);
    out.push(((v >> 24) & 0xFF) as u8);
    assert(final(out)@ =~= old(out)@ + le32_bytes(v));
}

fn push_le16(out: &mut Vec<u8>, v: u16)
    ensures
        final(out)@ == old(out)@ + le16_bytes(v),
{
    out.push((v & 0xFF) as u8);
    out.push(((v >> 8) & 0xFF) as u8);
    assert(final(out)@ =~= old(out)@ + le16_bytes(v));
}

impl Chiplib {
    /// The bytes of `chiplib.bin` for this library: header, index and data
    /// section, obfuscated as a whole (no plain copy is ever produced for
    /// storage).
    pub fn save_bin(&self) -> (r: Vec<u8>)
        ensures
            r@ == spec_obfuscate(self.plain_bin()),
    {
        let n = self.entries.len();
        let mut plain: Vec<u8> = Vec::new();
        push_le32(&mut plain, MAGIC);
        push_le32(&mut plain, self.version);
        push_le32(&mut plain, (n as u64 % 0x1_0000_0000) as u32);
        assert(24 * (n as u128) <= 24 * 0xFFFF_FFFF_FFFF_FFFFu128) by (nonlinear_arith)
            requires n as u128 <= 0xFFFF_FFFF_FFFF_FFFFu128;
        let off: u64 = ((20u128 + 24u128 * (n as u128)) % 0x1_0000_0000) as u64;
        push_le32(&mut plain, off as u32);
        push_le16(&mut plain, ENTRY_SIZE as u16);
        push_le16(&mut plain, 0);
        let ghost head = plain@;
        let mut k: usize = 0;
        while k < n
            invariant
                k <= n,
                n == self.entries_view().len(),
                plain@ == head + index_bytes(self.entries_view().take(k as int)),
            decreases n - k,
        {
            let e = self.entries[k];
            let mut j: usize = 0;
            let ghost before = plain@;
            while j < 16
                invariant
                    j <= 16,
                    plain@ == before + e.id@.take(j as int),
                decreases 16 - j,
            {
                plain.push(e.id[j]);
                assert(e.id@.take(j + 1) =~= e.id@.take(j as int).push(e.id@[j as int]));
                j = j + 1;
            }
            assert(e.id@.take(16) =~= e.id@);
            push_le32(&mut plain, e.data_offset);
            push_le16(&mut plain, e.data_len);
            push_le16(&mut plain, e.protocol);
            assert(self.entries_view().take(k + 1).drop_last() =~= self.entries_view().take(k as int));
            assert(plain@ =~= head + index_bytes(self.entries_view().take(k + 1)));
            k = k + 1;
        }
        assert(self.entries_view().take(n as int) =~= self.entries_view());
        crate::protocols::append(&mut plain, &self.data);
        assert(head =~= bin_header(self.version, n as nat));
        assert(plain@ =~= self.plain_bin());
        obfuscate(plain.as_slice())
    }
}

proof fn lemma_le32_bytes(v: u32, b: Seq<u8>, at: int)
    requires
        0 <= at,
        at + 4 <= b.len(),
        b.subrange(at, at + 4) == le32_bytes(v),
    ensures
        le32_at(b, at) == v,
{
    assert(b[at] == le32_bytes(v)[0] && b[at + 1] == le32_bytes(v)[1] && b[at + 2] == le32_bytes(v)[2] && b[at + 3] == le32_bytes(v)[3]);
    let b0 = (v & 0xFF) as u8;
    let b1 = ((v >> 8) & 0xFF) as u8;
    let b2 = ((v >> 16) & 0xFF) as u8;
    let b3 = ((v >> 24) & 0xFF) as u8;
    assert(b0 as u64 + b1 as u64 * 256 + b2 as u64 * 65536 + b3 as u64 * 16777216 == v as u64) by (bit_vector)
        requires
            b0 == (v & 0xFF) as u8,
            b1 == ((v >> 8) & 0xFF) as u8,
            b2 == ((v >> 16) & 0xFF) as u8,
            b3 == ((v >> 24) & 0xFF) as u8,
    ;
}

proof fn lemma_le16_bytes(v: u16, b: Seq<u8>, at: int)
    requires
        0 <= at,
        at + 2 <= b.len(),
        b.subrange(at, at + 2) == le16_bytes(v),
    ensures
        le16_at(b, at) == v,
{
    assert(b[at] == le16_bytes(v)[0] && b[at + 1] == le16_bytes(v)[1]);
    let b0 = (v & 0xFF) as u8;
    let b1 = ((v >> 8) & 0xFF) as u8;
    assert(b0 as u32 + b1 as u32 * 256 == v as u32) by (bit_vector)
        requires
            b0 == (v & 0xFF) as u8,
            b1 == ((v >> 8) & 0xFF) as u8,
    ;
}

#[verifier::spinoff_prover]
#[verifier::rlimit(40)]
proof fn lemma_index_bytes(es: Seq<IndexEntry>)
    ensures
        index_bytes(es).len() == ENTRY_SIZE * es.len(),
        forall|i: int| 0 <= i < es.len() ==> #[trigger] index_bytes(es).subrange(ENTRY_SIZE * i, ENTRY_SIZE * i + ENTRY_SIZE) == entry_bytes(es[i]),
    decreases es.len(),
{
    if es.len() > 0 {
        let p = es.drop_last();
        lemma_index_bytes(p);
        let e = es.last();
        assert(entry_bytes(e).len() == ENTRY_SIZE);
        let full = index_bytes(es);
        assert(full == index_bytes(p) + entry_bytes(e));
        assert forall|i: int| 0 <= i < es.len() implies #[trigger] full.subrange(ENTRY_SIZE * i, ENTRY_SIZE * i + ENTRY_SIZE) == entry_bytes(es[i]) by {
            if i < p.len() {
                assert(ENTRY_SIZE * i + ENTRY_SIZE <= ENTRY_SIZE * p.len()) by (nonlinear_arith)
                    requires i < p.len();
                assert(full.subrange(ENTRY_SIZE * i, ENTRY_SIZE * i + ENTRY_SIZE) =~= index_bytes(p).subrange(ENTRY_SIZE * i, ENTRY_SIZE * i + ENTRY_SIZE));
                assert(es[i] == p[i]);
            } else {
                assert(full.subrange(ENTRY_SIZE * i, ENTRY_SIZE * i + ENTRY_SIZE) =~= entry_bytes(e));
            }
        }
    }
}

#[verifier::spinoff_prover]
#[verifier::rlimit(40)]
proof fn lemma_header_fields(version: u32, n: nat, rest: Seq<u8>)
    requires
        HEADER_SIZE + ENTRY_SIZE * n < 0x1_0000_0000,
    ensures
        bin_header(version, n).len() == HEADER_SIZE,
        le32_at(bin_header(version, n) + rest, 0) == MAGIC,
        le32_at(bin_header(version, n) + rest, 4) == version,
        le32_at(bin_header(version, n) + rest, 8) == n,
        le32_at(bin_header(version, n) + rest, 12) == HEADER_SIZE + ENTRY_SIZE * n,
        le16_at(bin_header(version, n) + rest, 16) == ENTRY_SIZE,
{
    let p = bin_header(version, n) + rest;
    assert(p.subrange(0, 4) =~= le32_bytes(MAGIC));
    lemma_le32_bytes(MAGIC, p, 0);
    assert(p.subrange(4, 8) =~= le32_bytes(version));
    lemma_le32_bytes(version, p, 4);
    assert(p.subrange(8, 12) =~= le32_bytes((n % 0x1_0000_0000) as u32));
    lemma_le32_bytes((n % 0x1_0000_0000) as u32, p, 8);
    assert(p.subrange(12, 16) =~= le32_bytes(((HEADER_SIZE + ENTRY_SIZE * n) % 0x1_0000_0000) as u32));
    lemma_le32_bytes(((HEADER_SIZE + ENTRY_SIZE * n) % 0x1_0000_0000) as u32, p, 12);
    assert(p.subrange(16, 18) =~= le16_bytes(ENTRY_SIZE as u16));
    lemma_le16_bytes(ENTRY_SIZE as u16, p, 16);
}

#[verifier::spinoff_prover]
#[verifier::rlimit(40)]
proof fn lemma_entry_fields(f: Seq<u8>, at: int, e: IndexEntry, loaded: IndexEntry)
    requires
        0 <= at,
        at + 24 <= f.len(),
        f.subrange(at, at + 24) == entry_bytes(e),
        entry_stored(loaded, f, at),
    ensures
        loaded.id@ == e.id@,
        loaded.data_offset == e.data_offset,
        loaded.data_len == e.data_len,
        loaded.protocol == e.protocol,
{
    let eb = entry_bytes(e);
    assert(e.id@.len() == 16);
    assert(eb.len() == 24);
    assert(f.subrange(at, at + 16) =~= eb.subrange(0, 16));
    assert(eb.subrange(0, 16) =~= e.id@);
    assert(f.subrange(at + 16, at + 20) =~= eb.subrange(16, 20));
    assert(eb.subrange(16, 20) =~= le32_bytes(e.data_offset));
    lemma_le32_bytes(e.data_offset, f, at + 16);
    assert(f.subrange(at + 20, at + 22) =~= eb.subrange(20, 22));
    assert(eb.subrange(20, 22) =~= le16_bytes(e.data_len));
    lemma_le16_bytes(e.data_len, f, at + 20);
    assert(f.subrange(at + 22, at + 24) =~= eb.subrange(22, 24));
    assert(eb.subrange(22, 24) =~= le16_bytes(e.protocol));
    lemma_le16_bytes(e.protocol, f, at + 22);
}

#[verifier::spinoff_prover]
#[verifier::rlimit(40)]
proof fn lemma_stored_entry(lib: Chiplib, plain: Seq<u8>, ib: Seq<u8>, i: int)
    requires
        ib == index_bytes(lib.entries_view()),
        ib.len() == ENTRY_SIZE * lib.entries_view().len(),
        forall|k: int| 0 <= k < lib.entries_view().len() ==> #[trigger] ib.subrange(ENTRY_SIZE * k, ENTRY_SIZE * k + ENTRY_SIZE) == entry_bytes(lib.entries_view()[k]),
        plain == bin_header(lib.version_view(), lib.entries_view().len()) + (ib + lib.data_view()),
        bin_header(lib.version_view(), lib.entries_view().len()).len() == HEADER_SIZE,
        0 <= i < lib.entries_view().len(),
    ensures
        HEADER_SIZE + ENTRY_SIZE * i + 24 <= plain.len(),
        plain.subrange(HEADER_SIZE + ENTRY_SIZE * i, HEADER_SIZE + ENTRY_SIZE * i + 24) == entry_bytes(lib.entries_view()[i]),
{
    let n = lib.entries_view().len();
    assert(ENTRY_SIZE * i + ENTRY_SIZE <= ENTRY_SIZE * n) by (nonlinear_arith)
        requires i < n;
    assert(ib.subrange(ENTRY_SIZE * i, ENTRY_SIZE * i + ENTRY_SIZE) == entry_bytes(lib.entries_view()[i]));
    assert(plain.subrange(HEADER_SIZE + ENTRY_SIZE * i, HEADER_SIZE + ENTRY_SIZE * i + 24) =~= ib.subrange(ENTRY_SIZE * i, ENTRY_SIZE * i + ENTRY_SIZE));
}

/// Saving then loading gives the library back: the saved file (when its
/// first bytes do not happen to read `CHIP`, and the index size fits the
/// 32-bit header fields) is accepted by [`Chiplib::load_bin`], and
/// any library loaded from it has the same index entries, data section and
/// version.
#[verifier::spinoff_prover]
#[verifier::rlimit(40)]
pub proof fn lemma_bin_round_trip(lib: Chiplib, loaded: Chiplib)
    requires
        HEADER_SIZE + ENTRY_SIZE * lib.entries_view().len() < 0x1_0000_0000,
        !starts_with_magic(spec_obfuscate(lib.plain_bin())),
        ({
            let f = plain_file(spec_obfuscate(lib.plain_bin()));
            &&& loaded.entries_view().len() == le32_at(f, 8)
            &&& forall|i: int| 0 <= i < loaded.entries_view().len() ==> #[trigger] entry_stored(loaded.entries_view()[i], f, HEADER_SIZE + ENTRY_SIZE * i)
            &&& loaded.data_view() == f.subrange(le32_at(f, 12), f.len() as int)
            &&& loaded.version_view() == le32_at(f, 4)
        }),
    ensures
        header_valid(plain_file(spec_obfuscate(lib.plain_bin()))),
        data_offset_in_file(spec_obfuscate(lib.plain_bin())),
        loaded.entries_view().len() == lib.entries_view().len(),
        forall|i: int| 0 <= i < lib.entries_view().len() ==> {
            &&& #[trigger] loaded.entries_view()[i].id@ == lib.entries_view()[i].id@
            &&& loaded.entries_view()[i].data_offset == lib.entries_view()[i].data_offset
            &&& loaded.entries_view()[i].data_len == lib.entries_view()[i].data_len
            &&& loaded.entries_view()[i].protocol == lib.entries_view()[i].protocol
        },
        loaded.data_view() == lib.data_view(),
        loaded.version_view() == lib.version_view(),
{
    let plain = lib.plain_bin();
    lemma_obfuscation_round_trip(plain);
    let n = lib.entries_view().len();
    let ib = index_bytes(lib.entries_view());
    lemma_index_bytes(lib.entries_view());
    lemma_header_fields(lib.version_view(), n, ib + lib.data_view());
    assert(plain =~= bin_header(lib.version_view(), n) + (ib + lib.data_view()));
    assert(plain.subrange(HEADER_SIZE + ENTRY_SIZE * n, plain.len() as int) =~= lib.data_view());
    assert forall|i: int| 0 <= i < n implies {
        &&& #[trigger] loaded.entries_view()[i].id@ == lib.entries_view()[i].id@
        &&& loaded.entries_view()[i].data_offset == lib.entries_view()[i].data_offset
        &&& loaded.entries_view()[i].data_len == lib.entries_view()[i].data_len
        &&& loaded.entries_view()[i].protocol == lib.entries_view()[i].protocol
    } by {
        lemma_stored_entry(lib, plain, ib, i);
        lemma_entry_fields(plain, HEADER_SIZE + ENTRY_SIZE * i, lib.entries_view()[i], loaded.entries_view()[i]);
    }
}

// ── enrichment from IMSProg.Dat ─────────────────────────────────────────────

/// The text of an id field: its bytes up to the first NUL, one character
/// per byte.
pub open spec fn id_text(id: Seq<u8>) -> Seq<char> {
    Seq::new(find_byte(id, 0u8, 0) as nat, |i: int| id[i] as char)
}

/// The matching key of a table chip: normalised manufacturer and model.
pub open spec fn dat_key(c: DatChip) -> Seq<char> {
    norm(c.manufacturer@) + seq!['|'] + norm(c.model@)
}

/// The matching key of a database record: normalised vendor and model.
pub open spec fn record_key(attrs: AttrPairs) -> Seq<char> {
    norm(text_or_empty(lookup(attrs, "vendor"@))) + seq!['|'] + norm(text_or_empty(lookup(attrs, "model"@)))
}

/// The first of the first `n` chips whose id is `id`.
pub open spec fn first_with_id(chips: Seq<DatChip>, id: Seq<char>, n: int) -> Option<int>
    decreases n,
{
    if n <= 0 {
        None
    } else {
        match first_with_id(chips, id, n - 1) {
            Some(i) => Some(i),
            None => if chips[n - 1].id@ == id { Some(n - 1) } else { None },
        }
    }
}

/// The first of the first `n` chips whose key is `key`.
pub open spec fn first_with_key(chips: Seq<DatChip>, key: Seq<char>, n: int) -> Option<int>
    decreases n,
{
    if n <= 0 {
        None
    } else {
        match first_with_key(chips, key, n - 1) {
            Some(i) => Some(i),
            None => if dat_key(chips[n - 1]) == key { Some(n - 1) } else { None },
        }
    }
}

/// The table chip matched to a record: by id (`true`) when the entry has an
/// id listed in the table, else by vendor and model (`false`).
pub open spec fn dat_match(chips: Seq<DatChip>, id: Seq<char>, attrs: AttrPairs) -> Option<(int, bool)> {
    if id.len() > 0 && first_with_id(chips, id, chips.len() as int) is Some {
        Some((first_with_id(chips, id, chips.len() as int)->0, true))
    } else {
        match first_with_key(chips, record_key(attrs), chips.len() as int) {
            Some(i) => Some((i, false)),
            None => None,
        }
    }
}

/// Set `key` to `value` when `cond` holds and `key` is missing.
pub open spec fn put_missing(m: AttrPairs, cond: bool, key: Seq<char>, value: Seq<char>) -> AttrPairs {
    if cond && lookup(m, key) is None { set_attr(m, key, value) } else { m }
}

/// The attributes a table chip adds to a record: sector, block, timing
/// (when nonzero), algorithm, 4-byte mode, and the supply voltage (when
/// known), each only where the record lacks it.
pub open spec fn dat_fill(m: AttrPairs, c: DatChip) -> AttrPairs {
    let m1 = put_missing(m, c.sector > 0, "sector"@, decimal(c.sector as nat));
    let m2 = put_missing(m1, c.block > 0, "block"@, decimal(c.block as nat));
    let m3 = put_missing(m2, true, "algorithm"@, decimal(c.algorithm as nat));
    let m4 = put_missing(m3, true, "addr4bit"@, decimal(c.addr4bit as nat));
    let m5 = put_missing(m4, c.timing > 0, "timing"@, decimal(c.timing as nat));
    match c.vcc {
        Some(v) => put_missing(m5, true, "vcc"@, v@),
        None => m5,
    }
}

proof fn lemma_put_missing(m: AttrPairs, cond: bool, key: Seq<char>, value: Seq<char>, q: Seq<char>)
    requires
        keys_unique(m),
    ensures
        keys_unique(put_missing(m, cond, key, value)),
        lookup(m, q) is Some ==> lookup(put_missing(m, cond, key, value), q) == lookup(m, q),
        put_missing(m, cond, key, value).len() >= m.len(),
{
    lemma_set_attr_lookup(m, key, value, q);
    if cond && lookup(m, key) is None {
        if exists|i: int| 0 <= i < m.len() && m[i].0 == key {
            let i = choose|i: int| 0 <= i < m.len() && m[i].0 == key;
            lemma_lookup_unique(m, key);
        }
    }
}

/// Enrichment never overwrites: every attribute a record already has keeps
/// its value.
pub proof fn lemma_dat_fill_keeps(m: AttrPairs, c: DatChip, q: Seq<char>)
    requires
        keys_unique(m),
        lookup(m, q) is Some,
    ensures
        lookup(dat_fill(m, c), q) == lookup(m, q),
        keys_unique(dat_fill(m, c)),
{
    let m1 = put_missing(m, c.sector > 0, "sector"@, decimal(c.sector as nat));
    lemma_put_missing(m, c.sector > 0, "sector"@, decimal(c.sector as nat), q);
    let m2 = put_missing(m1, c.block > 0, "block"@, decimal(c.block as nat));
    lemma_put_missing(m1, c.block > 0, "block"@, decimal(c.block as nat), q);
    let m3 = put_missing(m2, true, "algorithm"@, decimal(c.algorithm as nat));
    lemma_put_missing(m2, true, "algorithm"@, decimal(c.algorithm as nat), q);
    let m4 = put_missing(m3, true, "addr4bit"@, decimal(c.addr4bit as nat));
    lemma_put_missing(m3, true, "addr4bit"@, decimal(c.addr4bit as nat), q);
    let m5 = put_missing(m4, c.timing > 0, "timing"@, decimal(c.timing as nat));
    lemma_put_missing(m4, c.timing > 0, "timing"@, decimal(c.timing as nat), q);
    match c.vcc {
        Some(v) => {
            lemma_put_missing(m5, true, "vcc"@, v@, q);
        },
        None => {},
    }
}

impl Chiplib {
    /// The table chip matched to entry `k` (see [`dat_match`]).
    pub open spec fn dat_match_at(&self, chips: Seq<DatChip>, k: int) -> Option<(int, bool)> {
        dat_match(chips, id_text(self.entries_view()[k].id@), self.attrs_at(k))
    }

    /// Whether the matched chip adds anything to entry `k`.
    pub open spec fn dat_changes(&self, chips: Seq<DatChip>, k: int) -> bool {
        match self.dat_match_at(chips, k) {
            Some((i, _)) => dat_fill(self.attrs_at(k), chips[i]).len() > self.attrs_at(k).len(),
            None => false,
        }
    }

    /// Entries among the first `n` matched by id (`by_id`) or by name.
    pub open spec fn count_matched(&self, chips: Seq<DatChip>, n: int, by_id: bool) -> nat
        decreases n,
    {
        if n <= 0 {
            0
        } else {
            self.count_matched(chips, n - 1, by_id) + (match self.dat_match_at(chips, n - 1) {
                Some((_, b)) => if b == by_id { 1nat } else { 0nat },
                None => 0nat,
            })
        }
    }

    /// Entries among the first `n` that the table changes.
    pub open spec fn count_changed(&self, chips: Seq<DatChip>, n: int) -> nat
        decreases n,
    {
        if n <= 0 {
            0
        } else {
            self.count_changed(chips, n - 1) + (if self.dat_changes(chips, n - 1) { 1nat } else { 0nat })
        }
    }
}

fn id_chars(id: &[u8; 16]) -> (r: Vec<char>)
    ensures
        r@ == id_text(id@),
{
    proof {
        lemma_find_byte(id@, 0u8, 0);
    }
    let mut out: Vec<char> = Vec::new();
    let mut i: usize = 0;
    while i < 16 && id[i] != 0
        invariant
            i <= 16,
            find_byte(id@, 0u8, 0) == find_byte(id@, 0u8, i as int),
            out@ == Seq::new(i as nat, |j: int| id@[j] as char),
        decreases 16 - i,
    {
        out.push(id[i] as char);
        i = i + 1;
        assert(out@ =~= Seq::new(i as nat, |j: int| id@[j] as char));
    }
    assert(find_byte(id@, 0u8, i as int) == i);
    out
}

fn dat_key_of(c: &DatChip) -> (r: Vec<char>)
    ensures
        r@ == dat_key(*c),
{
    let mut k = crate::unicode::norm_chars(chars_of(c.manufacturer.as_str()).as_slice());
    k.push('|');
    let m = crate::unicode::norm_chars(chars_of(c.model.as_str()).as_slice());
    crate::unicode::append_chars(&mut k, &m);
    k
}

fn record_key_of(attrs: &Vec<(String, String)>) -> (r: Vec<char>)
    requires
        keys_unique(pairs_view(attrs@)),
    ensures
        r@ == record_key(pairs_view(attrs@)),
{
    let vendor = text_attr(attrs, "vendor");
    let model = text_attr(attrs, "model");
    let mut k = crate::unicode::norm_chars(chars_of(vendor.as_str()).as_slice());
    k.push('|');
    let m = crate::unicode::norm_chars(chars_of(model.as_str()).as_slice());
    crate::unicode::append_chars(&mut k, &m);
    k
}

/// The first chip whose id text is `id`.
fn find_dat_id(ids: &Vec<Vec<char>>, id: &Vec<char>, Ghost(chips): Ghost<Seq<DatChip>>) -> (r: Option<usize>)
    requires
        ids@.len() == chips.len(),
        forall|j: int| 0 <= j < chips.len() ==> #[trigger] ids@[j]@ == chips[j].id@,
    ensures
        match r {
            Some(i) => first_with_id(chips, id@, chips.len() as int) == Some(i as int) && i < chips.len(),
            None => first_with_id(chips, id@, chips.len() as int) is None,
        },
{
    let n = ids.len();
    let mut i: usize = 0;
    while i < n
        invariant
            i <= n,
            n == chips.len(),
            ids@.len() == chips.len(),
            forall|j: int| 0 <= j < chips.len() ==> #[trigger] ids@[j]@ == chips[j].id@,
            first_with_id(chips, id@, i as int) is None,
        decreases n - i,
    {
        if crate::ch34x_sidecar::chars_eq(ids[i].as_slice(), id.as_slice()) {
            assert(first_with_id(chips, id@, i + 1) == Some(i as int));
            proof {
                lemma_first_stays(chips, id@, i + 1, n as int);
            }
            return Some(i);
        }
        i = i + 1;
    }
    None
}

/// The first chip whose matching key is `key`.
fn find_dat_key(keys: &Vec<Vec<char>>, key: &Vec<char>, Ghost(chips): Ghost<Seq<DatChip>>) -> (r: Option<usize>)
    requires
        keys@.len() == chips.len(),
        forall|j: int| 0 <= j < chips.len() ==> #[trigger] keys@[j]@ == dat_key(chips[j]),
    ensures
        match r {
            Some(i) => first_with_key(chips, key@, chips.len() as int) == Some(i as int) && i < chips.len(),
            None => first_with_key(chips, key@, chips.len() as int) is None,
        },
{
    let n = keys.len();
    let mut i: usize = 0;
    while i < n
        invariant
            i <= n,
            n == chips.len(),
            keys@.len() == chips.len(),
            forall|j: int| 0 <= j < chips.len() ==> #[trigger] keys@[j]@ == dat_key(chips[j]),
            first_with_key(chips, key@, i as int) is None,
        decreases n - i,
    {
        if crate::ch34x_sidecar::chars_eq(keys[i].as_slice(), key.as_slice()) {
            assert(first_with_key(chips, key@, i + 1) == Some(i as int));
            proof {
                lemma_first_key_stays(chips, key@, i + 1, n as int);
            }
            return Some(i);
        }
        i = i + 1;
    }
    None
}

/// The table chip matched to a record with id text `id` and attributes
/// `attrs` (see [`dat_match`]), given the chips' id texts and keys.
fn find_dat_match(ids: &Vec<Vec<char>>, keys: &Vec<Vec<char>>, id: &Vec<char>, attrs: &Vec<(String, String)>, Ghost(chips): Ghost<Seq<DatChip>>) -> (r: Option<(usize, bool)>)
    requires
        keys_unique(pairs_view(attrs@)),
        ids@.len() == chips.len(),
        keys@.len() == chips.len(),
        forall|j: int| 0 <= j < chips.len() ==> #[trigger] ids@[j]@ == chips[j].id@,
        forall|j: int| 0 <= j < chips.len() ==> #[trigger] keys@[j]@ == dat_key(chips[j]),
    ensures
        match r {
            Some((i, b)) => dat_match(chips, id@, pairs_view(attrs@)) == Some((i as int, b)) && i < chips.len(),
            None => dat_match(chips, id@, pairs_view(attrs@)) is None,
        },
{
    if id.len() > 0 {
        match find_dat_id(ids, id, Ghost(chips)) {
            Some(i) => {
                return Some((i, true));
            },
            None => {},
        }
    }
    let key = record_key_of(attrs);
    match find_dat_key(keys, &key, Ghost(chips)) {
        Some(i) => Some((i, false)),
        None => None,
    }
}

proof fn lemma_first_stays(chips: Seq<DatChip>, id: Seq<char>, a: int, b: int)
    requires
        0 <= a <= b,
        first_with_id(chips, id, a) is Some,
    ensures
        first_with_id(chips, id, b) == first_with_id(chips, id, a),
    decreases b - a,
{
    if a < b {
        lemma_first_stays(chips, id, a, b - 1);
    }
}

proof fn lemma_first_key_stays(chips: Seq<DatChip>, key: Seq<char>, a: int, b: int)
    requires
        0 <= a <= b,
        first_with_key(chips, key, a) is Some,
    ensures
        first_with_key(chips, key, b) == first_with_key(chips, key, a),
    decreases b - a,
{
    if a < b {
        lemma_first_key_stays(chips, key, a, b - 1);
    }
}

/// Set `key` to `value` when `cond` holds and `key` is missing.
fn put_missing_exec(attrs: &mut Vec<(String, String)>, cond: bool, key: &str, value: String)
    requires
        keys_unique(pairs_view(old(attrs)@)),
    ensures
        keys_unique(pairs_view(final(attrs)@)),
        pairs_view(final(attrs)@) == put_missing(pairs_view(old(attrs)@), cond, key@, value@),
{
    if cond {
        match first_value(attrs, key) {
            Some(_) => {},
            None => {
                insert_attr(attrs, String::from_str(key), value);
            },
        }
    }
}

/// Add what chip `c` knows and the record lacks (see [`dat_fill`]).
fn fill_from_dat(attrs: &mut Vec<(String, String)>, c: &DatChip)
    requires
        keys_unique(pairs_view(old(attrs)@)),
    ensures
        keys_unique(pairs_view(final(attrs)@)),
        pairs_view(final(attrs)@) == dat_fill(pairs_view(old(attrs)@), *c),
{
    put_missing_exec(attrs, c.sector > 0, "sector", crate::devcore::decimal_string(c.sector as u64));
    put_missing_exec(attrs, c.block > 0, "block", crate::devcore::decimal_string(c.block as u64));
    put_missing_exec(attrs, true, "algorithm", crate::devcore::decimal_string(c.algorithm as u64));
    put_missing_exec(attrs, true, "addr4bit", crate::devcore::decimal_string(c.addr4bit as u64));
    put_missing_exec(attrs, c.timing > 0, "timing", crate::devcore::decimal_string(c.timing as u64));
    match &c.vcc {
        Some(v) => put_missing_exec(attrs, true, "vcc", v.clone()),
        None => {},
    }
}

impl Chiplib {
    /// Entry `j` points at `blob`, stored at some offset of the data
    /// section (the entry keeps the offset modulo 2^32 and the length
    /// modulo 2^16).
    pub open spec fn holds_record(&self, j: int, blob: Seq<u8>) -> bool {
        exists|o: int| #![trigger self.data_view().subrange(o, o + blob.len())]
            0 <= o && o + blob.len() <= self.data_view().len()
            && self.data_view().subrange(o, o + blob.len()) == blob
            && self.entries_view()[j].data_offset == (o % 0x1_0000_0000) as u32
            && self.entries_view()[j].data_len == (blob.len() % 0x10000) as u16
    }

    /// Entry `j` of `self` is entry `j` of `orig` after enrichment from
    /// `chips`: same id and protocol; a changed record is the canonical
    /// record of the filled attributes, an unchanged entry is untouched.
    pub open spec fn enriched(&self, orig: Chiplib, chips: Seq<DatChip>, j: int) -> bool {
        &&& self.entries_view()[j].id == orig.entries_view()[j].id
        &&& self.entries_view()[j].protocol == orig.entries_view()[j].protocol
        &&& if orig.dat_changes(chips, j) {
            exists|blob: Seq<u8>|
                #[trigger] canonical_record(dat_fill(orig.attrs_at(j), chips[(orig.dat_match_at(chips, j)->0).0]), blob)
                && self.holds_record(j, blob)
        } else {
            self.entries_view()[j] == orig.entries_view()[j]
        }
    }

    /// Enrich entry `k` from the table; `orig` is the library before the
    /// enrichment started. Returns how the entry was matched (`Some(true)`
    /// by id) and whether it changed.
    #[verifier::rlimit(40)]
    fn enrich_entry(
        &mut self,
        k: usize,
        chips: &Vec<DatChip>,
        ids: &Vec<Vec<char>>,
        keys: &Vec<Vec<char>>,
        Ghost(orig): Ghost<Chiplib>,
    ) -> (r: (Option<bool>, bool))
        requires
            old(self).wf(),
            orig.wf(),
            k < old(self).entries_view().len(),
            old(self).entries_view().len() == orig.entries_view().len(),
            old(self).entries_view()[k as int] == orig.entries_view()[k as int],
            orig.data_view().len() <= old(self).data_view().len(),
            old(self).data_view().subrange(0, orig.data_view().len() as int) == orig.data_view(),
            ids@.len() == chips@.len(),
            keys@.len() == chips@.len(),
            forall|j: int| 0 <= j < chips@.len() ==> #[trigger] ids@[j]@ == chips@[j].id@,
            forall|j: int| 0 <= j < chips@.len() ==> #[trigger] keys@[j]@ == dat_key(chips@[j]),
        ensures
            final(self).wf(),
            final(self).version_view() == old(self).version_view(),
            final(self).entries_view().len() == old(self).entries_view().len(),
            forall|j: int| 0 <= j < old(self).entries_view().len() && j != k ==> final(self).entries_view()[j] == old(self).entries_view()[j],
            old(self).data_view().len() <= final(self).data_view().len(),
            final(self).data_view().subrange(0, old(self).data_view().len() as int) == old(self).data_view(),
            final(self).enriched(orig, chips@, k as int),
            r.0 == (match orig.dat_match_at(chips@, k as int) {
                Some((_, b)) => Some(b),
                None => None,
            }),
            r.1 == orig.dat_changes(chips@, k as int),
    {
        let e = self.entries[k];
        proof {
            reveal(Chiplib::attrs_at);
            assert(record_of(self.data@, e) =~= record_of(orig.data@, e));
        }
        let mut attrs = self.entry_attrs(k);
        assert(pairs_view(attrs@) == orig.attrs_at(k as int));
        let idt = id_chars(&e.id);
        let m = find_dat_match(ids, keys, &idt, &attrs, Ghost(chips@));
        match m {
            None => {
                (None, false)
            },
            Some((i, by_id)) => {
                let before = attrs.len();
                fill_from_dat(&mut attrs, &chips[i]);
                if attrs.len() > before {
                    let blob = canonical_blob(&attrs);
                    let dl = self.data.len();
                    let offset = (dl as u64 % 0x1_0000_0000) as u32;
                    let len16 = (blob.len() as u64 % 0x10000) as u16;
                    assert(offset as int <= dl as int);
                    assert(len16 as int <= blob@.len());
                    let ne = IndexEntry { id: e.id, data_offset: offset, data_len: len16, protocol: e.protocol };
                    let ghost d0 = self.data@;
                    self.entries.set(k, ne);
                    crate::protocols::append(&mut self.data, &blob);
                    assert(self.data@.subrange(0, d0.len() as int) =~= d0);
                    assert(self.data@.subrange(dl as int, dl + blob@.len()) =~= blob@);
                    assert(self.data_view().subrange(dl as int, dl + blob@.len()) == blob@);
                    assert(self.entries_view()[k as int].data_offset == ((dl as int) % 0x1_0000_0000) as u32);
                    assert(self.holds_record(k as int, blob@));
                    (Some(by_id), true)
                } else {
                    (Some(by_id), false)
                }
            },
        }
    }
}

proof fn lemma_enriched_stays(a: Chiplib, b: Chiplib, orig: Chiplib, chips: Seq<DatChip>, j: int)
    requires
        a.enriched(orig, chips, j),
        0 <= j < a.entries_view().len(),
        b.entries_view().len() == a.entries_view().len(),
        b.entries_view()[j] == a.entries_view()[j],
        a.data_view().len() <= b.data_view().len(),
        b.data_view().subrange(0, a.data_view().len() as int) == a.data_view(),
    ensures
        b.enriched(orig, chips, j),
{
    if orig.dat_changes(chips, j) {
        let blob = choose|blob: Seq<u8>|
            #[trigger] canonical_record(dat_fill(orig.attrs_at(j), chips[(orig.dat_match_at(chips, j)->0).0]), blob)
            && a.holds_record(j, blob);
        let o = choose|o: int| #![trigger a.data_view().subrange(o, o + blob.len())]
            0 <= o && o + blob.len() <= a.data_view().len()
            && a.data_view().subrange(o, o + blob.len()) == blob
            && a.entries_view()[j].data_offset == (o % 0x1_0000_0000) as u32
            && a.entries_view()[j].data_len == (blob.len() % 0x10000) as u16;
        assert(b.data_view().subrange(o, o + blob.len()) =~= a.data_view().subrange(o, o + blob.len()));
        assert(b.holds_record(j, blob));
    }
}

impl Chiplib {
    /// Enrich the library from an `IMSProg.Dat` table (68-byte records).
    ///
    /// Each entry is matched to a table chip, first by its JEDEC id, then by
    /// normalised vendor and model name. Only attributes the entry lacks
    /// are added (sector, block, algorithm, 4-byte mode, timing, supply
    /// voltage), so values already there are never overwritten; a changed
    /// entry gets a canonical record appended to the data section. The
    /// version becomes 20260101.
    #[verifier::rlimit(40)]
    pub fn import_imsprog_dat(&mut self, dat: &[u8]) -> (stats: ImportStats)
        requires
            old(self).wf(),
        ensures
            final(self).wf(),
            final(self).version_view() == 20260101,
            final(self).entries_view().len() == old(self).entries_view().len(),
            exists|chips: Seq<DatChip>| {
                &&& chips.len() == crate::imsprog_dat::dat_records(dat@, 0).len()
                &&& (forall|k: int| 0 <= k < chips.len() ==> #[trigger] crate::imsprog_dat::dat_chip_of(chips[k], crate::imsprog_dat::dat_records(dat@, 0)[k]))
                &&& stats.dat_records == chips.len()
                &&& stats.matched_by_id == old(self).count_matched(chips, old(self).entries_view().len() as int, true)
                &&& stats.matched_by_name == old(self).count_matched(chips, old(self).entries_view().len() as int, false)
                &&& stats.entries_updated == old(self).count_changed(chips, old(self).entries_view().len() as int)
                &&& forall|j: int| 0 <= j < old(self).entries_view().len() ==> #[trigger] final(self).enriched(*old(self), chips, j)
            },
    {
        let ghost orig = *self;
        let chips = crate::imsprog_dat::parse_dat_records(dat);
        let mut ids: Vec<Vec<char>> = Vec::new();
        let mut keys: Vec<Vec<char>> = Vec::new();
        let mut c: usize = 0;
        while c < chips.len()
            invariant
                c <= chips@.len(),
                ids@.len() == c,
                keys@.len() == c,
                forall|j: int| 0 <= j < c ==> #[trigger] ids@[j]@ == chips@[j].id@,
                forall|j: int| 0 <= j < c ==> #[trigger] keys@[j]@ == dat_key(chips@[j]),
            decreases chips@.len() - c,
        {
            ids.push(chars_of(chips[c].id.as_str()));
            keys.push(dat_key_of(&chips[c]));
            c = c + 1;
        }
        let n = self.entries.len();
        let mut by_id: usize = 0;
        let mut by_name: usize = 0;
        let mut updated: usize = 0;
        let mut k: usize = 0;
        while k < n
            invariant
                k <= n,
                n == orig.entries_view().len(),
                orig.wf(),
                self.wf(),
                self.version_view() == orig.version_view(),
                self.entries_view().len() == n,
                orig.data_view().len() <= self.data_view().len(),
                self.data_view().subrange(0, orig.data_view().len() as int) == orig.data_view(),
                forall|j: int| k <= j < n ==> self.entries_view()[j] == orig.entries_view()[j],
                forall|j: int| 0 <= j < k ==> #[trigger] self.enriched(orig, chips@, j),
                by_id == orig.count_matched(chips@, k as int, true),
                by_name == orig.count_matched(chips@, k as int, false),
                updated == orig.count_changed(chips@, k as int),
                by_id <= k && by_name <= k && updated <= k,
                ids@.len() == chips@.len(),
                keys@.len() == chips@.len(),
                forall|j: int| 0 <= j < chips@.len() ==> #[trigger] ids@[j]@ == chips@[j].id@,
                forall|j: int| 0 <= j < chips@.len() ==> #[trigger] keys@[j]@ == dat_key(chips@[j]),
            decreases n - k,
        {
            let ghost before = *self;
            let (matched, changed) = self.enrich_entry(k, &chips, &ids, &keys, Ghost(orig));
            proof {
                assert forall|j: int| 0 <= j < k implies #[trigger] self.enriched(orig, chips@, j) by {
                    lemma_enriched_stays(before, *self, orig, chips@, j);
                }
                assert(before.data_view().subrange(0, orig.data_view().len() as int) == orig.data_view());
                assert(self.data_view().subrange(0, orig.data_view().len() as int) =~= orig.data_view()) by {
                    assert(self.data_view().subrange(0, before.data_view().len() as int) == before.data_view());
                    assert(self.data_view().subrange(0, orig.data_view().len() as int) =~= before.data_view().subrange(0, orig.data_view().len() as int));
                }
            }
            match matched {
                Some(true) => {
                    by_id = by_id + 1;
                },
                Some(false) => {
                    by_name = by_name + 1;
                },
                None => {},
            }
            if changed {
                updated = updated + 1;
            }
            k = k + 1;
        }
        let ghost done = *self;
        self.version = 20260101;
        let stats = ImportStats { dat_records: chips.len(), matched_by_id: by_id, matched_by_name: by_name, entries_updated: updated };
        proof {
            assert(self.data_view().subrange(0, done.data_view().len() as int) =~= done.data_view());
            assert forall|j: int| 0 <= j < n implies #[trigger] self.enriched(orig, chips@, j) by {
                lemma_enriched_stays(done, *self, orig, chips@, j);
            }
        }
        stats
    }
}

impl Chiplib {
    /// A library made of an index, a data section and a version.
    pub(crate) fn from_parts(entries: Vec<IndexEntry>, data: Vec<u8>, version: u32) -> (l: Chiplib)
        ensures
            l.entries_view() == entries@,
            l.data_view() == data@,
            l.version_view() == version,
    {
        Chiplib { entries, data, version }
    }
}

} // verus!
