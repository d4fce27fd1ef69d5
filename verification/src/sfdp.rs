//! SFDP (Serial Flash Discoverable Parameters, JEDEC JESD216) parsing.
//!
//! Only the mandatory header and the Basic Flash Parameter Table are parsed:
//! that is enough to size and program an otherwise unknown SPI NOR chip.
//! The parsers are transport agnostic; [`discover_sfdp`] takes a reader that
//! performs an SFDP read (opcode 0x5A + 3-byte address + one dummy byte).
use vstd::prelude::*;

verus! {

/// Little-endian 32-bit word of `s` at byte offset `o`.
pub open spec fn le32(s: Seq<u8>, o: int) -> int {
    s[o] as int + s[o + 1] as int * 0x100 + s[o + 2] as int * 0x1_0000 + s[o + 3] as int * 0x100_0000
}

/// Read a little-endian `u32` at `offset`.
pub fn read_u32_le(buf: &[u8], offset: usize) -> (r: u32)
    requires
        offset + 4 <= buf@.len(),
    ensures
        r as int == le32(buf@, offset as int),
{
    let b0 = buf[offset] as u32;
    let b1 = buf[offset + 1] as u32;
    let b2 = buf[offset + 2] as u32;
    let b3 = buf[offset + 3] as u32;
    b0 + b1 * 0x100 + b2 * 0x1_0000 + b3 * 0x100_0000
}

/// One SFDP parameter header (8 bytes in the SFDP header area).
#[derive(Debug, Clone, Copy, PartialEq, Eq)]
pub struct SfdpParameterHeader {
    pub id_lsb: u8,
    pub minor_rev: u8,
    pub major_rev: u8,
    pub length: u8,
    pub table_pointer: u32,
}

/// Decoded SFDP header.
#[derive(Debug, Clone, PartialEq, Eq)]
pub struct SfdpHeaderInfo {
    pub valid: bool,
    pub minor_rev: u8,
    pub major_rev: u8,
    pub num_parameter_headers: u8,
    pub parameter_headers: Vec<SfdpParameterHeader>,
}

/// One erase type of the Basic Flash Parameter Table.
#[derive(Debug, Clone, Copy, PartialEq, Eq)]
pub struct EraseType {
    pub size_bytes: u32,
    pub opcode: u8,
}

/// Address modes advertised in DWORD 1.
#[derive(Debug, Clone, Copy, PartialEq, Eq)]
pub enum AddressByteCount {
    Three,
    ThreeOrFour,
    Four,
}

/// Geometry and command information decoded from the Basic Flash Parameter Table.
#[derive(Debug, Clone, PartialEq, Eq)]
pub struct SfdpBasicFlashParams {
    pub erase_size_4kb: bool,
    pub fast_read_supported: bool,
    pub address_byte_count: AddressByteCount,
    pub fast_read_opcode: u8,
    pub density_bytes: u64,
    pub erase_types: Vec<EraseType>,
    pub page_size: u32,
    pub sector_size: u32,
    pub block_size: u32,
    pub needs_4byte_addr: bool,
}

/// Mathematical view of [`SfdpBasicFlashParams`].
pub struct SfdpParamsView {
    pub erase_size_4kb: bool,
    pub fast_read_supported: bool,
    pub address_byte_count: AddressByteCount,
    pub fast_read_opcode: u8,
    pub density_bytes: u64,
    pub erase_types: Seq<EraseType>,
    pub page_size: u32,
    pub sector_size: u32,
    pub block_size: u32,
    pub needs_4byte_addr: bool,
}

impl View for SfdpBasicFlashParams {
    type V = SfdpParamsView;

    open spec fn view(&self) -> SfdpParamsView {
        SfdpParamsView {
            erase_size_4kb: self.erase_size_4kb,
            fast_read_supported: self.fast_read_supported,
            address_byte_count: self.address_byte_count,
            fast_read_opcode: self.fast_read_opcode,
            density_bytes: self.density_bytes,
            erase_types: self.erase_types@,
            page_size: self.page_size,
            sector_size: self.sector_size,
            block_size: self.block_size,
            needs_4byte_addr: self.needs_4byte_addr,
        }
    }
}

// ───────────────────────────── header ─────────────────────────────

/// The buffer starts with the "SFDP" signature and holds the 8-byte header.
pub open spec fn has_sfdp_signature(s: Seq<u8>) -> bool {
    &&& s.len() >= 8
    &&& s[0] == 0x53u8
    &&& s[1] == 0x46u8
    &&& s[2] == 0x44u8
    &&& s[3] == 0x50u8
}

/// Parameter header decoded from the 8 bytes at offset `o`.
pub open spec fn param_header_at(s: Seq<u8>, o: int) -> SfdpParameterHeader {
    SfdpParameterHeader {
        id_lsb: s[o],
        minor_rev: s[o + 1],
        major_rev: s[o + 2],
        length: s[o + 3],
        table_pointer: (s[o + 4] as int + s[o + 5] as int * 0x100 + s[o + 6] as int * 0x1_0000) as u32,
    }
}

/// Number of parameter headers announced by byte 6 (stored as count - 1, wrapping).
pub open spec fn announced_headers(s: Seq<u8>) -> u8 {
    if s[6] == 255u8 { 0u8 } else { (s[6] + 1) as u8 }
}

/// Number of parameter headers that are both announced and present in the buffer.
pub open spec fn present_headers(s: Seq<u8>) -> int {
    let room = (s.len() - 8) / 8;
    if (announced_headers(s) as int) < room { announced_headers(s) as int } else { room }
}

/// Decode the SFDP header. A buffer without the signature yields an invalid,
/// all-zero header.
pub fn parse_sfdp_header(buf: &[u8]) -> (info: SfdpHeaderInfo)
    ensures
        info.valid == has_sfdp_signature(buf@),
        !info.valid ==> {
            &&& info.minor_rev == 0
            &&& info.major_rev == 0
            &&& info.num_parameter_headers == 0
            &&& info.parameter_headers@.len() == 0
        },
        info.valid ==> {
            &&& info.minor_rev == buf@[4]
            &&& info.major_rev == buf@[5]
            &&& info.num_parameter_headers == announced_headers(buf@)
            &&& info.parameter_headers@.len() == present_headers(buf@)
            &&& forall|i: int|
                0 <= i < info.parameter_headers@.len() ==> #[trigger] info.parameter_headers@[i]
                    == param_header_at(buf@, 8 + 8 * i)
        },
{
    if buf.len() < 8 || buf[0] != 0x53 || buf[1] != 0x46 || buf[2] != 0x44 || buf[3] != 0x50 {
        return SfdpHeaderInfo {
            valid: false,
            minor_rev: 0,
            major_rev: 0,
            num_parameter_headers: 0,
            parameter_headers: Vec::new(),
        };
    }
    let minor_rev = buf[4];
    let major_rev = buf[5];
    let num_parameter_headers: u8 = if buf[6] == 255 { 0 } else { buf[6] + 1 };
    let mut parameter_headers: Vec<SfdpParameterHeader> = Vec::new();
    let n = num_parameter_headers as usize;
    let mut i: usize = 0;
    while i < n
        invariant
            n == announced_headers(buf@) as int,
            buf@.len() >= 8,
            i <= n,
            8 + 8 * i <= buf@.len(),
            parameter_headers@.len() == i,
            forall|k: int|
                0 <= k < i ==> #[trigger] parameter_headers@[k] == param_header_at(buf@, 8 + 8 * k),
        ensures
            parameter_headers@.len() == present_headers(buf@),
            forall|k: int|
                0 <= k < parameter_headers@.len() ==> #[trigger] parameter_headers@[k]
                    == param_header_at(buf@, 8 + 8 * k),
        decreases n - i,
    {
        let offset = 8 + i * 8;
        if buf.len() < offset + 8 {
            break;
        }
        let table_pointer = (buf[offset + 4] as u32) + (buf[offset + 5] as u32) * 0x100 + (
        buf[offset + 6] as u32) * 0x1_0000;
        parameter_headers.push(
            SfdpParameterHeader {
                id_lsb: buf[offset],
                minor_rev: buf[offset + 1],
                major_rev: buf[offset + 2],
                length: buf[offset + 3],
                table_pointer,
            },
        );
        i = i + 1;
    }
    SfdpHeaderInfo { valid: true, minor_rev, major_rev, num_parameter_headers, parameter_headers }
}


// ───────────────────────────── basic parameter table ─────────────────────────────

/// DWORD `i` (0-based) of the table.
pub open spec fn dword(s: Seq<u8>, i: int) -> u32 {
    le32(s, 4 * i) as u32
}

pub open spec fn spec_address_byte_count(dw1: u32) -> AddressByteCount {
    let bits = (dw1 >> 17u32) & 3u32;
    if bits == 0 {
        AddressByteCount::Three
    } else if bits == 1 {
        AddressByteCount::ThreeOrFour
    } else {
        AddressByteCount::Four
    }
}

/// Flash density in bits from DWORD 2: either `2^n` (bit 31 set) or `value + 1`.
/// `None` when the exponent form does not fit.
pub open spec fn spec_density_bits(dw2: u32) -> Option<u64> {
    if dw2 & 0x8000_0000u32 != 0 {
        let n = dw2 & 0x7fff_ffffu32;
        if n >= 32 { None } else { Some(1u64 << n) }
    } else {
        Some((dw2 as int + 1) as u64)
    }
}

/// Erase-type slot `i` (0..4) is used when its size exponent is in `1..32`.
pub open spec fn erase_slot_used(s: Seq<u8>, i: int) -> bool {
    0 < s[28 + 2 * i] && s[28 + 2 * i] < 32
}

pub open spec fn erase_slot(s: Seq<u8>, i: int) -> EraseType {
    EraseType { size_bytes: 1u32 << (s[28 + 2 * i] as u32), opcode: s[29 + 2 * i] }
}

/// Used erase types among the first `k` slots, in slot order.
pub open spec fn erase_types_upto(s: Seq<u8>, k: int) -> Seq<EraseType>
    decreases k,
{
    if k <= 0 {
        Seq::empty()
    } else {
        let prev = erase_types_upto(s, k - 1);
        if erase_slot_used(s, k - 1) { prev.push(erase_slot(s, k - 1)) } else { prev }
    }
}

/// Erase types advertised by the table (only when DWORDs 8 and 9 are present).
pub open spec fn spec_erase_types(s: Seq<u8>) -> Seq<EraseType> {
    if s.len() >= 36 { erase_types_upto(s, 4) } else { Seq::empty() }
}

/// Page size from DWORD 11 (`2^n` for `n` in `1..24`), 256 otherwise.
pub open spec fn spec_page_size(s: Seq<u8>) -> u32 {
    if s.len() >= 44 {
        let bits = (dword(s, 10) >> 4u32) & 0x0fu32;
        if 0 < bits && bits < 24 { 1u32 << bits } else { 256u32 }
    } else {
        256u32
    }
}

/// Smallest erase size, or `dflt` when there is none.
pub open spec fn min_erase_size(e: Seq<EraseType>, dflt: u32) -> u32
    decreases e.len(),
{
    if e.len() == 0 {
        dflt
    } else {
        let rest = min_erase_size(e.drop_last(), e.last().size_bytes);
        if e.len() == 1 {
            e[0].size_bytes
        } else if e.last().size_bytes < rest {
            e.last().size_bytes
        } else {
            rest
        }
    }
}

/// Largest erase size, or `dflt` when there is none.
pub open spec fn max_erase_size(e: Seq<EraseType>, dflt: u32) -> u32
    decreases e.len(),
{
    if e.len() == 0 {
        dflt
    } else {
        let rest = max_erase_size(e.drop_last(), e.last().size_bytes);
        if e.len() == 1 {
            e[0].size_bytes
        } else if e.last().size_bytes > rest {
            e.last().size_bytes
        } else {
            rest
        }
    }
}

/// What the Basic Flash Parameter Table `s` describes; `None` for a table
/// shorter than 16 bytes or with an unusable density.
pub open spec fn spec_basic_flash_params(s: Seq<u8>) -> Option<SfdpParamsView> {
    if s.len() < 16 {
        None
    } else {
        let dw1 = dword(s, 0);
        let dw2 = dword(s, 1);
        match spec_density_bits(dw2) {
            None => None,
            Some(bits) => if bits == 0 {
                None
            } else {
                let erase_4kb = (dw1 & 3u32) == 1u32;
                let et = spec_erase_types(s);
                let density = bits / 8;
                Some(
                    SfdpParamsView {
                        erase_size_4kb: erase_4kb,
                        fast_read_supported: ((dw1 >> 16u32) & 1u32) != 0,
                        address_byte_count: spec_address_byte_count(dw1),
                        fast_read_opcode: ((dw1 >> 8u32) & 0xffu32) as u8,
                        density_bytes: density,
                        erase_types: et,
                        page_size: spec_page_size(s),
                        sector_size: min_erase_size(
                            et,
                            if erase_4kb { 4096u32 } else { 65536u32 },
                        ),
                        block_size: max_erase_size(et, 65536u32),
                        needs_4byte_addr: density > 16 * 1024 * 1024,
                    },
                )
            },
        }
    }
}

proof fn lemma_min_erase_push(e: Seq<EraseType>, x: EraseType, d: u32)
    ensures
        min_erase_size(e.push(x), d) == (if e.len() == 0 { x.size_bytes } else if x.size_bytes
            < min_erase_size(e, d) { x.size_bytes } else { min_erase_size(e, d) }),
        max_erase_size(e.push(x), d) == (if e.len() == 0 { x.size_bytes } else if x.size_bytes
            > max_erase_size(e, d) { x.size_bytes } else { max_erase_size(e, d) }),
    decreases e.len(),
{
    let p = e.push(x);
    assert(p.drop_last() =~= e);
    if e.len() > 0 {
        lemma_min_erase_default_irrelevant(e, x.size_bytes, d);
    }
}

proof fn lemma_min_erase_default_irrelevant(e: Seq<EraseType>, a: u32, b: u32)
    requires
        e.len() > 0,
    ensures
        min_erase_size(e, a) == min_erase_size(e, b),
        max_erase_size(e, a) == max_erase_size(e, b),
{
}

/// Decode the Basic Flash Parameter Table.
pub fn parse_basic_flash_params(buf: &[u8]) -> (r: Option<SfdpBasicFlashParams>)
    ensures
        match r {
            Some(p) => spec_basic_flash_params(buf@) == Some(p@),
            None => spec_basic_flash_params(buf@) is None,
        },
{
    if buf.len() < 16 {
        return None;
    }
    let dw1 = read_u32_le(buf, 0);
    let dw2 = read_u32_le(buf, 4);
    let erase_size_4kb = (dw1 & 3) == 1;
    let abc = (dw1 >> 17) & 3;
    let address_byte_count = if abc == 0 {
        AddressByteCount::Three
    } else if abc == 1 {
        AddressByteCount::ThreeOrFour
    } else {
        AddressByteCount::Four
    };
    let fast_read_supported = ((dw1 >> 16) & 1) != 0;
    let fast_read_opcode = ((dw1 >> 8) & 0xff) as u8;
    let density_bits: u64 = if dw2 & 0x8000_0000 != 0 {
        let n = dw2 & 0x7fff_ffff;
        if n >= 32 {
            return None;
        }
        1u64 << n
    } else {
        dw2 as u64 + 1
    };
    if density_bits == 0 {
        return None;
    }
    let density_bytes = density_bits / 8;

    let mut erase_types: Vec<EraseType> = Vec::new();
    let mut sector_size: u32 = if erase_size_4kb { 4096 } else { 65536 };
    let mut block_size: u32 = 65536;
    if buf.len() >= 36 {
        let mut i: usize = 0;
        while i < 4
            invariant
                buf@.len() >= 36,
                i <= 4,
                erase_types@ == erase_types_upto(buf@, i as int),
                sector_size == min_erase_size(
                    erase_types@,
                    if erase_size_4kb { 4096u32 } else { 65536u32 },
                ),
                block_size == max_erase_size(erase_types@, 65536u32),
            decreases 4 - i,
        {
            let size_exp = buf[28 + i * 2];
            let opcode = buf[28 + i * 2 + 1];
            if size_exp > 0 && size_exp < 32 {
                let et = EraseType { size_bytes: 1u32 << (size_exp as u32), opcode };
                proof {
                    lemma_min_erase_push(
                        erase_types@,
                        et,
                        if erase_size_4kb { 4096u32 } else { 65536u32 },
                    );
                    lemma_min_erase_push(erase_types@, et, 65536u32);
                }
                if erase_types.len() == 0 {
                    sector_size = et.size_bytes;
                    block_size = et.size_bytes;
                } else {
                    if et.size_bytes < sector_size {
                        sector_size = et.size_bytes;
                    }
                    if et.size_bytes > block_size {
                        block_size = et.size_bytes;
                    }
                }
                erase_types.push(et);
            }
            i = i + 1;
        }
    }
    let mut page_size: u32 = 256;
    if buf.len() >= 44 {
        let dw11 = read_u32_le(buf, 40);
        let page_size_bits = (dw11 >> 4) & 0x0f;
        if page_size_bits > 0 && page_size_bits < 24 {
            page_size = 1u32 << page_size_bits;
        }
    }
    let needs_4byte_addr = density_bytes > 16 * 1024 * 1024;
    Some(
        SfdpBasicFlashParams {
            erase_size_4kb,
            fast_read_supported,
            address_byte_count,
            fast_read_opcode,
            density_bytes,
            erase_types,
            page_size,
            sector_size,
            block_size,
            needs_4byte_addr,
        },
    )
}


// ───────────────────────────── discovery ─────────────────────────────

/// Index of the first parameter header with id 0x00 (the Basic Flash
/// Parameter Table), scanning headers `0..k`.
pub open spec fn first_basic_header(h: Seq<SfdpParameterHeader>) -> Option<SfdpParameterHeader>
    decreases h.len(),
{
    if h.len() == 0 {
        None
    } else if h[0].id_lsb == 0 {
        Some(h[0])
    } else {
        first_basic_header(h.drop_first())
    }
}

/// Parameter headers present in the header bytes `hdr`.
pub open spec fn header_seq(hdr: Seq<u8>) -> Seq<SfdpParameterHeader> {
    Seq::new(present_headers(hdr) as nat, |i: int| param_header_at(hdr, 8 + 8 * i))
}

/// Where the Basic Flash Parameter Table lives according to the header bytes
/// `hdr`: its SFDP address and the number of bytes to read (at least 16).
pub open spec fn spec_table_request(hdr: Seq<u8>) -> Option<(u32, usize)> {
    if !has_sfdp_signature(hdr) {
        None
    } else {
        match first_basic_header(header_seq(hdr)) {
            None => None,
            Some(ph) => Some(
                (ph.table_pointer, if ph.length as int * 4 > 16 { (ph.length as int * 4) as usize } else { 16usize }),
            ),
        }
    }
}

/// Locate the Basic Flash Parameter Table from the SFDP header bytes.
pub fn sfdp_table_request(hdr: &[u8]) -> (r: Option<(u32, usize)>)
    ensures
        r == spec_table_request(hdr@),
{
    let info = parse_sfdp_header(hdr);
    if !info.valid {
        return None;
    }
    let ghost hs = header_seq(hdr@);
    assert(info.parameter_headers@ =~= hs);
    assert(hs.subrange(0, hs.len() as int) =~= hs);
    let mut i: usize = 0;
    while i < info.parameter_headers.len()
        invariant
            info.parameter_headers@ == hs,
            hs == header_seq(hdr@),
            has_sfdp_signature(hdr@),
            i <= hs.len(),
            first_basic_header(hs) == first_basic_header(hs.subrange(i as int, hs.len() as int)),
        decreases hs.len() - i,
    {
        let ph = info.parameter_headers[i];
        let ghost rest = hs.subrange(i as int, hs.len() as int);
        assert(rest[0] == ph);
        assert(rest.drop_first() =~= hs.subrange(i + 1, hs.len() as int));
        if ph.id_lsb == 0 {
            assert(first_basic_header(rest) == Some(ph));
            let words = ph.length as usize * 4;
            let len = if words > 16 { words } else { 16 };
            return Some((ph.table_pointer, len));
        }
        i = i + 1;
    }
    assert(hs.subrange(i as int, hs.len() as int) =~= Seq::<SfdpParameterHeader>::empty());
    None
}

/// Full JESD216 discovery over any transport. `read_at(addr, len)` performs an
/// SFDP read at the given SFDP-space address. Returns `Ok(None)` when the chip
/// exposes no valid SFDP table; a read error is passed through.
pub fn discover_sfdp<F: FnMut(u32, usize) -> Result<Vec<u8>, String>>(
    mut read_at: F,
) -> (r: Result<Option<SfdpBasicFlashParams>, String>)
    requires
        forall|a: u32, l: usize| call_requires(read_at, (a, l)),
    ensures
        r matches Ok(Some(p)) ==> exists|hdr: Vec<u8>, tbl: Vec<u8>, ptr: u32, len: usize|
            {
                &&& call_ensures(read_at, (0u32, 16usize), Ok::<Vec<u8>, String>(hdr))
                &&& spec_table_request(hdr@) == Some((ptr, len))
                &&& call_ensures(read_at, (ptr, len), Ok::<Vec<u8>, String>(tbl))
                &&& spec_basic_flash_params(tbl@) == Some(p@)
            },
        r matches Ok(None) ==> exists|hdr: Vec<u8>|
            {
                &&& call_ensures(read_at, (0u32, 16usize), Ok::<Vec<u8>, String>(hdr))
                &&& match spec_table_request(hdr@) {
                    None => true,
                    Some((ptr, len)) => exists|tbl: Vec<u8>|
                        call_ensures(read_at, (ptr, len), Ok::<Vec<u8>, String>(tbl))
                            && spec_basic_flash_params(tbl@) is None,
                }
            },
        r matches Err(e) ==> call_ensures(read_at, (0u32, 16usize), Err::<Vec<u8>, String>(e))
            || exists|hdr: Vec<u8>, ptr: u32, len: usize|
            {
                &&& call_ensures(read_at, (0u32, 16usize), Ok::<Vec<u8>, String>(hdr))
                &&& spec_table_request(hdr@) == Some((ptr, len))
                &&& call_ensures(read_at, (ptr, len), Err::<Vec<u8>, String>(e))
            },
{
    let hdr = read_at(0, 16)?;
    let req = sfdp_table_request(&hdr);
    match req {
        None => Ok(None),
        Some((ptr, len)) => {
            let table = read_at(ptr, len)?;
            Ok(parse_basic_flash_params(&table))
        },
    }
}


/// The address modes of a decoded table come from bits 1-2 of its third
/// byte (DWORD 1 bits 17-18, JESD216): `00` 3-byte only, `01` 3- or
/// 4-byte, `10`/`11` 4-byte only.
pub proof fn law_sfdp_address_bytes(s: Seq<u8>)
    requires
        spec_basic_flash_params(s) is Some,
    ensures
        (s[2] / 2) % 4 == 0 <==> spec_basic_flash_params(s)->0.address_byte_count == AddressByteCount::Three,
        (s[2] / 2) % 4 == 1 <==> spec_basic_flash_params(s)->0.address_byte_count == AddressByteCount::ThreeOrFour,
        (s[2] / 2) % 4 >= 2 <==> spec_basic_flash_params(s)->0.address_byte_count == AddressByteCount::Four,
{
    let s0 = s[0] as u32;
    let s1 = s[1] as u32;
    let s2 = s[2] as u32;
    let s3 = s[3] as u32;
    let dw1 = dword(s, 0);
    assert(dw1 == s0 + s1 * 256 + s2 * 65536 + s3 * 16777216);
    assert((dw1 >> 17u32) & 3u32 == (s2 / 2) % 4) by (bit_vector)
        requires
            dw1 == s0 + s1 * 256 + s2 * 65536 + s3 * 16777216,
            s0 < 256, s1 < 256, s2 < 256, s3 < 256;
}


/// The density field of DWORD 2: below bit 31 it holds the size in bits
/// less one; with bit 31 set, the low bits `n` give a size of `2^n` bits
/// (sizes of `2^32` bits and more are not taken).
pub proof fn law_sfdp_density_bits(dw2: u32)
    ensures
        dw2 < 0x8000_0000 ==> spec_density_bits(dw2) == Some((dw2 + 1) as u64),
        dw2 >= 0x8000_0000 && dw2 - 0x8000_0000 < 32 ==> spec_density_bits(dw2)
            == Some(vstd::arithmetic::power2::pow2((dw2 - 0x8000_0000) as nat) as u64),
        dw2 >= 0x8000_0000 + 32 ==> spec_density_bits(dw2) is None,
{
    let n = dw2 & 0x7fff_ffffu32;
    assert((dw2 & 0x8000_0000u32 != 0) == (dw2 >= 0x8000_0000u32)
        && (dw2 >= 0x8000_0000u32 ==> n == dw2 - 0x8000_0000u32)) by (bit_vector)
        requires n == dw2 & 0x7fff_ffffu32;
    if dw2 >= 0x8000_0000 {
        if n < 32 {
            let m: u64 = n as u64;
            assert((1u64 << n) == (1u64 << m)) by (bit_vector)
                requires m == n as u64, n < 32;
            vstd::bits::lemma_u64_pow2_no_overflow(m as nat);
            vstd::bits::lemma_u64_shl_is_mul(1u64, m);
        }
    }
}

/// The page size of DWORD 11: `2^n` for the exponent `n` in the high nibble
/// of the table's byte 40, 256 bytes when that nibble is zero or the table
/// is too short.
pub proof fn law_sfdp_page_size(s: Seq<u8>)
    ensures
        s.len() >= 44 && s[40] / 16 > 0 ==> spec_page_size(s) == vstd::arithmetic::power2::pow2((s[40] / 16) as nat),
        s.len() >= 44 && s[40] / 16 == 0 ==> spec_page_size(s) == 256,
        s.len() < 44 ==> spec_page_size(s) == 256,
{
    if s.len() >= 44 {
        let s0 = s[40] as u32;
        let s1 = s[41] as u32;
        let s2 = s[42] as u32;
        let s3 = s[43] as u32;
        let dw = dword(s, 10);
        assert(dw == s0 + s1 * 256 + s2 * 65536 + s3 * 16777216);
        let bits = (dw >> 4u32) & 0x0fu32;
        assert(bits == s0 / 16) by (bit_vector)
            requires
                bits == (dw >> 4u32) & 0x0fu32,
                dw == s0 + s1 * 256 + s2 * 65536 + s3 * 16777216,
                s0 < 256, s1 < 256, s2 < 256, s3 < 256;
        if bits > 0 {
            vstd::bits::lemma_u32_pow2_no_overflow(bits as nat);
            vstd::bits::lemma_u32_shl_is_mul(1u32, bits);
        }
    }
}

} // verus!
