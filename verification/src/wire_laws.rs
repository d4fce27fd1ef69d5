//! Laws on the byte layouts the programmer puts on the wire: which end of
//! each address or length field holds the low byte, and that what one side
//! encodes the other side decodes back.
use vstd::prelude::*;
use crate::ch34x::{spec_ch347_packet, spec_ch347_response_len};
use crate::firmware::be_value;
use crate::nor_ops::{addr_bytes, program_frame, read_frame, sector_erase_frame};
use crate::operations::spec_nor_header;
use crate::protocols::{spec_ecc_cfg, spec_i2c_addr_prefix, spec_i2c_device_address, spec_lut_entry, spec_swap_cmd};
use crate::serprog::{le16v, le32v, spiop_params};
use crate::frame::le_bytes32;
use crate::sfdp::{le32, param_header_at};
use crate::devcore::{hex2, hex_char};
use crate::text::hex_text_value;

verus! {

/// The number the bytes of `s` spell least significant byte first.
pub open spec fn le_value(s: Seq<u8>) -> int
    decreases s.len(),
{
    if s.len() == 0 {
        0
    } else {
        s[0] + 256 * le_value(s.drop_first())
    }
}

proof fn lemma_le2(a: u8, b: u8)
    ensures
        le_value(seq![a, b]) == a + 256 * b,
{
    reveal_with_fuel(le_value, 3);
    assert(seq![a, b].drop_first() =~= seq![b]);
    assert(seq![b].drop_first() =~= Seq::<u8>::empty());
}

proof fn lemma_le3(a: u8, b: u8, c: u8)
    ensures
        le_value(seq![a, b, c]) == a + 256 * b + 65536 * c,
{
    reveal_with_fuel(le_value, 2);
    assert(seq![a, b, c].drop_first() =~= seq![b, c]);
    lemma_le2(b, c);
}

proof fn lemma_le4(a: u8, b: u8, c: u8, d: u8)
    ensures
        le_value(seq![a, b, c, d]) == a + 256 * b + 65536 * c + 16777216 * d,
{
    reveal_with_fuel(le_value, 2);
    assert(seq![a, b, c, d].drop_first() =~= seq![b, c, d]);
    lemma_le3(b, c, d);
}

proof fn lemma_be2(a: u8, b: u8)
    ensures
        be_value(seq![a, b]) == 256 * a + b,
{
    reveal_with_fuel(be_value, 3);
    assert(seq![a, b].drop_last() =~= seq![a]);
    assert(seq![a].drop_last() =~= Seq::<u8>::empty());
}

proof fn lemma_be3(a: u8, b: u8, c: u8)
    ensures
        be_value(seq![a, b, c]) == 65536 * a + 256 * b + c,
{
    reveal_with_fuel(be_value, 2);
    assert(seq![a, b, c].drop_last() =~= seq![a, b]);
    lemma_be2(a, b);
}

proof fn lemma_be4(a: u8, b: u8, c: u8, d: u8)
    ensures
        be_value(seq![a, b, c, d]) == 16777216 * a + 65536 * b + 256 * c + d,
{
    reveal_with_fuel(be_value, 2);
    assert(seq![a, b, c, d].drop_last() =~= seq![a, b, c]);
    lemma_be3(a, b, c);
}

proof fn lemma_split2(x: int)
    requires
        x >= 0,
    ensures
        ((x / 256) % 256) * 256 + x % 256 == x % 65536,
{
    assert(((x / 256) % 256) * 256 + x % 256 == x % 65536) by (nonlinear_arith)
        requires x >= 0;
}

proof fn lemma_split3(x: int)
    requires
        x >= 0,
    ensures
        ((x / 65536) % 256) * 65536 + ((x / 256) % 256) * 256 + x % 256 == x % 0x100_0000,
{
    assert(((x / 65536) % 256) * 65536 + ((x / 256) % 256) * 256 + x % 256 == x % 0x100_0000) by (nonlinear_arith)
        requires x >= 0;
}

/// SPI NOR READ, PAGE PROGRAM and SECTOR ERASE frames carry their opcode
/// and then the 24-bit address most significant byte first: the three
/// address bytes read big-endian give the address.
pub proof fn law_nor_frames_big_endian(a: int, data: Seq<u8>)
    requires
        0 <= a < 0x100_0000,
    ensures
        addr_bytes(a).len() == 3 && be_value(addr_bytes(a)) == a,
        read_frame(a).len() == 4 && read_frame(a)[0] == 0x03 && be_value(read_frame(a).subrange(1, 4)) == a,
        sector_erase_frame(a).len() == 4 && sector_erase_frame(a)[0] == 0x20
            && be_value(sector_erase_frame(a).subrange(1, 4)) == a,
        program_frame(a, data)[0] == 0x02 && be_value(program_frame(a, data).subrange(1, 4)) == a
            && program_frame(a, data).skip(4) == data,
{
    let s = addr_bytes(a);
    assert((a / 0x1_0000) as u8 == (a / 0x1_0000) % 256) by {
        assert(a / 0x1_0000 < 256);
    }
    lemma_be3(s[0], s[1], s[2]);
    assert(s =~= seq![s[0], s[1], s[2]]);
    lemma_split3(a);
    assert(read_frame(a).subrange(1, 4) =~= s);
    assert(sector_erase_frame(a).subrange(1, 4) =~= s);
    assert(program_frame(a, data).subrange(1, 4) =~= s);
    assert(program_frame(a, data).skip(4) =~= data);
}

/// The SPI NOR command header is the opcode, then the address in 3 or 4
/// bytes, most significant first.
pub proof fn law_nor_header_big_endian(cmd: u8, addr: u64, four_byte: bool)
    ensures
        spec_nor_header(cmd, addr, four_byte).len() == (if four_byte { 5int } else { 4int }),
        spec_nor_header(cmd, addr, four_byte)[0] == cmd,
        be_value(spec_nor_header(cmd, addr, four_byte).skip(1))
            == addr as int % (if four_byte { 0x1_0000_0000int } else { 0x100_0000int }),
{
    let h = spec_nor_header(cmd, addr, four_byte);
    let x = addr as int;
    let b3: u8 = ((addr >> 24) & 0xFF) as u8;
    let b2: u8 = ((addr >> 16) & 0xFF) as u8;
    let b1: u8 = ((addr >> 8) & 0xFF) as u8;
    let b0: u8 = (addr & 0xFF) as u8;
    assert(b3 == (addr / 0x100_0000) % 256 && b2 == (addr / 0x1_0000) % 256 && b1 == (addr / 0x100) % 256
        && b0 == addr % 256) by (bit_vector)
        requires
            b3 == ((addr >> 24) & 0xFF) as u8,
            b2 == ((addr >> 16) & 0xFF) as u8,
            b1 == ((addr >> 8) & 0xFF) as u8,
            b0 == (addr & 0xFF) as u8;
    lemma_split3(x);
    if four_byte {
        assert(h.skip(1) =~= seq![b3, b2, b1, b0]);
        lemma_be4(b3, b2, b1, b0);
        assert(((x / 0x100_0000) % 256) * 0x100_0000 + x % 0x100_0000 == x % 0x1_0000_0000) by (nonlinear_arith)
            requires x >= 0;
    } else {
        assert(h.skip(1) =~= seq![b2, b1, b0]);
        lemma_be3(b2, b1, b0);
    }
}

/// The I2C address prefix writes the device address, then the in-block
/// address: one byte (the low byte) for address algorithm 1, two bytes most
/// significant first for algorithm 2.
pub proof fn law_i2c_prefix_address_bytes(addr: u64, algorithm: u8)
    ensures
        algorithm % 16 == 1 ==> (spec_i2c_addr_prefix(addr, algorithm) matches Some(p) && p.len() == 5
            && p[3] == spec_i2c_device_address(addr as u32, algorithm) && p[4] == addr % 256),
        algorithm % 16 == 2 ==> (spec_i2c_addr_prefix(addr, algorithm) matches Some(p) && p.len() == 6
            && p[3] == spec_i2c_device_address(addr as u32, algorithm)
            && be_value(p.subrange(4, 6)) == addr as int % 65536),
{
    if algorithm % 16 == 2 {
        let p = spec_i2c_addr_prefix(addr, algorithm)->0;
        let hi = ((addr / 256) % 256) as u8;
        let lo = (addr % 256) as u8;
        assert(p.subrange(4, 6) =~= seq![hi, lo]);
        lemma_be2(hi, lo);
        lemma_split2(addr as int);
    }
}

/// The NAND bad-block swap command carries the link little-endian, and the
/// table reader decodes it back: a valid link from `lba` to `pba` (block
/// numbers are 14 bits; the top two bits of the word are the status).
pub proof fn law_swap_cmd_reads_back_as_valid_link(lba: u16, pba: u16)
    requires
        lba < 0x4000,
    ensures
        spec_swap_cmd(lba, pba).len() == 5,
        spec_swap_cmd(lba, pba)[0] == 0xA1,
        spec_lut_entry(spec_swap_cmd(lba, pba).subrange(1, 5), 0).valid,
        !spec_lut_entry(spec_swap_cmd(lba, pba).subrange(1, 5), 0).free,
        spec_lut_entry(spec_swap_cmd(lba, pba).subrange(1, 5), 0).pba == pba,
        spec_lut_entry(spec_swap_cmd(lba, pba).subrange(1, 5), 0).lba % 0x4000 == lba % 0x4000,
        le_value(spec_swap_cmd(lba, pba).subrange(3, 5)) == pba,
{
    let s = spec_swap_cmd(lba, pba);
    let raw = s.subrange(1, 5);
    let word = (lba as int % 0x8000) + 0x8000;
    assert(raw[0] + raw[1] * 256 == word);
    assert(raw[2] + raw[3] * 256 == pba);
    assert(0x8000 <= word < 0xC000);
    let e = spec_lut_entry(raw, 0);
    assert(e.lba == word);
    assert(e.lba / 0x4000 == 2);
    assert(e.pba == pba);
    assert(word % 0x4000 == lba % 0x4000);
    assert(s.subrange(3, 5) =~= seq![s[3], s[4]]);
    lemma_le2(s[3], s[4]);
}

/// The bad-block table holds each link as two little-endian 16-bit words;
/// the top two bits of the logical one give its status (`00` free, `10`
/// valid).
pub proof fn law_lut_entry_little_endian(raw: Seq<u8>, k: int)
    requires
        0 <= k,
        4 * k + 4 <= raw.len(),
    ensures
        spec_lut_entry(raw, k).lba == le_value(raw.subrange(4 * k, 4 * k + 2)),
        spec_lut_entry(raw, k).pba == le_value(raw.subrange(4 * k + 2, 4 * k + 4)),
        spec_lut_entry(raw, k).free == (le_value(raw.subrange(4 * k, 4 * k + 2)) < 0x4000),
        spec_lut_entry(raw, k).valid == (0x8000 <= le_value(raw.subrange(4 * k, 4 * k + 2)) < 0xC000),
{
    assert(raw.subrange(4 * k, 4 * k + 2) =~= seq![raw[4 * k], raw[4 * k + 1]]);
    assert(raw.subrange(4 * k + 2, 4 * k + 4) =~= seq![raw[4 * k + 2], raw[4 * k + 3]]);
    lemma_le2(raw[4 * k], raw[4 * k + 1]);
    lemma_le2(raw[4 * k + 2], raw[4 * k + 3]);
}

/// A serprog SPI operation announces the write and read lengths as 24-bit
/// little-endian numbers, then carries the bytes to write.
pub proof fn law_spiop_lengths_little_endian(write: Seq<u8>, read_len: nat)
    requires
        write.len() < 0x100_0000,
        read_len < 0x100_0000,
    ensures
        spiop_params(write, read_len).len() == write.len() + 6,
        le_value(spiop_params(write, read_len).subrange(0, 3)) == write.len(),
        le_value(spiop_params(write, read_len).subrange(3, 6)) == read_len,
        spiop_params(write, read_len).skip(6) == write,
{
    let p = spiop_params(write, read_len);
    assert(p.subrange(0, 3) =~= seq![p[0], p[1], p[2]]);
    assert(p.subrange(3, 6) =~= seq![p[3], p[4], p[5]]);
    assert(p.skip(6) =~= write);
    lemma_le3(p[0], p[1], p[2]);
    lemma_le3(p[3], p[4], p[5]);
    lemma_split3(write.len() as int);
    lemma_split3(read_len as int);
}

/// The little-endian readers of serprog answers and SFDP tables read the
/// least significant byte first.
pub proof fn law_le_readers(d: Seq<u8>, o: int)
    requires
        d.len() >= 4,
        0 <= o,
        o + 4 <= d.len(),
    ensures
        le16v(d) == le_value(d.take(2)),
        le32v(d) == le_value(d.take(4)),
        le32(d, o) == le_value(d.subrange(o, o + 4)),
{
    assert(d.take(2) =~= seq![d[0], d[1]]);
    assert(d.take(4) =~= seq![d[0], d[1], d[2], d[3]]);
    assert(d.subrange(o, o + 4) =~= seq![d[o], d[o + 1], d[o + 2], d[o + 3]]);
    lemma_le2(d[0], d[1]);
    lemma_le4(d[0], d[1], d[2], d[3]);
    lemma_le4(d[o], d[o + 1], d[o + 2], d[o + 3]);
}

/// A CH347 packet announces its payload length little-endian after the
/// command byte, and the response reader takes exactly that length back
/// from such a header.
pub proof fn law_ch347_packet_length(cmd: u8, data: Seq<u8>, capacity: nat)
    requires
        data.len() < 0x1_0000,
        data.len() <= capacity,
    ensures
        spec_ch347_packet(cmd, data)[0] == cmd,
        le_value(spec_ch347_packet(cmd, data).subrange(1, 3)) == data.len(),
        spec_ch347_response_len(cmd, spec_ch347_packet(cmd, data), capacity) == Some(data.len()),
{
    let p = spec_ch347_packet(cmd, data);
    assert(p.subrange(1, 3) =~= seq![p[1], p[2]]);
    lemma_le2(p[1], p[2]);
    lemma_split2(data.len() as int);
}

/// An SFDP parameter header holds the table pointer as a 24-bit
/// little-endian number in its bytes 4..7.
pub proof fn law_sfdp_table_pointer_little_endian(s: Seq<u8>, o: int)
    requires
        0 <= o,
        o + 8 <= s.len(),
    ensures
        param_header_at(s, o).table_pointer == le_value(s.subrange(o + 4, o + 7)),
{
    assert(s.subrange(o + 4, o + 7) =~= seq![s[o + 4], s[o + 5], s[o + 6]]);
    lemma_le3(s[o + 4], s[o + 5], s[o + 6]);
}

/// Switching on-die ECC sets or clears bit 4 of the configuration register
/// and leaves every other bit as it was.
pub proof fn law_ecc_cfg_touches_bit4_only(cfg: u8, enable: bool)
    ensures
        (spec_ecc_cfg(cfg, enable) / 16) % 2 == (if enable { 1int } else { 0int }),
        spec_ecc_cfg(cfg, enable) & 0xEF == cfg & 0xEF,
{
    assert(((cfg | 0x10) / 16) % 2 == 1 && (cfg | 0x10) & 0xEF == cfg & 0xEF
        && ((cfg & 0xEF) / 16) % 2 == 0 && (cfg & 0xEF) & 0xEF == cfg & 0xEF) by (bit_vector);
}


proof fn lemma_hex_char_value(d: int)
    requires
        0 <= d < 16,
    ensures
        crate::firmware::hex_val((hex_char(d) as u32) as u8) == d,
{
}

/// The two hex digits of an id byte read back as that byte, high nibble
/// first.
pub proof fn law_hex2_reads_back(b: u8)
    ensures
        hex2(b).len() == 2,
        hex_text_value(hex2(b)) == b,
{
    let s = hex2(b);
    lemma_hex_char_value((b / 16) as int);
    lemma_hex_char_value((b % 16) as int);
    assert(s.drop_last() =~= seq![hex_char((b / 16) as int)]);
    assert(s.drop_last().drop_last() =~= Seq::<char>::empty());
    reveal_with_fuel(hex_text_value, 3);
    assert((b / 16) * 16 + b % 16 == b);
}


/// A sidecar frame's length prefix is the payload length, least
/// significant byte first.
pub proof fn law_frame_length_little_endian(n: u32)
    ensures
        le_bytes32(n).len() == 4,
        le_value(le_bytes32(n)) == n,
{
    let b = le_bytes32(n);
    let b0 = b[0];
    let b1 = b[1];
    let b2 = b[2];
    let b3 = b[3];
    assert(b =~= seq![b0, b1, b2, b3]);
    lemma_le4(b0, b1, b2, b3);
    assert(b0 + 256 * b1 + 65536 * b2 + 16777216 * b3 == n) by (bit_vector)
        requires
            b0 == (n & 0xFF) as u8,
            b1 == ((n >> 8u32) & 0xFF) as u8,
            b2 == ((n >> 16u32) & 0xFF) as u8,
            b3 == ((n >> 24u32) & 0xFF) as u8;
}

} // verus!
