//! Transport-agnostic SPI NOR command primitives.
//!
//! Every function operates on a [`SpiBus`], so the same NOR command logic
//! works with built-in CH34X programmers, serprog programmers and sidecar
//! adapter plugins. Each contract states exactly which transactions are
//! handed to the bus.
use vstd::prelude::*;
use crate::spi_bus::{reply_of, SpiBus, SpiTransfer, transfer};
use crate::text::{mismatch_text, msg_hex_usize, msg_usize, msg_mismatch};

verus! {

/// SPI NOR page-program payload limit.
pub const PAGE_SIZE: usize = 256;

/// Highest address representable by the 3-byte SPI NOR address field.
pub const ADDR_MASK_24: u32 = 0xFF_FFFF;

/// SR1 block-protect bits BP0..BP2.
pub const BP_MASK_SR1: u8 = 0x1C;

/// Big-endian 3-byte address field of `a`.
pub open spec fn addr_bytes(a: int) -> Seq<u8> {
    seq![(a / 0x1_0000) as u8, ((a / 0x100) % 0x100) as u8, (a % 0x100) as u8]
}

/// `[0x03, a2, a1, a0]`: READ at `a`.
pub open spec fn read_frame(a: int) -> Seq<u8> {
    seq![0x03u8] + addr_bytes(a)
}

/// `[0x02, a2, a1, a0] ++ data`: PAGE PROGRAM at `a`.
pub open spec fn program_frame(a: int, data: Seq<u8>) -> Seq<u8> {
    seq![0x02u8] + addr_bytes(a) + data
}

/// `[0x20, a2, a1, a0]`: SECTOR ERASE at `a`.
pub open spec fn sector_erase_frame(a: int) -> Seq<u8> {
    seq![0x20u8] + addr_bytes(a)
}

/// WRITE ENABLE `[0x06]`, no data back.
pub open spec fn wren() -> SpiTransfer {
    transfer(seq![0x06u8], 0)
}

/// One transaction whose write frame is the single byte `op`.
fn transact1<B: SpiBus>(bus: &mut B, op: u8, read_len: usize) -> (r: Result<Vec<u8>, String>)
    ensures
        final(bus).history() == old(bus).history().push(transfer(seq![op], read_len as nat)),
        final(bus).replies() == old(bus).replies().push(reply_of(r)),
{
    let cmd = [op];
    assert(cmd@ =~= seq![op]);
    bus.transact(&cmd, read_len)
}

/// One transaction whose write frame is `[op, arg]`.
fn transact2<B: SpiBus>(bus: &mut B, op: u8, arg: u8, read_len: usize) -> (r: Result<Vec<u8>, String>)
    ensures
        final(bus).history() == old(bus).history().push(transfer(seq![op, arg], read_len as nat)),
        final(bus).replies() == old(bus).replies().push(reply_of(r)),
{
    let cmd = [op, arg];
    assert(cmd@ =~= seq![op, arg]);
    bus.transact(&cmd, read_len)
}

/// Big-endian 3-byte address field of a 24-bit address.
fn addr_field(a: u32) -> (r: [u8; 3])
    requires
        a <= 0xFF_FFFF,
    ensures
        r@ == addr_bytes(a as int),
{
    let r = [(a / 0x1_0000) as u8, ((a / 0x100) % 0x100) as u8, (a % 0x100) as u8];
    assert(r@ =~= addr_bytes(a as int));
    r
}

/// Convert a byte address into a 24-bit SPI NOR address field.
/// The refusal of an address past the 24-bit range.
pub open spec fn range_error_text(addr: nat) -> Seq<char> {
    "address "@ + "0x"@ + crate::text::hex_pad(addr, 0, false) + " exceeds the 24-bit SPI NOR address range"@
}

/// Why a page program is refused before anything is sent: no data, more
/// than a page, or an address past the 24-bit range.
pub open spec fn program_error_text(addr: nat, n: nat) -> Seq<char> {
    if n == 0 {
        "program data must not be empty"@
    } else if n > PAGE_SIZE {
        "program data too long: "@ + crate::devcore::decimal(n) + " bytes (max 256)"@
    } else {
        range_error_text(addr)
    }
}

pub fn addr24(addr: usize) -> (r: Result<u32, String>)
    ensures
        r is Ok <==> addr <= 0xFF_FFFF,
        r matches Ok(a) ==> a as int == addr as int,
        r matches Err(e) ==> e@ == range_error_text(addr as nat),
{
    if addr > 0xFF_FFFF {
        return Err(msg_hex_usize("address ", addr, " exceeds the 24-bit SPI NOR address range"));
    }
    Ok(addr as u32)
}

/// Read the JEDEC ID via `[0x9F]` and return its first three bytes.
pub fn read_id<B: SpiBus>(bus: &mut B) -> (r: Result<[u8; 3], String>)
    ensures
        final(bus).history() == old(bus).history().push(transfer(seq![0x9Fu8], 3)),
{
    let data = transact1(bus, 0x9Fu8, 3)?;
    if data.len() < 3 {
        return Err(msg_usize("JEDEC ID read returned ", data.len(), " bytes, expected at least 3"));
    }
    Ok([data[0], data[1], data[2]])
}

/// One more reply than before, and the read's result from it: its bytes
/// when it has `len` of them, an error otherwise.
pub open spec fn read_answer(before: Seq<Option<Seq<u8>>>, after: Seq<Option<Seq<u8>>>, len: nat, r: Result<Vec<u8>, String>) -> bool {
    &&& after.len() == before.len() + 1
    &&& after.drop_last() == before
    &&& match after.last() {
        Some(d) => if d.len() == len { r matches Ok(v) && v@ == d } else { r is Err },
        None => r is Err,
    }
}

/// Read `len` bytes from `addr` via `[0x03, a2, a1, a0]`.
pub fn read<B: SpiBus>(bus: &mut B, addr: usize, len: usize) -> (r: Result<Vec<u8>, String>)
    ensures
        len == 0 ==> (r matches Ok(v) && v@.len() == 0),
        len == 0 || addr > 0xFF_FFFF ==> final(bus).history() == old(bus).history(),
        len > 0 && addr > 0xFF_FFFF ==> r is Err,
        len > 0 && addr <= 0xFF_FFFF ==> final(bus).history() == old(bus).history().push(
            transfer(read_frame(addr as int), len as nat),
        ),
        r matches Ok(v) ==> v@.len() == len,
        len == 0 || addr > 0xFF_FFFF ==> final(bus).replies() == old(bus).replies(),
        len > 0 && addr <= 0xFF_FFFF ==> read_answer(old(bus).replies(), final(bus).replies(), len as nat, r),
{
    if len == 0 {
        return Ok(Vec::new());
    }
    let a = addr24(addr)?;
    let f = addr_field(a);
    let write = [0x03, f[0], f[1], f[2]];
    assert(write@ =~= read_frame(addr as int));
    let res = bus.transact(&write, len);
    proof {
        assert(bus.replies().drop_last() =~= old(bus).replies());
    }
    let data = res?;
    if data.len() != len {
        return Err(msg_usize("SPI NOR READ returned ", data.len(), " bytes, expected a different length"));
    }
    Ok(data)
}

/// Write-enable (`[0x06]`).
pub fn write_enable<B: SpiBus>(bus: &mut B) -> (r: Result<(), String>)
    ensures
        final(bus).history() == old(bus).history().push(wren()),
        final(bus).replies().len() == old(bus).replies().len() + 1,
        final(bus).replies().drop_last() == old(bus).replies(),
        r is Ok <==> final(bus).replies().last() is Some,
{
    let res = transact1(bus, 0x06u8, 0);
    proof {
        assert(bus.replies().drop_last() =~= old(bus).replies());
    }
    let _ = res?;
    Ok(())
}

/// Write-enable and page-program `data` at `addr`. The data must be non-empty
/// and at most [`PAGE_SIZE`] bytes.
pub fn page_program<B: SpiBus>(bus: &mut B, addr: usize, data: &[u8]) -> (r: Result<(), String>)
    ensures
        data@.len() == 0 || data@.len() > PAGE_SIZE || addr > 0xFF_FFFF ==> {
            &&& r is Err
            &&& r->Err_0@ == program_error_text(addr as nat, data@.len())
            &&& final(bus).history() == old(bus).history()
        },
        0 < data@.len() <= PAGE_SIZE && addr <= 0xFF_FFFF ==> {
            ||| r is Err && final(bus).history() == old(bus).history().push(wren())
            ||| final(bus).history() == old(bus).history().push(wren()).push(
                transfer(program_frame(addr as int, data@), 0),
            )
        },
        data@.len() == 0 || data@.len() > PAGE_SIZE || addr > 0xFF_FFFF ==> final(bus).replies() == old(bus).replies(),
        0 < data@.len() <= PAGE_SIZE && addr <= 0xFF_FFFF ==> final(bus).replies().subrange(0, old(bus).replies().len() as int) == old(bus).replies()
            && (r is Ok <==> (final(bus).replies().len() == old(bus).replies().len() + 2
                && final(bus).replies()[old(bus).replies().len() as int] is Some
                && final(bus).replies()[old(bus).replies().len() + 1int] is Some)),
{
    if data.len() == 0 {
        return Err("program data must not be empty".to_string());
    }
    if data.len() > PAGE_SIZE {
        return Err(msg_usize("program data too long: ", data.len(), " bytes (max 256)"));
    }
    let a = addr24(addr)?;
    let f = addr_field(a);
    let ghost n0 = old(bus).replies().len() as int;
    let we = write_enable(bus);
    proof {
        assert(bus.replies().subrange(0, n0) =~= old(bus).replies());
    }
    we?;
    let ghost r1 = bus.replies();
    let mut write: Vec<u8> = Vec::with_capacity(4 + data.len());
    write.push(0x02);
    write.push(f[0]);
    write.push(f[1]);
    write.push(f[2]);
    let mut i: usize = 0;
    while i < data.len()
        invariant
            i <= data@.len(),
            write@ == seq![0x02u8] + addr_bytes(addr as int) + data@.subrange(0, i as int),
        decreases data@.len() - i,
    {
        write.push(data[i]);
        i = i + 1;
        assert(write@ =~= seq![0x02u8] + addr_bytes(addr as int) + data@.subrange(0, i as int));
    }
    assert(data@.subrange(0, data@.len() as int) =~= data@);
    let res = bus.transact(&write, 0);
    proof {
        assert(bus.replies().subrange(0, n0) =~= r1.subrange(0, n0));
        assert(bus.replies()[n0] == r1[n0]);
    }
    let _ = res?;
    Ok(())
}

/// Write-enable and erase the entire chip (`[0xC7]`).
pub fn erase_chip<B: SpiBus>(bus: &mut B) -> (r: Result<(), String>)
    ensures
        r is Err && final(bus).history() == old(bus).history().push(wren())
            || final(bus).history() == old(bus).history().push(wren()).push(
            transfer(seq![0xC7u8], 0),
        ),
{
    write_enable(bus)?;
    let _ = transact1(bus, 0xC7u8, 0)?;
    Ok(())
}

/// Write-enable and erase the 4 KiB sector containing `addr` (`[0x20, a2, a1, a0]`).
pub fn erase_sector<B: SpiBus>(bus: &mut B, addr: usize) -> (r: Result<(), String>)
    ensures
        addr > 0xFF_FFFF ==> r is Err && final(bus).history() == old(bus).history(),
        addr <= 0xFF_FFFF ==> {
            ||| r is Err && final(bus).history() == old(bus).history().push(wren())
            ||| final(bus).history() == old(bus).history().push(wren()).push(
                transfer(sector_erase_frame(addr as int), 0),
            )
        },
{
    let a = addr24(addr)?;
    let f = addr_field(a);
    write_enable(bus)?;
    let write = [0x20, f[0], f[1], f[2]];
    assert(write@ =~= sector_erase_frame(addr as int));
    let _ = bus.transact(&write, 0)?;
    Ok(())
}

/// Index of the first position where `expected` and `actual` differ, over
/// their common length.
pub open spec fn spec_first_mismatch(expected: Seq<u8>, actual: Seq<u8>) -> Option<int> {
    let n = if expected.len() < actual.len() { expected.len() } else { actual.len() };
    if exists|i: int| 0 <= i < n && expected[i] != actual[i] {
        Some(choose|i: int| 0 <= i < n && expected[i] != actual[i] && forall|j: int| 0 <= j < i ==> expected[j] == actual[j])
    } else {
        None
    }
}

/// First position where `expected` and `actual` differ (over their common length).
pub fn first_mismatch(expected: &[u8], actual: &[u8]) -> (r: Option<usize>)
    ensures
        match r {
            Some(i) => {
                &&& i < expected@.len()
                &&& i < actual@.len()
                &&& expected@[i as int] != actual@[i as int]
                &&& forall|j: int| 0 <= j < i ==> expected@[j] == actual@[j]
            },
            None => forall|j: int|
                0 <= j < expected@.len() && j < actual@.len() ==> expected@[j] == actual@[j],
        },
{
    let n = if expected.len() < actual.len() { expected.len() } else { actual.len() };
    let mut i: usize = 0;
    while i < n
        invariant
            i <= n,
            n <= expected@.len(),
            n <= actual@.len(),
            n == expected@.len() || n == actual@.len(),
            forall|j: int| 0 <= j < i ==> expected@[j] == actual@[j],
        decreases n - i,
    {
        if expected[i] != actual[i] {
            return Some(i);
        }
        i = i + 1;
    }
    None
}

/// `x`, or `u64::MAX` when it does not fit.
pub open spec fn saturated(x: int) -> u64 {
    if x > u64::MAX { u64::MAX } else { x as u64 }
}

/// `k` is the first position where `data` and `d` differ.
pub open spec fn first_difference(data: Seq<u8>, d: Seq<u8>, k: int) -> bool {
    &&& 0 <= k < data.len() && k < d.len()
    &&& data[k] != d[k]
    &&& forall|j: int| 0 <= j < k ==> data[j] == d[j]
}

/// One more reply than before; the verify succeeds exactly when it read
/// back `data`, and a difference is reported at its first position.
pub open spec fn verify_answer(before: Seq<Option<Seq<u8>>>, after: Seq<Option<Seq<u8>>>, addr: int, data: Seq<u8>, r: Result<(), String>) -> bool {
    &&& after.len() == before.len() + 1
    &&& after.drop_last() == before
    &&& match after.last() {
        Some(d) => if d.len() == data.len() {
            &&& (r is Ok <==> d == data)
            &&& (r matches Err(e) ==> exists|k: int| #[trigger] first_difference(data, d, k)
                && e@ == mismatch_text(saturated(addr + k), data[k], d[k]))
        } else {
            r is Err
        },
        None => r is Err,
    }
}

/// Read back `data` from `addr` and report the first mismatch as an error.
pub fn verify<B: SpiBus>(bus: &mut B, addr: usize, data: &[u8]) -> (r: Result<(), String>)
    ensures
        data@.len() == 0 ==> r is Ok && final(bus).history() == old(bus).history(),
        data@.len() > 0 && addr > 0xFF_FFFF ==> r is Err && final(bus).history() == old(bus).history(),
        data@.len() > 0 && addr <= 0xFF_FFFF ==> final(bus).history() == old(bus).history().push(
            transfer(read_frame(addr as int), data@.len()),
        ),
        data@.len() > 0 && addr <= 0xFF_FFFF ==> verify_answer(old(bus).replies(), final(bus).replies(), addr as int, data@, r),
{
    let actual = read(bus, addr, data.len())?;
    match first_mismatch(data, &actual) {
        Some(i) => {
            assert(first_difference(data@, actual@, i as int));
            let at = (addr as u64).saturating_add(i as u64);
            assert(at == saturated(addr + i));
            Err(msg_mismatch(at, data[i], actual[i]))
        },
        None => {
            assert(actual@ =~= data@);
            Ok(())
        },
    }
}

/// Block-protect bits: SR1 BP0..BP2 plus `0x20` for BP4 (SR2 bit 6) when SR2
/// is valid (an all-`0xFF` SR2 read means the register does not exist).
pub open spec fn spec_nor_bp_bits(sr1: u8, sr2: u8) -> u8 {
    ((sr1 & BP_MASK_SR1) | if sr2 != 0xFF && (sr2 & 0x40) != 0 { 0x20u8 } else { 0u8 }) as u8
}

/// Block-protect bits from the status registers.
pub fn nor_bp_bits(sr1: u8, sr2: u8) -> (r: u8)
    ensures
        r == spec_nor_bp_bits(sr1, sr2),
{
    (sr1 & BP_MASK_SR1) | if sr2 != 0xFF && (sr2 & 0x40) != 0 { 0x20 } else { 0 }
}

/// Raw status-register snapshot used by the generic write-protect commands.
#[derive(Debug, Clone, PartialEq, Eq)]
pub struct NorWpStatus {
    pub sr1: u8,
    pub sr2: u8,
    pub sr3: u8,
    pub bp_bits: u8,
    pub write_protected: bool,
}

/// The snapshot is internally consistent: protect bits derive from SR1/SR2.
pub open spec fn wp_consistent(s: NorWpStatus) -> bool {
    &&& s.bp_bits == spec_nor_bp_bits(s.sr1, s.sr2)
    &&& s.write_protected == (s.bp_bits != 0)
}

/// Build a snapshot from the three status registers.
pub fn wp_snapshot(sr1: u8, sr2: u8, sr3: u8) -> (s: NorWpStatus)
    ensures
        s.sr1 == sr1 && s.sr2 == sr2 && s.sr3 == sr3,
        wp_consistent(s),
{
    let bp_bits = nor_bp_bits(sr1, sr2);
    NorWpStatus { sr1, sr2, sr3, bp_bits, write_protected: bp_bits != 0 }
}

/// Status-register reads `[0x05]`, `[0x35]`, `[0x15]`, one byte each.
pub open spec fn status_reads() -> Seq<SpiTransfer> {
    seq![transfer(seq![0x05u8], 1), transfer(seq![0x35u8], 1), transfer(seq![0x15u8], 1)]
}

/// Read one optional status register: a failed or empty read counts as `0xFF`.
fn optional_status<B: SpiBus>(bus: &mut B, opcode: u8) -> (r: u8)
    ensures
        final(bus).history() == old(bus).history().push(transfer(seq![opcode], 1)),
        final(bus).replies().len() == old(bus).replies().len() + 1,
        final(bus).replies().drop_last() == old(bus).replies(),
        r == reg_or_ff(final(bus).replies().last()),
{
    let res = transact1(bus, opcode, 1);
    proof {
        assert(bus.replies().drop_last() =~= old(bus).replies());
    }
    match res {
        Ok(v) => if v.len() > 0 { v[0] } else { 0xFF },
        Err(_) => 0xFF,
    }
}

/// The register an optional status read gives: its first byte, or `0xFF`
/// when the read failed or was empty.
pub open spec fn reg_or_ff(o: Option<Seq<u8>>) -> u8 {
    match o {
        Some(d) => if d.len() > 0 { d[0] } else { 0xFF },
        None => 0xFF,
    }
}

/// A read that gave at least one byte.
pub open spec fn got_byte(o: Option<Seq<u8>>) -> bool {
    o matches Some(d) && d.len() > 0
}

/// The status snapshot from the replies after `n` earlier ones: SR1 must
/// have answered; SR2 and SR3 read as `0xFF` when they did not.
pub open spec fn status_answer(before: Seq<Option<Seq<u8>>>, after: Seq<Option<Seq<u8>>>, r: Result<NorWpStatus, String>) -> bool {
    let n = before.len() as int;
    &&& after.len() >= n + 1
    &&& after.subrange(0, n) == before
    &&& (r is Ok <==> got_byte(after[n]))
    &&& (r is Err ==> after.len() == n + 1)
    &&& (r matches Ok(s) ==> after.len() == n + 3 && s.sr1 == reg_or_ff(after[n]) && s.sr2 == reg_or_ff(after[n + 1])
        && s.sr3 == reg_or_ff(after[n + 2]))
}

/// Read SR1/SR2/SR3 and report the write-protection state. SR1 is mandatory;
/// SR2 and SR3 are optional and read as `0xFF` when they fail.
pub fn wp_status<B: SpiBus>(bus: &mut B) -> (r: Result<NorWpStatus, String>)
    ensures
        r is Err ==> final(bus).history() == old(bus).history().push(status_reads()[0]),
        r matches Ok(s) ==> wp_consistent(s) && final(bus).history() == old(bus).history()
            + status_reads(),
        status_answer(old(bus).replies(), final(bus).replies(), r),
{
    let ghost n0 = old(bus).replies().len() as int;
    let res = transact1(bus, 0x05u8, 1);
    proof {
        assert(bus.replies().subrange(0, n0) =~= old(bus).replies());
    }
    let sr1v = res?;
    if sr1v.len() == 0 {
        return Err("SPI NOR SR1 read returned no data".to_string());
    }
    let sr1 = sr1v[0];
    let ghost r1 = bus.replies();
    let sr2 = optional_status(bus, 0x35);
    let ghost r2 = bus.replies();
    let sr3 = optional_status(bus, 0x15);
    proof {
        assert(bus.replies().subrange(0, n0) =~= old(bus).replies());
        assert(bus.replies()[n0] == r1[n0]);
        assert(bus.replies()[n0 + 1] == r2[n0 + 1]);
    }
    let s = wp_snapshot(sr1, sr2, sr3);
    assert(final(bus).history() =~= old(bus).history() + status_reads());
    Ok(s)
}

/// The write sequence that clears the protect bits of snapshot `s`: EWSR,
/// WREN, WRSR with BP0..BP2 cleared, then (when SR2 holds BP4) WREN and WRSR2
/// with bit 6 cleared.
pub open spec fn unprotect_writes(s: NorWpStatus) -> Seq<SpiTransfer> {
    let base = seq![
        transfer(seq![0x50u8], 0),
        wren(),
        transfer(seq![0x01u8, (s.sr1 & !BP_MASK_SR1) as u8], 0),
    ];
    if s.sr2 != 0xFF && (s.sr2 & 0x40) != 0 {
        base + seq![wren(), transfer(seq![0x31u8, (s.sr2 & !0x40u8) as u8], 0)]
    } else {
        base
    }
}

/// Disable the SPI NOR block-protect bits and report the resulting status.
/// When nothing is protected the first snapshot is returned unchanged.
pub fn wp_disable<B: SpiBus>(bus: &mut B) -> (r: Result<NorWpStatus, String>)
    ensures
        r matches Ok(s) ==> wp_consistent(s),
        r matches Ok(s) ==> (!s.write_protected && final(bus).history() == old(bus).history()
            + status_reads()) || exists|b: NorWpStatus|
            {
                &&& wp_consistent(b)
                &&& b.write_protected
                &&& final(bus).history() == old(bus).history() + status_reads()
                    + unprotect_writes(b) + status_reads()
            },
        r matches Ok(s) ==> disable_answer(old(bus).replies(), final(bus).replies(), s),
        final(bus).replies().len() > old(bus).replies().len(),
        got_byte(final(bus).replies()[old(bus).replies().len() as int])
            && spec_nor_bp_bits(reg_or_ff(final(bus).replies()[old(bus).replies().len() as int]),
                reg_or_ff(final(bus).replies()[old(bus).replies().len() + 1int])) == 0
            ==> (r matches Ok(s) && final(bus).replies().len() == old(bus).replies().len() + 3
                && s.sr1 == reg_or_ff(final(bus).replies()[old(bus).replies().len() as int])
                && s.sr2 == reg_or_ff(final(bus).replies()[old(bus).replies().len() + 1int])
                && s.sr3 == reg_or_ff(final(bus).replies()[old(bus).replies().len() + 2int])),
{
    let ghost r0 = bus.replies();
    let before = wp_status(bus)?;
    let ghost r1 = bus.replies();
    let ghost n = r0.len() as int;
    if !before.write_protected {
        return Ok(before);
    }
    let ghost h0 = bus.history();
    let _ = transact1(bus, 0x50u8, 0)?;
    let _ = transact1(bus, 0x06u8, 0)?;
    let sr1_new = before.sr1 & !BP_MASK_SR1;
    let _ = transact2(bus, 0x01u8, sr1_new, 0)?;
    if before.sr2 != 0xFF && (before.sr2 & 0x40) != 0 {
        let _ = transact1(bus, 0x06u8, 0)?;
        let sr2_new = before.sr2 & !0x40;
        let _ = transact2(bus, 0x31u8, sr2_new, 0)?;
    }
    assert(bus.history() =~= h0 + unprotect_writes(before));
    let ghost r2 = bus.replies();
    proof {
        assert(r2.len() >= r1.len() + 3);
        assert(r2.subrange(0, r1.len() as int) =~= r1);
    }
    let after = wp_status(bus)?;
    assert(bus.history() =~= old(bus).history() + status_reads() + unprotect_writes(before) + status_reads());
    proof {
        let rs = bus.replies();
        assert(rs.subrange(0, r2.len() as int) == r2);
        assert(rs.subrange(0, n) =~= r0) by {
            assert(rs.subrange(0, n) =~= r2.subrange(0, r1.len() as int).subrange(0, n));
        }
        assert(rs[n] == r1[n]) by {
            assert(rs[n] == rs.subrange(0, r2.len() as int)[n]);
            assert(r2[n] == r2.subrange(0, r1.len() as int)[n]);
        }
        assert(rs[n + 1] == r1[n + 1]) by {
            assert(rs[n + 1] == rs.subrange(0, r2.len() as int)[n + 1]);
            assert(r2[n + 1] == r2.subrange(0, r1.len() as int)[n + 1]);
        }
    }
    Ok(after)
}

/// The snapshot a write-protect disable returns, from the replies after
/// the earlier ones: the last three status reads; exactly three replies
/// were added when the first snapshot showed no protection.
pub open spec fn disable_answer(before: Seq<Option<Seq<u8>>>, after: Seq<Option<Seq<u8>>>, s: NorWpStatus) -> bool {
    let n = before.len() as int;
    let m = after.len() as int;
    &&& m >= n + 3
    &&& after.subrange(0, n) == before
    &&& s.sr1 == reg_or_ff(after[m - 3]) && s.sr2 == reg_or_ff(after[m - 2]) && s.sr3 == reg_or_ff(after[m - 1])
    &&& (m == n + 3) == (spec_nor_bp_bits(reg_or_ff(after[n]), reg_or_ff(after[n + 1])) == 0)
}

} // verus!
