//! Chip-level command sequences for the non-NOR chip families: SPI EEPROM
//! (25xx), DataFlash (AT45), SPI NAND, I2C EEPROM (24xx) and Microwire
//! (93xx).
//!
//! Every driver assumes an already-open programmer in the right bus mode
//! (see [`bus_mode_for_protocol`]); chip select, START and STOP are driven
//! by hand. The pure parts (address encodings, packet layouts, table
//! decoding, geometry) have exact contracts; the drivers guarantee the
//! shape of what they hand back.
use vstd::prelude::*;
use crate::ch34x::{DeviceMode, ProgrammerHal};
use crate::chipdb::{ChipInfo, attr_number, keys_unique, pairs_view};
use crate::progress::{BlockProgress, ByteProgress, NoProgress};
use crate::text::{msg_usize, str_eq};
use crate::spi_bus::{reply_of, transfer, Ch34xSpiBus, SpiBus, SpiTransfer};
use crate::operations::{all_answered, answered, asked, extends, gained, replied};

verus! {

// ─────────────────────────────── parameters ───────────────────────────────

/// Geometry and algorithm fields of a chip record used by the drivers.
pub struct ChipParams {
    pub protocol: String,
    pub page: usize,
    pub sector: usize,
    pub block: usize,
    pub algorithm: u8,
    pub addr4bit: u8,
    pub spare: usize,
}

pub open spec fn or_default(v: Option<int>, d: int) -> int {
    match v {
        Some(x) => x,
        None => d,
    }
}

/// `ChipParams::from_info`: the attribute-derived geometry. A missing block
/// size defaults to 64 KiB for SPI NOR/NAND; the sector defaults to the
/// page; page and sector are at least 1; numeric attributes are truncated
/// to the field width as `as` casts do.
pub open spec fn params_match(p: ChipParams, info: ChipInfo) -> bool {
    let attrs = pairs_view(info.attrs@);
    let u32max = 0xFFFF_FFFFint;
    let u64max = 0xFFFF_FFFF_FFFF_FFFFint;
    let block = or_default(attr_number(attrs, "block"@, u64max), 0);
    &&& p.protocol@ == info.protocol@
    &&& p.page == (if info.page == 0 { 1 } else { info.page as int })
    &&& p.sector == (if or_default(attr_number(attrs, "sector"@, u64max), info.page as int) == 0 { 1 }
        else { (or_default(attr_number(attrs, "sector"@, u64max), info.page as int) as u64) as usize as int })
    &&& p.block == (if block == 0 {
        if info.protocol@ == "SPI_NOR"@ || info.protocol@ == "SPI_NAND"@ { 65536 } else { 0 }
    } else {
        (block as u64) as usize as int
    })
    &&& p.algorithm == (or_default(attr_number(attrs, "algorithm"@, u32max), 0) as u32) as u8
    &&& p.addr4bit == (or_default(attr_number(attrs, "addr4bit"@, u32max), 0) as u32) as u8
    &&& p.spare == (or_default(attr_number(attrs, "spare"@, u64max), 0) as u64) as usize
}

impl ChipParams {
    /// Derive driver parameters from a chip record.
    pub fn from_info(info: &ChipInfo) -> (p: ChipParams)
        requires
            keys_unique(pairs_view(info.attrs@)),
        ensures
            params_match(p, *info),
    {
        let addr4bit = match info.attr_u32("addr4bit") {
            Some(v) => v as u8,
            None => 0,
        };
        let mut block = match info.attr_u64("block") {
            Some(v) => v as usize,
            None => 0,
        };
        let raw_block = match info.attr_u64("block") {
            Some(v) => v,
            None => 0,
        };
        if raw_block == 0 {
            block = if str_eq(info.protocol.as_str(), "SPI_NOR") || str_eq(info.protocol.as_str(), "SPI_NAND") {
                65536
            } else {
                0
            };
        }
        let page: usize = if info.page == 0 { 1 } else { info.page as usize };
        let sector_raw: u64 = match info.attr_u64("sector") {
            Some(v) => v,
            None => info.page as u64,
        };
        let sector: usize = if sector_raw == 0 { 1 } else { sector_raw as usize };
        let algorithm = match info.attr_u32("algorithm") {
            Some(v) => v as u8,
            None => 0,
        };
        let spare = match info.attr_u64("spare") {
            Some(v) => v as usize,
            None => 0,
        };
        let p = ChipParams {
            protocol: info.protocol.clone(),
            page,
            sector,
            block,
            algorithm,
            addr4bit,
            spare,
        };
        p
    }

    /// Whether the chip uses 4-byte addressing (low nibble of `addr4bit`).
    pub fn addr4b(&self) -> (r: bool)
        ensures
            r == (self.addr4bit % 16 != 0),
    {
        let a = self.addr4bit;
        assert((a & 0x0F) == a % 16) by (bit_vector);
        (a & 0x0F) != 0
    }

    /// 4-byte address algorithm (high nibble of `addr4bit`): 0 = B7/E9,
    /// 1 = Winbond, 2 = Spansion.
    pub fn addr4b_alg(&self) -> (r: u8)
        ensures
            r == self.addr4bit / 16,
    {
        let a = self.addr4bit;
        assert(((a >> 4) & 0x0F) == a / 16) by (bit_vector);
        (a >> 4) & 0x0F
    }
}

/// The bus mode a protocol family is driven in.
pub open spec fn spec_bus_mode(protocol: Seq<char>) -> DeviceMode {
    if protocol == "I2C"@ || protocol == "I2C_F-RAM"@ || protocol == "I2C_SPD"@ {
        DeviceMode::I2c
    } else if protocol == "Microwire"@ {
        DeviceMode::Microwire
    } else {
        DeviceMode::Spi
    }
}

/// The bus mode a protocol family is driven in.
pub fn bus_mode_for_protocol(protocol: &str) -> (m: DeviceMode)
    ensures
        m == spec_bus_mode(protocol@),
{
    if str_eq(protocol, "I2C") || str_eq(protocol, "I2C_F-RAM") || str_eq(protocol, "I2C_SPD") {
        DeviceMode::I2c
    } else if str_eq(protocol, "Microwire") {
        DeviceMode::Microwire
    } else {
        DeviceMode::Spi
    }
}

// ──────────────────────────── shared helpers ─────────────────────────────

/// `min(a, b, c)`.
pub fn min3(a: usize, b: usize, c: usize) -> (r: usize)
    ensures
        r <= a && r <= b && r <= c,
        r == a || r == b || r == c,
{
    let m = if a < b { a } else { b };
    if m < c { m } else { c }
}

/// Frame budget left for data after a `header`-byte command, at least 1.
pub fn frame_budget(limit: usize, header: usize) -> (r: usize)
    ensures
        r == (if limit > header { limit - header } else { 1 }),
        r >= 1,
{
    if limit > header { limit - header } else { 1 }
}

/// Chip-select framed command: CS low, `cmd`, CS high.
pub fn cs_cmd<H: ProgrammerHal + ?Sized>(dev: &H, cmd: &[u8]) -> Result<(), String> {
    dev.cs_low()?;
    dev.spi_tx(cmd)?;
    dev.cs_high()
}

/// Send `cmd` and read one register byte back.
pub fn read_reg<H: ProgrammerHal + ?Sized>(dev: &H, cmd: &[u8]) -> Result<u8, String> {
    dev.cs_low()?;
    dev.spi_tx(cmd)?;
    let mut sr = [0xFFu8; 1];
    dev.spi_rx(&mut sr)?;
    dev.cs_high()?;
    Ok(sr[0])
}

/// Whether a status byte reports ready: all `mask` bits clear, or (with
/// `ready_when_set`) any `mask` bit set.
pub open spec fn status_ready(sr: u8, mask: u8, ready_when_set: bool) -> bool {
    if ready_when_set {
        sr & mask != 0
    } else {
        sr & mask == 0
    }
}

/// Poll the status register read by `cmd` every 5 ms until it reports
/// ready, failing with `timeout_msg` once `timeout_ms` has passed.
pub fn poll_ready<H: ProgrammerHal + ?Sized>(
    dev: &H,
    cmd: &[u8],
    mask: u8,
    ready_when_set: bool,
    timeout_ms: u64,
    timeout_msg: &str,
) -> Result<(), String> {
    let start = dev.now_ms();
    let max_polls: u64 = timeout_ms / 5 + 2;
    let mut polls: u64 = 0;
    while polls < max_polls
        decreases max_polls - polls,
    {
        let sr = read_reg(dev, cmd)?;
        if (ready_when_set && sr & mask != 0) || (!ready_when_set && sr & mask == 0) {
            return Ok(());
        }
        let now = dev.now_ms();
        let elapsed = if now >= start { now - start } else { 0 };
        if elapsed > timeout_ms {
            return Err(String::from_str(timeout_msg));
        }
        dev.delay_ms(5);
        polls = polls + 1;
    }
    Err(String::from_str(timeout_msg))
}

// ──────────────────────────── SPI EEPROM (25xx) ────────────────────────────

fn s95_wait_ready<H: ProgrammerHal + ?Sized>(dev: &H, timeout_ms: u64) -> Result<(), String> {
    poll_ready(dev, &[0x05], 0x03, false, timeout_ms, "等待 EEPROM 就绪超时")
}

fn s95_unprotect<H: ProgrammerHal + ?Sized>(dev: &H) -> Result<(), String> {
    let sr = read_reg(dev, &[0x05])?;
    if (sr & 0x0C) != 0 {
        cs_cmd(dev, &[0x01, 0x00])?;
        s95_wait_ready(dev, 1000)?;
    }
    Ok(())
}

/// Address bytes of a 25xx command for address algorithm `alg` (low nibble
/// of the chip's algorithm): 3 bytes for 2, 2 bytes for other non-zero
/// values, 1 byte for 0; most significant first.
pub open spec fn spec_s95_addr(alg: u8, addr: u64) -> Seq<u8> {
    let hi = if alg == 2 { seq![((addr / 0x1_0000) % 256) as u8] } else { Seq::empty() };
    let mid = if alg > 0 { seq![((addr / 0x100) % 256) as u8] } else { Seq::empty() };
    hi + mid + seq![(addr % 256) as u8]
}

/// The read transfers `h` go through the bytes from `from` on in order:
/// transfer `k` writes `frame(from + what the ones before asked for)` and
/// reads at least one byte.
pub open spec fn framed_reads(h: Seq<SpiTransfer>, from: u64, frame: spec_fn(u64) -> Seq<u8>) -> bool {
    forall|k: int| 0 <= k < h.len() ==> {
        &&& (#[trigger] h[k]).write == frame((from + asked(h.take(k))) as u64)
        &&& h[k].read_len > 0
    }
}

/// What a framed read over a bus sent and got: the reads of `frame`, one
/// reply each; the bytes exactly when every read came back whole, and then
/// the replies one after another, `len` in all.
pub open spec fn framed_read_outcome(h0: Seq<SpiTransfer>, h1: Seq<SpiTransfer>, r0: Seq<Option<Seq<u8>>>, r1: Seq<Option<Seq<u8>>>,
    from: u64, len: nat, frame: spec_fn(u64) -> Seq<u8>, r: Result<Vec<u8>, String>) -> bool {
    let h = gained(h0, h1);
    let rs = gained(r0, r1);
    &&& extends(h0, h1) && extends(r0, r1)
    &&& h.len() == rs.len()
    &&& framed_reads(h, from, frame)
    &&& (r is Ok ==> all_answered(h, rs) && asked(h) == len)
    &&& (r matches Ok(out) ==> out@ == replied(rs))
    &&& (r is Err ==> h.len() == 0 || !all_answered(h, rs))
}

proof fn lemma_framed_push(h0: Seq<SpiTransfer>, hb: Seq<SpiTransfer>, r0: Seq<Option<Seq<u8>>>, rb: Seq<Option<Seq<u8>>>,
    from: u64, frame: spec_fn(u64) -> Seq<u8>, t: SpiTransfer, o: Option<Seq<u8>>)
    requires
        extends(h0, hb) && extends(r0, rb),
        gained(h0, hb).len() == gained(r0, rb).len(),
        framed_reads(gained(h0, hb), from, frame),
        t.write == frame((from + asked(gained(h0, hb))) as u64),
        t.read_len > 0,
    ensures
        extends(h0, hb.push(t)) && extends(r0, rb.push(o)),
        gained(h0, hb.push(t)) == gained(h0, hb).push(t),
        gained(r0, rb.push(o)) == gained(r0, rb).push(o),
        gained(h0, hb.push(t)).len() == gained(r0, rb.push(o)).len(),
        framed_reads(gained(h0, hb.push(t)), from, frame),
        asked(gained(h0, hb.push(t))) == asked(gained(h0, hb)) + t.read_len,
        replied(gained(r0, rb.push(o))) == replied(gained(r0, rb)) + match o {
            Some(d) => d,
            None => Seq::<u8>::empty(),
        },
        !answered(o, t.read_len) ==> !all_answered(gained(h0, hb.push(t)), gained(r0, rb.push(o))),
        all_answered(gained(h0, hb), gained(r0, rb)) && answered(o, t.read_len)
            ==> all_answered(gained(h0, hb.push(t)), gained(r0, rb.push(o))),
{
    let g = gained(h0, hb);
    let gr = gained(r0, rb);
    assert(gained(h0, hb.push(t)) =~= g.push(t));
    assert(gained(r0, rb.push(o)) =~= gr.push(o));
    assert(hb.push(t).subrange(0, h0.len() as int) =~= hb.subrange(0, h0.len() as int));
    assert(rb.push(o).subrange(0, r0.len() as int) =~= rb.subrange(0, r0.len() as int));
    assert(g.push(t).drop_last() =~= g);
    assert(gr.push(o).drop_last() =~= gr);
    assert forall|k: int| 0 <= k < g.push(t).len() implies {
        &&& (#[trigger] g.push(t)[k]).write == frame((from + asked(g.push(t).take(k))) as u64)
        &&& g.push(t)[k].read_len > 0
    } by {
        if k < g.len() {
            assert(g.push(t).take(k) =~= g.take(k));
        } else {
            assert(g.push(t).take(k) =~= g);
        }
    }
    if !answered(o, t.read_len) {
        assert(gr.push(o)[g.len() as int] == o);
    }
    if all_answered(g, gr) && answered(o, t.read_len) {
        assert forall|k: int| 0 <= k < g.push(t).len() implies answered(#[trigger] gr.push(o)[k], g.push(t)[k].read_len) by {
            if k < g.len() {
                assert(gr.push(o)[k] == gr[k]);
            }
        }
    }
}

/// The 25xx read frame at `addr`: the opcode, then the address bytes.
pub open spec fn s95_read_frame(op: u8, alg: u8) -> spec_fn(u64) -> Seq<u8> {
    |addr: u64| seq![op] + spec_s95_addr(alg, addr)
}

/// The DataFlash continuous-read frame (`E8h`) at `addr`, with four dummy bytes.
pub open spec fn at45_read_frame(sector: usize) -> spec_fn(u64) -> Seq<u8> {
    |addr: u64| seq![0xE8u8, ((spec_at45_physical(sector, addr) / 0x1_0000) % 256) as u8,
        ((spec_at45_physical(sector, addr) / 0x100) % 256) as u8, (spec_at45_physical(sector, addr) % 256) as u8,
        0xFFu8, 0xFFu8, 0xFFu8, 0xFFu8]
}

/// The data bytes the program frames `h` carried, each after a header of
/// `hdr` bytes.
pub open spec fn carried(h: Seq<SpiTransfer>, hdr: nat) -> nat
    decreases h.len(),
{
    if h.len() == 0 { 0 } else { carried(h.drop_last(), hdr) + (h.last().write.len() - hdr) as nat }
}

/// The program frames `h` write `data` from `start` on in order: frame `k`
/// is `frame(address)` followed by the next one or more bytes of `data`,
/// with nothing read back.
pub open spec fn framed_writes(h: Seq<SpiTransfer>, data: Seq<u8>, start: u64, hdr: nat, frame: spec_fn(u64) -> Seq<u8>) -> bool {
    forall|k: int| 0 <= k < h.len() ==> {
        let off = carried(h.take(k), hdr) as int;
        &&& (#[trigger] h[k]).read_len == 0
        &&& frame((start + off) as u64).len() == hdr
        &&& h[k].write.len() > hdr
        &&& off + (h[k].write.len() - hdr) <= data.len()
        &&& h[k].write == frame((start + off) as u64) + data.subrange(off, off + (h[k].write.len() - hdr))
    }
}

/// What a framed write over a bus sent: its program frames, one reply
/// each; success exactly when all of `data` went out and every frame was
/// taken.
pub open spec fn framed_write_outcome(h0: Seq<SpiTransfer>, h1: Seq<SpiTransfer>, r0: Seq<Option<Seq<u8>>>, r1: Seq<Option<Seq<u8>>>,
    data: Seq<u8>, start: u64, hdr: nat, frame: spec_fn(u64) -> Seq<u8>, r: Result<(), String>) -> bool {
    let h = gained(h0, h1);
    let rs = gained(r0, r1);
    &&& extends(h0, h1) && extends(r0, r1)
    &&& h.len() == rs.len()
    &&& framed_writes(h, data, start, hdr, frame)
    &&& (r is Ok ==> carried(h, hdr) == data.len() && forall|k: int| 0 <= k < rs.len() ==> (#[trigger] rs[k]) is Some)
}

proof fn lemma_write_push(h0: Seq<SpiTransfer>, hb: Seq<SpiTransfer>, r0: Seq<Option<Seq<u8>>>, rb: Seq<Option<Seq<u8>>>,
    data: Seq<u8>, start: u64, hdr: nat, frame: spec_fn(u64) -> Seq<u8>, t: SpiTransfer, o: Option<Seq<u8>>)
    requires
        extends(h0, hb) && extends(r0, rb),
        gained(h0, hb).len() == gained(r0, rb).len(),
        framed_writes(gained(h0, hb), data, start, hdr, frame),
        t.read_len == 0,
        frame((start + carried(gained(h0, hb), hdr)) as u64).len() == hdr,
        t.write.len() > hdr,
        carried(gained(h0, hb), hdr) + (t.write.len() - hdr) <= data.len(),
        t.write == frame((start + carried(gained(h0, hb), hdr)) as u64) + data.subrange(carried(gained(h0, hb), hdr) as int,
            carried(gained(h0, hb), hdr) + (t.write.len() - hdr)),
    ensures
        extends(h0, hb.push(t)) && extends(r0, rb.push(o)),
        gained(h0, hb.push(t)) == gained(h0, hb).push(t),
        gained(r0, rb.push(o)) == gained(r0, rb).push(o),
        gained(h0, hb.push(t)).len() == gained(r0, rb.push(o)).len(),
        framed_writes(gained(h0, hb.push(t)), data, start, hdr, frame),
        carried(gained(h0, hb.push(t)), hdr) == carried(gained(h0, hb), hdr) + (t.write.len() - hdr),
{
    let g = gained(h0, hb);
    assert(gained(h0, hb.push(t)) =~= g.push(t));
    assert(gained(r0, rb.push(o)) =~= gained(r0, rb).push(o));
    assert(hb.push(t).subrange(0, h0.len() as int) =~= hb.subrange(0, h0.len() as int));
    assert(rb.push(o).subrange(0, r0.len() as int) =~= rb.subrange(0, r0.len() as int));
    assert(g.push(t).drop_last() =~= g);
    assert forall|k: int| 0 <= k < g.push(t).len() implies {
        let off = carried(g.push(t).take(k), hdr) as int;
        &&& (#[trigger] g.push(t)[k]).read_len == 0
        &&& frame((start + off) as u64).len() == hdr
        &&& g.push(t)[k].write.len() > hdr
        &&& off + (g.push(t)[k].write.len() - hdr) <= data.len()
        &&& g.push(t)[k].write == frame((start + off) as u64) + data.subrange(off, off + (g.push(t)[k].write.len() - hdr))
    } by {
        if k < g.len() {
            assert(g.push(t).take(k) =~= g.take(k));
        } else {
            assert(g.push(t).take(k) =~= g);
        }
    }
}

/// The 25xx program frame header at `addr`: the opcode, then the address.
pub open spec fn s95_write_frame(op: u8, alg: u8) -> spec_fn(u64) -> Seq<u8> {
    |addr: u64| seq![op] + spec_s95_addr(alg, addr)
}

/// The DataFlash program-through-buffer frame header (`82h`) at `addr`.
pub open spec fn at45_write_frame(sector: usize) -> spec_fn(u64) -> Seq<u8> {
    |addr: u64| seq![0x82u8, ((spec_at45_physical(sector, addr) / 0x1_0000) % 256) as u8,
        ((spec_at45_physical(sector, addr) / 0x100) % 256) as u8, (spec_at45_physical(sector, addr) % 256) as u8]
}

/// Encode a 25xx address.
pub fn s95_addr(alg: u8, addr: u64) -> (r: Vec<u8>)
    ensures
        r@ == spec_s95_addr(alg, addr),
{
    let mut cmd: Vec<u8> = Vec::new();
    if alg == 2 {
        cmd.push(((addr / 0x1_0000) % 256) as u8);
    }
    if alg > 0 {
        cmd.push(((addr / 0x100) % 256) as u8);
    }
    cmd.push((addr % 256) as u8);
    assert(cmd@ =~= spec_s95_addr(alg, addr));
    cmd
}

/// Read `len` bytes of a 25xx EEPROM from `from`, in chunks bounded by the
/// sector size and the programmer's frame.
#[verifier::spinoff_prover]
#[verifier::rlimit(60)]
pub fn s95_read<'a, H: ProgrammerHal + ?Sized, P: ByteProgress>(
    bus: &mut Ch34xSpiBus<'a, H>,
    params: &ChipParams,
    from: u64,
    len: usize,
    progress: &mut P,
) -> (r: Result<Vec<u8>, String>)
    requires
        from + len <= u64::MAX,
    ensures
        r matches Ok(out) ==> out@.len() == len,
        framed_read_outcome(old(bus).history(), final(bus).history(), old(bus).replies(), final(bus).replies(), from, len as nat,
            s95_read_frame(if from > 255 && (params.algorithm & 0x10) > 0 { 0x0Bu8 } else { 0x03u8 }, params.algorithm & 0x0F), r),
{
    let alg = params.algorithm & 0x0F;
    let a8 = params.algorithm & 0x10;
    let op: u8 = if from > 255 && a8 > 0 { 0x0B } else { 0x03 };
    let ghost frame = s95_read_frame(if from > 255 && (params.algorithm & 0x10) > 0 { 0x0Bu8 } else { 0x03u8 },
        params.algorithm & 0x0F);
    assert(op == (if from > 255 && (params.algorithm & 0x10) > 0 { 0x0Bu8 } else { 0x03u8 }));
    let sector = if params.sector > 0 { params.sector } else { 1 };
    let max_chunk = frame_budget(bus.dev.spi_frame_limit(), 5);
    let ghost h0 = bus.history();
    let ghost r0 = bus.replies();
    proof {
        assert(h0.subrange(0, h0.len() as int) =~= h0);
        assert(r0.subrange(0, r0.len() as int) =~= r0);
        assert(gained(h0, h0) =~= Seq::<SpiTransfer>::empty());
        assert(gained(r0, r0) =~= Seq::<Option<Seq<u8>>>::empty());
    }
    s95_wait_ready(bus.dev, 1000)?;
    let total = len as u64;
    let mut out: Vec<u8> = Vec::new();
    let mut addr = from;
    let mut done: usize = 0;
    while done < len
        invariant
            done <= len,
            out@.len() == done,
            addr == from + done,
            from + len <= u64::MAX,
            sector >= 1,
            max_chunk >= 1,
            h0 == old(bus).history(),
            r0 == old(bus).replies(),
            frame == s95_read_frame(op, alg),
            op == (if from > 255 && (params.algorithm & 0x10) > 0 { 0x0Bu8 } else { 0x03u8 }),
            alg == params.algorithm & 0x0F,
            extends(h0, bus.history()) && extends(r0, bus.replies()),
            gained(h0, bus.history()).len() == gained(r0, bus.replies()).len(),
            framed_reads(gained(h0, bus.history()), from, frame),
            all_answered(gained(h0, bus.history()), gained(r0, bus.replies())),
            asked(gained(h0, bus.history())) == done,
            out@ == replied(gained(r0, bus.replies())),
        decreases len - done,
    {
        let chunk = min3(len - done, sector, max_chunk);
        let mut cmd: Vec<u8> = Vec::new();
        cmd.push(op);
        let tail = s95_addr(alg, addr);
        append(&mut cmd, &tail);
        assert(cmd@ =~= frame(addr));
        let ghost hb = bus.history();
        let ghost rb = bus.replies();
        let res = bus.transact(cmd.as_slice(), chunk);
        proof {
            lemma_framed_push(h0, hb, r0, rb, from, frame, transfer(cmd@, chunk as nat), reply_of(res));
        }
        let buf = match res {
            Ok(b) => b,
            Err(e) => {
                assert(!answered(reply_of(Err::<Vec<u8>, String>(e)), chunk as nat));
                return Err(e);
            },
        };
        if buf.len() != chunk {
            assert(!answered(reply_of(Ok::<Vec<u8>, String>(buf)), chunk as nat));
            return Err(msg_usize("EEPROM 读取长度不符: ", buf.len(), ""));
        }
        append(&mut out, &buf);
        addr = addr + chunk as u64;
        done = done + chunk;
        progress.report(done as u64, total);
    }
    Ok(out)
}

/// `n` copies of `b`.
pub fn vec_filled(b: u8, n: usize) -> (r: Vec<u8>)
    ensures
        r@ == Seq::new(n as nat, |i: int| b),
{
    let mut v: Vec<u8> = Vec::new();
    while v.len() < n
        invariant
            v@.len() <= n,
            forall|i: int| 0 <= i < v@.len() ==> v@[i] == b,
        decreases n - v.len(),
    {
        v.push(b);
    }
    assert(v@ =~= Seq::new(n as nat, |i: int| b));
    v
}

/// Append `src` to `dst`.
pub fn append(dst: &mut Vec<u8>, src: &Vec<u8>)
    ensures
        final(dst)@ == old(dst)@ + src@,
{
    let mut i: usize = 0;
    let ghost d0 = dst@;
    while i < src.len()
        invariant
            i <= src@.len(),
            dst@ == d0 + src@.take(i as int),
        decreases src@.len() - i,
    {
        dst.push(src[i]);
        i = i + 1;
        assert(dst@ =~= d0 + src@.take(i as int));
    }
    assert(src@.take(i as int) =~= src@);
}

/// `s[lo..hi]` as a new vector.
pub fn slice_vec(s: &[u8], lo: usize, hi: usize) -> (r: Vec<u8>)
    requires
        lo <= hi <= s@.len(),
    ensures
        r@ == s@.subrange(lo as int, hi as int),
{
    crate::firmware::copy_range(s, lo, hi)
}

/// Write `data` to a 25xx EEPROM at `start_addr`, one sector-sized program
/// command at a time with write enable and status polling.
pub fn s95_write<'a, H: ProgrammerHal + ?Sized, P: ByteProgress>(
    bus: &mut Ch34xSpiBus<'a, H>,
    params: &ChipParams,
    data: &[u8],
    start_addr: u64,
    progress: &mut P,
) -> (r: Result<(), String>)
    requires
        start_addr + data@.len() <= u64::MAX,
    ensures
        framed_write_outcome(old(bus).history(), final(bus).history(), old(bus).replies(), final(bus).replies(), data@, start_addr,
            spec_s95_addr(params.algorithm & 0x0F, 0).len() + 1,
            s95_write_frame(if start_addr > 255 && (params.algorithm & 0x10) > 0 { 0x0Au8 } else { 0x02u8 }, params.algorithm & 0x0F), r),
{
    let alg = params.algorithm & 0x0F;
    let a8 = params.algorithm & 0x10;
    let ghost hdr: nat = spec_s95_addr(alg, 0).len() + 1;
    let sector = if params.sector > 0 { params.sector } else { 1 };
    let max_chunk = frame_budget(bus.dev.spi_frame_limit(), 5);
    let total = data.len() as u64;
    let mut offset: usize = 0;
    let mut addr = start_addr;
    let ghost h0 = bus.history();
    let ghost r0 = bus.replies();
    proof {
        assert(h0.subrange(0, h0.len() as int) =~= h0);
        assert(r0.subrange(0, r0.len() as int) =~= r0);
        assert(gained(h0, h0) =~= Seq::<SpiTransfer>::empty());
        assert(gained(r0, r0) =~= Seq::<Option<Seq<u8>>>::empty());
    }
    s95_wait_ready(bus.dev, 2000)?;
    let op: u8 = if start_addr > 255 && a8 > 0 { 0x0A } else { 0x02 };
    let ghost frame = s95_write_frame(if start_addr > 255 && (params.algorithm & 0x10) > 0 { 0x0Au8 } else { 0x02u8 },
        params.algorithm & 0x0F);
    while offset < data.len()
        invariant
            offset <= data@.len(),
            addr == start_addr + offset,
            start_addr + data@.len() <= u64::MAX,
            sector >= 1,
            max_chunk >= 1,
            alg == params.algorithm & 0x0F,
            op == (if start_addr > 255 && (params.algorithm & 0x10) > 0 { 0x0Au8 } else { 0x02u8 }),
            hdr == spec_s95_addr(alg, 0).len() + 1,
            h0 == old(bus).history(),
            r0 == old(bus).replies(),
            frame == s95_write_frame(op, alg),
            extends(h0, bus.history()) && extends(r0, bus.replies()),
            gained(h0, bus.history()).len() == gained(r0, bus.replies()).len(),
            framed_writes(gained(h0, bus.history()), data@, start_addr, hdr, frame),
            carried(gained(h0, bus.history()), hdr) == offset,
            forall|k: int| 0 <= k < gained(r0, bus.replies()).len() ==> (#[trigger] gained(r0, bus.replies())[k]) is Some,
        decreases data@.len() - offset,
    {
        let chunk = min3(data.len() - offset, sector, max_chunk);
        s95_wait_ready(bus.dev, 2000)?;
        cs_cmd(bus.dev, &[0x06])?;
        s95_unprotect(bus.dev)?;
        let mut cmd: Vec<u8> = Vec::new();
        cmd.push(op);
        let a = s95_addr(alg, addr);
        append(&mut cmd, &a);
        let part = slice_vec(data, offset, offset + chunk);
        append(&mut cmd, &part);
        assert(spec_s95_addr(alg, addr).len() == spec_s95_addr(alg, 0).len());
        assert(cmd@ =~= frame(addr) + data@.subrange(offset as int, offset + chunk));
        let ghost hb = bus.history();
        let ghost rb = bus.replies();
        let res = bus.transact(cmd.as_slice(), 0);
        proof {
            lemma_write_push(h0, hb, r0, rb, data@, start_addr, hdr, frame, transfer(cmd@, 0), reply_of(res));
        }
        match res {
            Ok(_) => {},
            Err(e) => {
                return Err(e);
            },
        }
        proof {
            let g = gained(r0, bus.replies());
            assert forall|k: int| 0 <= k < g.len() implies (#[trigger] g[k]) is Some by {
                if k < g.len() - 1 {
                    assert(g[k] == gained(r0, rb)[k]);
                }
            }
        }
        s95_wait_ready(bus.dev, 100)?;
        addr = addr + chunk as u64;
        offset = offset + chunk;
        progress.report(offset as u64, total);
    }
    cs_cmd(bus.dev, &[0x04])
}

/// Erase a whole 25xx EEPROM (chip erase `62h`).
pub fn s95_erase<H: ProgrammerHal + ?Sized>(dev: &H) -> Result<(), String> {
    s95_wait_ready(dev, 2000)?;
    cs_cmd(dev, &[0x06])?;
    s95_unprotect(dev)?;
    cs_cmd(dev, &[0x62])?;
    s95_wait_ready(dev, 120_000)?;
    cs_cmd(dev, &[0x04])
}

// ───────────────────────────── DataFlash (AT45) ─────────────────────────────

fn at45_wait_ready<H: ProgrammerHal + ?Sized>(dev: &H, timeout_ms: u64) -> Result<(), String> {
    poll_ready(dev, &[0xD7], 0x80, true, timeout_ms, "等待 DataFlash 就绪超时")
}

/// The 24-bit DataFlash address of byte `byte_addr`: the page number shifted
/// above a 9-bit (10-bit for pages over 511 bytes) byte offset.
pub open spec fn spec_at45_physical(sector: usize, byte_addr: u64) -> int {
    let s = if sector == 0 { 1 } else { sector as int };
    let shift = if sector > 511 { 1024int } else { 512int };
    byte_addr as int % s + (byte_addr as int / s) * shift
}

/// Encode a DataFlash page address (three bytes, most significant first).
pub fn at45_page_addr(params: &ChipParams, byte_addr: u64) -> (r: [u8; 3])
    ensures
        r@ == seq![((spec_at45_physical(params.sector, byte_addr) / 0x1_0000) % 256) as u8,
            ((spec_at45_physical(params.sector, byte_addr) / 0x100) % 256) as u8,
            (spec_at45_physical(params.sector, byte_addr) % 256) as u8],
{
    let shift: u128 = if params.sector > 511 { 1024 } else { 512 };
    let sector: u128 = if params.sector > 0 { params.sector as u128 } else { 1 };
    let page = byte_addr as u128 / sector;
    let off = byte_addr as u128 % sector;
    assert(page * shift <= 0xFFFF_FFFF_FFFF_FFFF * 1024) by (nonlinear_arith)
        requires
            page <= byte_addr,
            shift <= 1024,
            byte_addr <= 0xFFFF_FFFF_FFFF_FFFF,
    ;
    let physical: u128 = off + page * shift;
    [((physical / 0x1_0000) % 256) as u8, ((physical / 0x100) % 256) as u8, (physical % 256) as u8]
}

/// Read `len` bytes of a DataFlash from `from` (continuous array read E8h).
pub fn at45_read<'a, H: ProgrammerHal + ?Sized, P: ByteProgress>(
    bus: &mut Ch34xSpiBus<'a, H>,
    params: &ChipParams,
    from: u64,
    len: usize,
    progress: &mut P,
) -> (r: Result<Vec<u8>, String>)
    requires
        from + len <= u64::MAX,
    ensures
        r matches Ok(out) ==> out@.len() == len,
        framed_read_outcome(old(bus).history(), final(bus).history(), old(bus).replies(), final(bus).replies(), from, len as nat,
            at45_read_frame(params.sector), r),
{
    let ghost frame = at45_read_frame(params.sector);
    let sector = if params.sector > 0 { params.sector } else { 1 };
    let max_chunk = frame_budget(bus.dev.spi_frame_limit(), 8);
    let ghost h0 = bus.history();
    let ghost r0 = bus.replies();
    proof {
        assert(h0.subrange(0, h0.len() as int) =~= h0);
        assert(r0.subrange(0, r0.len() as int) =~= r0);
        assert(gained(h0, h0) =~= Seq::<SpiTransfer>::empty());
        assert(gained(r0, r0) =~= Seq::<Option<Seq<u8>>>::empty());
    }
    at45_wait_ready(bus.dev, 1000)?;
    let total = len as u64;
    let mut out: Vec<u8> = Vec::new();
    let mut addr = from;
    let mut done: usize = 0;
    while done < len
        invariant
            done <= len,
            out@.len() == done,
            addr == from + done,
            from + len <= u64::MAX,
            sector >= 1,
            max_chunk >= 1,
            h0 == old(bus).history(),
            r0 == old(bus).replies(),
            frame == at45_read_frame(params.sector),
            extends(h0, bus.history()) && extends(r0, bus.replies()),
            gained(h0, bus.history()).len() == gained(r0, bus.replies()).len(),
            framed_reads(gained(h0, bus.history()), from, frame),
            all_answered(gained(h0, bus.history()), gained(r0, bus.replies())),
            asked(gained(h0, bus.history())) == done,
            out@ == replied(gained(r0, bus.replies())),
        decreases len - done,
    {
        let chunk = min3(len - done, sector, max_chunk);
        let pa = at45_page_addr(params, addr);
        let cmd = [0xE8u8, pa[0], pa[1], pa[2], 0xFF, 0xFF, 0xFF, 0xFF];
        assert(cmd@ =~= frame(addr));
        let ghost hb = bus.history();
        let ghost rb = bus.replies();
        let res = bus.transact(&cmd, chunk);
        proof {
            lemma_framed_push(h0, hb, r0, rb, from, frame, transfer(cmd@, chunk as nat), reply_of(res));
        }
        let buf = match res {
            Ok(b) => b,
            Err(e) => {
                assert(!answered(reply_of(Err::<Vec<u8>, String>(e)), chunk as nat));
                return Err(e);
            },
        };
        if buf.len() != chunk {
            assert(!answered(reply_of(Ok::<Vec<u8>, String>(buf)), chunk as nat));
            return Err(msg_usize("DataFlash 读取长度不符: ", buf.len(), ""));
        }
        append(&mut out, &buf);
        addr = addr + chunk as u64;
        done = done + chunk;
        progress.report(done as u64, total);
    }
    Ok(out)
}

/// Program `data` into a DataFlash at `start_addr` through buffer 1
/// (main memory page program 82h).
pub fn at45_write<'a, H: ProgrammerHal + ?Sized, P: ByteProgress>(
    bus: &mut Ch34xSpiBus<'a, H>,
    params: &ChipParams,
    data: &[u8],
    start_addr: u64,
    progress: &mut P,
) -> (r: Result<(), String>)
    requires
        start_addr + data@.len() <= u64::MAX,
    ensures
        framed_write_outcome(old(bus).history(), final(bus).history(), old(bus).replies(), final(bus).replies(), data@, start_addr,
            4, at45_write_frame(params.sector), r),
{
    let ghost frame = at45_write_frame(params.sector);
    let sector = if params.sector > 0 { params.sector } else { 1 };
    let max_chunk = frame_budget(bus.dev.spi_frame_limit(), 8);
    let ghost h0 = bus.history();
    let ghost r0 = bus.replies();
    proof {
        assert(h0.subrange(0, h0.len() as int) =~= h0);
        assert(r0.subrange(0, r0.len() as int) =~= r0);
        assert(gained(h0, h0) =~= Seq::<SpiTransfer>::empty());
        assert(gained(r0, r0) =~= Seq::<Option<Seq<u8>>>::empty());
    }
    at45_wait_ready(bus.dev, 1000)?;
    let total = data.len() as u64;
    let mut addr = start_addr;
    let mut offset: usize = 0;
    while offset < data.len()
        invariant
            offset <= data@.len(),
            addr == start_addr + offset,
            start_addr + data@.len() <= u64::MAX,
            sector >= 1,
            max_chunk >= 1,
            h0 == old(bus).history(),
            r0 == old(bus).replies(),
            frame == at45_write_frame(params.sector),
            extends(h0, bus.history()) && extends(r0, bus.replies()),
            gained(h0, bus.history()).len() == gained(r0, bus.replies()).len(),
            framed_writes(gained(h0, bus.history()), data@, start_addr, 4, frame),
            carried(gained(h0, bus.history()), 4) == offset,
            forall|k: int| 0 <= k < gained(r0, bus.replies()).len() ==> (#[trigger] gained(r0, bus.replies())[k]) is Some,
        decreases data@.len() - offset,
    {
        let chunk = min3(data.len() - offset, sector, max_chunk);
        at45_wait_ready(bus.dev, 2000)?;
        let pa = at45_page_addr(params, addr);
        let mut cmd: Vec<u8> = Vec::new();
        cmd.push(0x82u8);
        cmd.push(pa[0]);
        cmd.push(pa[1]);
        cmd.push(pa[2]);
        let part = slice_vec(data, offset, offset + chunk);
        append(&mut cmd, &part);
        assert(cmd@ =~= frame(addr) + data@.subrange(offset as int, offset + chunk));
        let ghost hb = bus.history();
        let ghost rb = bus.replies();
        let res = bus.transact(cmd.as_slice(), 0);
        proof {
            lemma_write_push(h0, hb, r0, rb, data@, start_addr, 4, frame, transfer(cmd@, 0), reply_of(res));
        }
        match res {
            Ok(_) => {},
            Err(e) => {
                return Err(e);
            },
        }
        proof {
            let g = gained(r0, bus.replies());
            assert forall|k: int| 0 <= k < g.len() implies (#[trigger] g[k]) is Some by {
                if k < g.len() - 1 {
                    assert(g[k] == gained(r0, rb)[k]);
                }
            }
        }
        at45_wait_ready(bus.dev, 100)?;
        addr = addr + chunk as u64;
        offset = offset + chunk;
        progress.report(offset as u64, total);
    }
    Ok(())
}

/// Read the DataFlash status byte (bit 0 reports a power-of-two page).
pub fn at45_read_page_mode<H: ProgrammerHal + ?Sized>(dev: &H) -> Result<u8, String> {
    read_reg(dev, &[0xD7])
}

/// Configure the DataFlash page size: `3Dh 2Ah 80h A6h` for power-of-two
/// pages, `... A7h` for standard pages. The setting is nonvolatile.
pub fn at45_set_page_mode<H: ProgrammerHal + ?Sized>(dev: &H, binary: bool) -> Result<(), String> {
    at45_wait_ready(dev, 2000)?;
    let last: u8 = if binary { 0xA6 } else { 0xA7 };
    cs_cmd(dev, &[0x3D, 0x2A, 0x80, last])?;
    at45_wait_ready(dev, 5000)
}

/// Erase a whole DataFlash (`C7h 94h 80h 9Ah`).
pub fn at45_erase<H: ProgrammerHal + ?Sized>(dev: &H) -> Result<(), String> {
    at45_wait_ready(dev, 2000)?;
    cs_cmd(dev, &[0xC7, 0x94, 0x80, 0x9A])?;
    at45_wait_ready(dev, 120_000)
}

// ─────────────────────────────── SPI NAND ───────────────────────────────

fn nand_wait_ready<H: ProgrammerHal + ?Sized>(dev: &H, timeout_ms: u64) -> Result<(), String> {
    poll_ready(dev, &[0x0F, 0xC0], 0x01, false, timeout_ms, "等待 NAND 就绪超时")
}

/// A row-address command: `op` followed by the 24-bit row, most significant
/// byte first.
pub open spec fn spec_row_cmd(op: u8, row: u32) -> Seq<u8> {
    seq![op, ((row / 0x1_0000) % 256) as u8, ((row / 0x100) % 256) as u8, (row % 256) as u8]
}

pub fn row_cmd(op: u8, row: u32) -> (r: [u8; 4])
    ensures
        r@ == spec_row_cmd(op, row),
{
    [op, ((row / 0x1_0000) % 256) as u8, ((row / 0x100) % 256) as u8, (row % 256) as u8]
}

/// Load page `page_no` into the NAND cache (13h) and wait for it.
fn nand_load_page<H: ProgrammerHal + ?Sized>(dev: &H, page_no: u32) -> Result<(), String> {
    nand_wait_ready(dev, 200)?;
    let cmd = row_cmd(0x13, page_no);
    cs_cmd(dev, &cmd)?;
    nand_wait_ready(dev, 200)
}

/// Read `len` bytes of the page cache from column `column` (03h), in
/// frame-sized pieces. The spare area starts at column `page_size`.
fn nand_read_cache<H: ProgrammerHal + ?Sized>(dev: &H, column: usize, len: usize, header: usize) -> (r: Result<Vec<u8>, String>)
    requires
        column + len <= usize::MAX,
    ensures
        r matches Ok(out) ==> out@.len() == len,
        len == 0 ==> (r matches Ok(out) && out@.len() == 0),
{
    let chunk_limit = frame_budget(dev.spi_frame_limit(), header);
    let mut out: Vec<u8> = Vec::new();
    let mut offset: usize = 0;
    while offset < len
        invariant
            offset <= len,
            out@.len() == offset,
            column + len <= usize::MAX,
            chunk_limit >= 1,
        decreases len - offset,
    {
        let chunk = if len - offset < chunk_limit { len - offset } else { chunk_limit };
        let col = column + offset;
        dev.cs_low()?;
        if header == 4 {
            dev.spi_tx(&[0x03, ((col / 0x100) % 256) as u8, (col % 256) as u8, 0x00])?;
        } else {
            dev.spi_tx(&[0x03, ((col / 0x100) % 256) as u8, (col % 256) as u8])?;
        }
        let mut buf = vec_filled(0xFF, chunk);
        dev.spi_rx(buf.as_mut_slice())?;
        dev.cs_high()?;
        append(&mut out, &buf);
        offset = offset + chunk;
    }
    Ok(out)
}

/// Read one NAND page: load it, then stream the cache out in one frame when
/// it fits, otherwise in column-addressed pieces.
fn nand_page_read<H: ProgrammerHal + ?Sized>(dev: &H, page_size: usize, page_no: u32) -> (r: Result<Vec<u8>, String>)
    ensures
        r matches Ok(out) ==> out@.len() == page_size,
{
    nand_load_page(dev, page_no)?;
    let limit = dev.spi_frame_limit();
    if page_size <= limit && limit - page_size >= 4 {
        let mut buf = vec_filled(0xFF, page_size);
        dev.cs_low()?;
        dev.spi_tx(&[0x03, 0x00, 0x00, 0x00])?;
        dev.spi_rx(buf.as_mut_slice())?;
        dev.cs_high()?;
        return Ok(buf);
    }
    nand_read_cache(dev, 0, page_size, 3)
}

/// Read the spare/OOB area of one NAND page.
pub fn nand_read_spare<H: ProgrammerHal + ?Sized>(
    dev: &H,
    page_no: u32,
    page_size: usize,
    spare_size: usize,
) -> (r: Result<Vec<u8>, String>)
    requires
        page_size + spare_size <= usize::MAX,
    ensures
        r matches Ok(out) ==> out@.len() == spare_size,
{
    nand_load_page(dev, page_no)?;
    nand_read_cache(dev, page_size, spare_size, 4)
}

/// NAND geometry derived from the chip parameters: page size (at least 1),
/// block size (at least a page) and pages per block (at least 1).
pub open spec fn nand_geometry(params: ChipParams) -> (int, int, int) {
    let page = if params.page == 0 { 1 } else { params.page as int };
    let block = if (params.block as int) < page { page } else { params.block as int };
    let ppb = if block / page == 0 { 1 } else { block / page };
    (page, block, ppb)
}

/// `ceil(a / b)`.
pub open spec fn ceil_div(a: int, b: int) -> int {
    (a + b - 1) / b
}

/// `ceil(a / b)` for `b >= 1` (`u64::div_ceil`).
pub fn div_ceil(a: u64, b: u64) -> (r: u64)
    requires
        b >= 1,
    ensures
        r as int == ceil_div(a as int, b as int),
        r <= a,
{
    let q = a / b;
    let m = a % b;
    assert(q * b + m == a && m < b) by (nonlinear_arith)
        requires q == a / b, m == a % b, b >= 1;
    if m != 0 {
        assert(q < a) by (nonlinear_arith)
            requires q * b + m == a, m > 0, b >= 1, q >= 0;
        assert(q + 1 == (a + b - 1) / (b as int)) by (nonlinear_arith)
            requires q * b + m == a, 0 < m < b;
        q + 1
    } else {
        assert(q == (a + b - 1) / (b as int)) by (nonlinear_arith)
            requires q * b == a, b >= 1;
        assert(q <= a) by (nonlinear_arith)
            requires q * b == a, b >= 1, q >= 0;
        q
    }
}

/// Scan the first page's spare area of every block and report the blocks
/// whose factory bad-block marker (spare byte 0) is not `0xFF`.
pub fn nand_scan_bad_blocks<H: ProgrammerHal + ?Sized, P: BlockProgress>(
    dev: &H,
    params: &ChipParams,
    size: u64,
    progress: &mut P,
) -> (r: Result<Vec<u32>, String>)
    requires
        params.page as int + params.spare as int + 64 <= usize::MAX,
    ensures
        r matches Ok(bad) ==> forall|i: int, j: int| 0 <= i < j < bad@.len() ==> bad@[i] < bad@[j],
        size == 0 ==> (r matches Ok(bad) && bad@.len() == 0),
{
    let page_size: u64 = if params.page > 0 { params.page as u64 } else { 1 };
    let block_size: u64 = if (params.block as u64) < page_size { page_size } else { params.block as u64 };
    let ppb64: u64 = block_size / page_size;
    let pages_per_block: u32 = if ppb64 == 0 { 1 } else if ppb64 > 0xFFFF_FFFF { 0xFFFF_FFFF } else { ppb64 as u32 };
    let blocks64: u64 = div_ceil(size, block_size);
    let total_blocks: u32 = if blocks64 > 0xFFFF_FFFF { 0xFFFF_FFFF } else { blocks64 as u32 };
    let spare_size: usize = if params.spare > 0 { params.spare } else { 64 };
    let mut bad: Vec<u32> = Vec::new();
    let mut block_no: u32 = 0;
    while block_no < total_blocks
        invariant
            block_no <= total_blocks,
            forall|i: int| 0 <= i < bad@.len() ==> bad@[i] < block_no,
            size == 0 ==> total_blocks == 0,
            bad@.len() <= block_no,
            forall|i: int, j: int| 0 <= i < j < bad@.len() ==> bad@[i] < bad@[j],
            params.page as int + params.spare as int + 64 <= usize::MAX,
            page_size as int == (if params.page == 0 { 1 } else { params.page as int }),
            spare_size as int == (if params.spare > 0 { params.spare as int } else { 64 }),
        decreases total_blocks - block_no,
    {
        assert(block_no as u128 * pages_per_block as u128 <= 0xFFFF_FFFFu128 * 0xFFFF_FFFFu128) by (nonlinear_arith)
            requires block_no <= 0xFFFF_FFFFu32, pages_per_block <= 0xFFFF_FFFFu32;
        let page_no: u32 = ((block_no as u128 * pages_per_block as u128) % 0x1_0000_0000) as u32;
        let spare = nand_read_spare(dev, page_no, page_size as usize, spare_size)?;
        if spare.len() > 0 && spare[0] != 0xFF {
            bad.push(block_no);
        }
        block_no = block_no + 1;
        progress.report(block_no, total_blocks);
    }
    Ok(bad)
}

/// Read the NAND unique id: 4Bh, four dummy bytes, then `len` bytes.
pub fn nand_read_uid<H: ProgrammerHal + ?Sized>(dev: &H, len: usize) -> (r: Result<Vec<u8>, String>)
    ensures
        r matches Ok(out) ==> out@.len() == len,
{
    nand_wait_ready(dev, 200)?;
    let mut out = vec_filled(0xFF, len);
    dev.cs_low()?;
    dev.spi_tx(&[0x4B])?;
    dev.spi_tx(&[0x00, 0x00, 0x00, 0x00])?;
    dev.spi_rx(out.as_mut_slice())?;
    dev.cs_high()?;
    Ok(out)
}

/// Read one 256-byte ONFI parameter page (ECh, address 00h, one dummy byte).
pub fn nand_read_param_page<H: ProgrammerHal + ?Sized>(dev: &H) -> (r: Result<Vec<u8>, String>)
    ensures
        r matches Ok(out) ==> out@.len() == 256,
{
    nand_wait_ready(dev, 200)?;
    let mut out = vec_filled(0xFF, 256);
    dev.cs_low()?;
    dev.spi_tx(&[0xEC, 0x00, 0x00])?;
    dev.spi_rx(out.as_mut_slice())?;
    dev.cs_high()?;
    Ok(out)
}

/// One link of the NAND bad-block-management table. `lba` bits 15..14 hold
/// the status: 00 free, 10 valid, 11 invalid.
#[derive(Clone, Copy, Debug, PartialEq, Eq)]
pub struct BbmLutEntry {
    pub index: u8,
    pub lba: u16,
    pub pba: u16,
    pub free: bool,
    pub valid: bool,
}

/// The link decoded from the 4 bytes of `raw` at link index `k`.
pub open spec fn spec_lut_entry(raw: Seq<u8>, k: int) -> BbmLutEntry {
    let lba = (raw[4 * k] + raw[4 * k + 1] * 256) as u16;
    let pba = (raw[4 * k + 2] + raw[4 * k + 3] * 256) as u16;
    BbmLutEntry { index: k as u8, lba, pba, free: lba / 0x4000 == 0, valid: lba / 0x4000 == 2 }
}

/// Decode up to 20 whole 4-byte links (LBA then PBA, little-endian).
pub fn parse_bbm_lut(raw: &[u8]) -> (r: Vec<BbmLutEntry>)
    ensures
        r@.len() == (if raw@.len() / 4 < 20 { raw@.len() / 4 } else { 20 }),
        forall|k: int| 0 <= k < r@.len() ==> #[trigger] r@[k] == spec_lut_entry(raw@, k),
{
    let n = if raw.len() / 4 < 20 { raw.len() / 4 } else { 20 };
    let mut out: Vec<BbmLutEntry> = Vec::new();
    let mut k: usize = 0;
    while k < n
        invariant
            n == (if raw@.len() / 4 < 20 { raw@.len() / 4 } else { 20 }),
            k <= n,
            out@.len() == k,
            forall|j: int| 0 <= j < k ==> #[trigger] out@[j] == spec_lut_entry(raw@, j),
        decreases n - k,
    {
        let lba: u16 = raw[4 * k] as u16 + raw[4 * k + 1] as u16 * 256;
        let pba: u16 = raw[4 * k + 2] as u16 + raw[4 * k + 3] as u16 * 256;
        let status = lba / 0x4000;
        out.push(BbmLutEntry { index: k as u8, lba, pba, free: status == 0, valid: status == 2 });
        k = k + 1;
    }
    out
}

/// Read the 80-byte bad-block-management table (A5h) and decode it.
pub fn nand_read_bbm_lut<H: ProgrammerHal + ?Sized>(dev: &H) -> (r: Result<(Vec<BbmLutEntry>, Vec<u8>), String>)
    ensures
        r matches Ok((lut, raw)) ==> raw@.len() == 80 && lut@.len() == 20 && forall|k: int| 0 <= k < 20 ==> #[trigger] lut@[k] == spec_lut_entry(raw@, k),
{
    nand_wait_ready(dev, 200)?;
    let mut raw = vec_filled(0xFF, 80);
    dev.cs_low()?;
    dev.spi_tx(&[0xA5])?;
    dev.spi_rx(raw.as_mut_slice())?;
    dev.cs_high()?;
    let lut = parse_bbm_lut(raw.as_slice());
    Ok((lut, raw))
}

/// The A1h swap command linking logical block `lba` (marked valid) to
/// physical block `pba`, both little-endian.
pub open spec fn spec_swap_cmd(lba: u16, pba: u16) -> Seq<u8> {
    let word = (lba as int % 0x8000) + 0x8000;
    seq![0xA1u8, (word % 256) as u8, (word / 256) as u8, (pba % 256) as u8, (pba / 256) as u8]
}

pub fn bbm_swap_cmd(lba: u16, pba: u16) -> (r: [u8; 5])
    ensures
        r@ == spec_swap_cmd(lba, pba),
{
    let word: u16 = 0x8000 | lba;
    assert(word == lba % 0x8000 + 0x8000) by (bit_vector)
        requires word == 0x8000u16 | lba;
    [0xA1, (word % 256) as u8, (word / 256) as u8, (pba % 256) as u8, (pba / 256) as u8]
}

/// Link logical block `lba` to physical block `pba` (write enable, A1h).
pub fn nand_write_bbm_swap<H: ProgrammerHal + ?Sized>(dev: &H, lba: u16, pba: u16) -> Result<(), String> {
    nand_wait_ready(dev, 200)?;
    cs_cmd(dev, &[0x06])?;
    let cmd = bbm_swap_cmd(lba, pba);
    cs_cmd(dev, &cmd)?;
    nand_wait_ready(dev, 500)
}

/// Whether `v` occurs in `s`.
pub fn contains_u32(s: &[u32], v: u32) -> (r: bool)
    ensures
        r == s@.contains(v),
{
    let mut i: usize = 0;
    while i < s.len()
        invariant
            i <= s@.len(),
            forall|j: int| 0 <= j < i ==> s@[j] != v,
        decreases s@.len() - i,
    {
        if s[i] == v {
            assert(s@[i as int] == v);
            return true;
        }
        i = i + 1;
    }
    false
}

/// Whether some valid link of `lut`, or some link of `links`, maps to the
/// physical block `pba`.
fn lut_uses_pba(lut: &Vec<BbmLutEntry>, links: &Vec<(u16, u16)>, pba: u16) -> (r: bool)
    ensures
        r == ((exists|i: int| 0 <= i < lut@.len() && (#[trigger] lut@[i]).valid && lut@[i].pba == pba)
            || (exists|j: int| 0 <= j < links@.len() && (#[trigger] links@[j]).1 == pba)),
{
    let mut i: usize = 0;
    while i < lut.len()
        invariant
            i <= lut@.len(),
            forall|k: int| 0 <= k < i ==> !((#[trigger] lut@[k]).valid && lut@[k].pba == pba),
        decreases lut@.len() - i,
    {
        if lut[i].valid && lut[i].pba == pba {
            assert(lut@[i as int].valid && lut@[i as int].pba == pba);
            return true;
        }
        i = i + 1;
    }
    let mut j: usize = 0;
    while j < links.len()
        invariant
            j <= links@.len(),
            forall|k: int| 0 <= k < lut@.len() ==> !((#[trigger] lut@[k]).valid && lut@[k].pba == pba),
            forall|k: int| 0 <= k < j ==> (#[trigger] links@[k]).1 != pba,
        decreases links@.len() - j,
    {
        if links[j].1 == pba {
            assert(links@[j as int].1 == pba);
            return true;
        }
        j = j + 1;
    }
    false
}

/// Whether some valid link of `lut` maps the logical block `lba` (the
/// status bits aside).
fn lut_maps_lba(lut: &Vec<BbmLutEntry>, lba: u16) -> (r: bool)
    ensures
        r == exists|i: int| 0 <= i < lut@.len() && (#[trigger] lut@[i]).valid && lut@[i].lba % 0x4000 == lba,
{
    let mut i: usize = 0;
    while i < lut.len()
        invariant
            i <= lut@.len(),
            forall|k: int| 0 <= k < i ==> !((#[trigger] lut@[k]).valid && lut@[k].lba % 0x4000 == lba),
        decreases lut@.len() - i,
    {
        if lut[i].valid && lut[i].lba % 0x4000 == lba {
            assert(lut@[i as int].valid && lut@[i as int].lba % 0x4000 == lba);
            return true;
        }
        i = i + 1;
    }
    false
}

/// Bypass mode: write the scanned bad blocks into the chip's internal
/// bad-block table so the chip remaps them to reserved spare blocks at the
/// end of the array (1/50 of the blocks, between 1 and 20). Returns the new
/// `(logical, physical)` links; at most 20 links can be valid at once.
pub fn nand_prepare_bypass_lut<H: ProgrammerHal + ?Sized>(
    dev: &H,
    params: &ChipParams,
    size: u64,
    bad_blocks: &[u32],
) -> (r: Result<Vec<(u16, u16)>, String>)
    ensures
        r matches Ok(links) ==> links@.len() <= 20 && forall|k: int| 0 <= k < links@.len() ==> !bad_blocks@.contains(links@[k].1 as u32),
{
    let page: u64 = if params.page > 0 { params.page as u64 } else { 1 };
    let block_size: u64 = if (params.block as u64) < page { page } else { params.block as u64 };
    let blocks64: u64 = div_ceil(size, block_size);
    let total_blocks: u16 = if blocks64 > 0xFFFF { 0xFFFF } else { blocks64 as u16 };
    let reserved0: u16 = total_blocks / 50;
    let reserved: u16 = if reserved0 < 1 { 1 } else if reserved0 > 20 { 20 } else { reserved0 };
    let spare_start: u16 = if total_blocks > reserved { total_blocks - reserved } else { 0 };
    let (lut0, _raw) = nand_read_bbm_lut(dev)?;
    let mut lut = lut0;
    let mut valid_count: usize = 0;
    let mut i: usize = 0;
    while i < lut.len()
        invariant
            valid_count <= i,
        decreases lut@.len() - i,
    {
        if lut[i].valid {
            valid_count = valid_count + 1;
        }
        i = i + 1;
    }
    let mut links: Vec<(u16, u16)> = Vec::new();
    let mut b: usize = 0;
    while b < bad_blocks.len()
        invariant
            links@.len() + valid_count <= 20 || links@.len() == 0,
            links@.len() <= 20,
            forall|k: int| 0 <= k < links@.len() ==> !bad_blocks@.contains(links@[k].1 as u32),
        decreases bad_blocks@.len() - b,
    {
        let blk = bad_blocks[b];
        let lba: u16 = if blk > 0xFFFF { 0xFFFF } else { blk as u16 };
        b = b + 1;
        if lut_maps_lba(&lut, lba) {
            continue;
        }
        if valid_count + links.len() >= 20 {
            return Err("BBM LUT 已满（最多 20 条映射）".to_string());
        }
        let mut candidate: u16 = spare_start;
        let mut found: Option<u16> = None;
        while candidate < total_blocks
            invariant
                found matches Some(p) ==> !bad_blocks@.contains(p as u32),
            decreases total_blocks - candidate,
        {
            if !contains_u32(bad_blocks, candidate as u32) && !lut_uses_pba(&lut, &links, candidate) {
                found = Some(candidate);
                break;
            }
            candidate = candidate + 1;
        }
        let spare = match found {
            Some(p) => p,
            None => {
                return Err(msg_usize("没有可用的备用块（备用区从块 ", spare_start as usize, " 开始）"));
            },
        };
        nand_write_bbm_swap(dev, lba, spare)?;
        links.push((lba, spare));
        lut.push(BbmLutEntry { index: 0, lba: 0x8000 | lba, pba: spare, free: false, valid: true });
    }
    Ok(links)
}

/// The configuration register with the on-die ECC bit (bit 4) set or cleared.
pub open spec fn spec_ecc_cfg(cfg: u8, enable: bool) -> u8 {
    if enable { cfg | 0x10 } else { cfg & 0xEF }
}

/// Read configuration register B0h (0Fh); returns whether on-die ECC is on.
pub fn nand_get_ecc<'a, H: ProgrammerHal + ?Sized>(bus: &mut Ch34xSpiBus<'a, H>) -> (r: Result<bool, String>)
    ensures
        final(bus).history() == old(bus).history() || final(bus).history() == old(bus).history().push(transfer(seq![0x0Fu8, 0xB0u8], 1)),
        final(bus).history().len() == old(bus).history().len() ==> r is Err && final(bus).replies() == old(bus).replies(),
        final(bus).history().len() != old(bus).history().len() ==> {
            &&& final(bus).replies() == old(bus).replies().push(final(bus).replies().last())
            &&& (r is Ok <==> (final(bus).replies().last() matches Some(d) && d.len() == 1))
            &&& r matches Ok(on) ==> on == ((final(bus).replies().last()->Some_0[0] & 0x10) != 0)
        },
{
    nand_wait_ready(bus.dev, 200)?;
    let cmd = [0x0Fu8, 0xB0u8];
    assert(cmd@ =~= seq![0x0Fu8, 0xB0u8]);
    let got = bus.transact(&cmd, 1);
    let cfg = match got {
        Ok(v) => v,
        Err(e) => {
            return Err(e);
        },
    };
    if cfg.len() != 1 {
        return Err("读取 NAND 特性寄存器失败".to_string());
    }
    Ok((cfg[0] & 0x10) != 0)
}

/// Switch on-die ECC (bit 4 of register B0h) on or off through Set Feature.
pub fn nand_set_ecc<H: ProgrammerHal + ?Sized>(dev: &H, enable: bool) -> Result<(), String> {
    nand_wait_ready(dev, 200)?;
    let cfg = read_reg(dev, &[0x0F, 0xB0])?;
    let new_cfg: u8 = if enable { cfg | 0x10 } else { cfg & 0xEF };
    cs_cmd(dev, &[0x1F, 0xB0, new_cfg])?;
    nand_wait_ready(dev, 200)
}

/// Program one full page: load the cache (02h), then execute (10h).
fn nand_page_write<H: ProgrammerHal + ?Sized>(dev: &H, page: &[u8], page_no: u32) -> Result<(), String> {
    let limit = dev.spi_frame_limit();
    if page.len() > limit || limit - page.len() < 3 {
        return Err(msg_usize("SPI_PAGE_TOO_LARGE: 当前 HAL 单帧放不下 NAND 页，页大小 ", page.len(), " 字节"));
    }
    nand_wait_ready(dev, 1000)?;
    cs_cmd(dev, &[0x06])?;
    dev.cs_low()?;
    dev.spi_tx(&[0x02, 0x00, 0x00])?;
    dev.spi_tx(page)?;
    dev.cs_high()?;
    nand_wait_ready(dev, 500)?;
    cs_cmd(dev, &[0x06])?;
    let cmd = row_cmd(0x10, page_no);
    cs_cmd(dev, &cmd)?;
    nand_wait_ready(dev, 1000)
}

/// Program one page whose cache load does not fit one frame: load it in
/// column-addressed pieces (02h), then execute once (10h).
fn nand_page_write_segmented<H: ProgrammerHal + ?Sized>(dev: &H, page: &[u8], page_no: u32) -> Result<(), String> {
    nand_wait_ready(dev, 1000)?;
    let chunk_limit = frame_budget(dev.spi_frame_limit(), 3);
    let mut offset: usize = 0;
    while offset < page.len()
        invariant
            offset <= page@.len(),
            chunk_limit >= 1,
        decreases page@.len() - offset,
    {
        let chunk = if page.len() - offset < chunk_limit { page.len() - offset } else { chunk_limit };
        dev.cs_low()?;
        dev.spi_tx(&[0x02, ((offset / 0x100) % 256) as u8, (offset % 256) as u8])?;
        let part = slice_vec(page, offset, offset + chunk);
        dev.spi_tx(part.as_slice())?;
        dev.cs_high()?;
        offset = offset + chunk;
    }
    nand_wait_ready(dev, 500)?;
    cs_cmd(dev, &[0x06])?;
    let cmd = row_cmd(0x10, page_no);
    cs_cmd(dev, &cmd)?;
    nand_wait_ready(dev, 1000)
}

/// Clear the block-protect bits of register A0h (keeps bits 7, 1, 0).
fn nand_unprotect<H: ProgrammerHal + ?Sized>(dev: &H) -> Result<(), String> {
    cs_cmd(dev, &[0x06])?;
    let prot = read_reg(dev, &[0x0F, 0xA0])?;
    cs_cmd(dev, &[0x1F, 0xA0, prot & 0x83])
}

/// Erase one block (D8h) at row `block_no << 6` (64 pages per block).
fn nand_block_erase<H: ProgrammerHal + ?Sized>(dev: &H, block_no: u32) -> Result<(), String> {
    nand_wait_ready(dev, 2000)?;
    let row: u32 = ((block_no as u64 * 64) % 0x1_0000_0000) as u32;
    cs_cmd(dev, &[0x06])?;
    nand_unprotect(dev)?;
    let cmd = row_cmd(0xD8, row);
    cs_cmd(dev, &cmd)?;
    nand_wait_ready(dev, 2000)
}

/// How NAND operations treat bad blocks.
#[derive(Clone, Copy, PartialEq, Eq, Debug, Structural)]
pub enum NandBadBlockMode {
    /// Skip bad blocks; logical data moves on to the next good block.
    Skip,
    /// Remap bad blocks through the chip's bad-block table.
    Bypass,
    /// Treat every block as good.
    Ignore,
}

/// Read `size` bytes of a NAND array; a bad block reads as `0xFF`.
pub fn nand_read<H: ProgrammerHal + ?Sized, P: ByteProgress>(
    dev: &H,
    params: &ChipParams,
    size: u64,
    bad_blocks: &[u32],
    progress: &mut P,
) -> (r: Result<Vec<u8>, String>)
    requires
        size <= usize::MAX,
    ensures
        r matches Ok(out) ==> out@.len() <= size,
        size == 0 ==> (r matches Ok(out) && out@.len() == 0),
{
    let page_size: u64 = if params.page > 0 { params.page as u64 } else { 1 };
    let block_size: u64 = if (params.block as u64) < page_size { page_size } else { params.block as u64 };
    let ppb64: u64 = block_size / page_size;
    let pages_per_block: u32 = if ppb64 == 0 { 1 } else if ppb64 > 0xFFFF_FFFF { 0xFFFF_FFFF } else { ppb64 as u32 };
    let total_blocks: u64 = div_ceil(size, block_size);
    let mut out: Vec<u8> = Vec::new();
    let mut block_no: u64 = 0;
    while block_no < total_blocks
        invariant
            out@.len() <= size,
            size <= usize::MAX,
            page_size >= 1,
            block_size >= 1,
            size == 0 ==> total_blocks == 0 && out@.len() == 0,
        decreases total_blocks - block_no,
    {
        if contains_u32(bad_blocks, (block_no % 0x1_0000_0000) as u32) {
            let left = size - out.len() as u64;
            let fill = if block_size < left { block_size } else { left };
            let pad = vec_filled(0xFF, fill as usize);
            append(&mut out, &pad);
            progress.report(out.len() as u64, size);
        } else {
            let mut page_in_block: u32 = 0;
            while page_in_block < pages_per_block
                invariant
                    out@.len() <= size,
                    size <= usize::MAX,
                    size > 0,
                    page_size >= 1,
                decreases pages_per_block - page_in_block,
            {
                assert(block_no as u128 * pages_per_block as u128 <= 0xFFFF_FFFF_FFFF_FFFFu128 * 0xFFFF_FFFFu128) by (nonlinear_arith)
                    requires block_no <= 0xFFFF_FFFF_FFFF_FFFFu64, pages_per_block <= 0xFFFF_FFFFu32;
                let page_no: u32 = ((block_no as u128 * pages_per_block as u128 + page_in_block as u128) % 0x1_0000_0000) as u32;
                let page = nand_page_read(dev, page_size as usize, page_no)?;
                let left = (size - out.len() as u64) as usize;
                let take = if page.len() > left { left } else { page.len() };
                let part = slice_vec(page.as_slice(), 0, take);
                append(&mut out, &part);
                progress.report(out.len() as u64, size);
                if out.len() as u64 >= size {
                    return Ok(out);
                }
                page_in_block = page_in_block + 1;
            }
        }
        block_no = block_no + 1;
    }
    Ok(out)
}

/// Program `data` page by page. In Skip mode a bad block is skipped whole
/// (the data moves on to the next block); data that runs past the array is
/// refused. A page that does not fit one frame is refused unless
/// `force_segmented` asks for a segmented cache load. Bypass mode with bad
/// blocks is refused.
#[verifier::rlimit(30)]
pub fn nand_write<H: ProgrammerHal + ?Sized, P: ByteProgress>(
    dev: &H,
    params: &ChipParams,
    data: &[u8],
    size: u64,
    bad_blocks: &[u32],
    mode: NandBadBlockMode,
    force_segmented: bool,
    progress: &mut P,
) -> (r: Result<(), String>)
    ensures
        mode == NandBadBlockMode::Bypass && bad_blocks@.len() > 0 ==> r is Err,
        data@.len() == 0 && !(mode == NandBadBlockMode::Bypass && bad_blocks@.len() > 0) ==> r is Ok,
{
    if mode == NandBadBlockMode::Bypass && bad_blocks.len() > 0 {
        return Err("Bypass(BBM LUT) 写入将在坏块映射表功能完成后启用，请暂时使用 Skip 或 Ignore".to_string());
    }
    let page_len: usize = if params.page > 0 { params.page } else { 1 };
    let page_size: u64 = page_len as u64;
    let block_size: u64 = if (params.block as u64) < page_size { page_size } else { params.block as u64 };
    let ppb64: u64 = block_size / page_size;
    let pages_per_block: u32 = if ppb64 == 0 { 1 } else if ppb64 > 0xFFFF_FFFF { 0xFFFF_FFFF } else { ppb64 as u32 };
    let total = data.len() as u64;
    let total_pages: u64 = div_ceil(size, page_size);
    let dl = data.len();
    let mut offset: usize = 0;
    let mut page_no: u128 = 0;
    while offset < data.len()
        invariant
            dl == data@.len(),
            offset <= data@.len(),
            page_len >= 1,
            page_size == page_len,
            pages_per_block >= 1,
            page_no <= total_pages + 0xFFFF_FFFF,
            total_pages <= 0xFFFF_FFFF_FFFF_FFFF,
        decreases data@.len() - offset + (0xFFFF_FFFF_FFFF_FFFF + 0xFFFF_FFFF - page_no),
    {
        let block_no = page_no / pages_per_block as u128;
        if block_no <= 0xFFFF_FFFF && contains_u32(bad_blocks, block_no as u32) {
            if page_no >= total_pages as u128 {
                return Err("写入数据超过 NAND 可用物理容量（Skip 模式会跳过坏块）".to_string());
            }
            page_no = page_no + pages_per_block as u128;
            continue;
        }
        if page_no >= total_pages as u128 {
            return Err("写入数据超过 NAND 可用物理容量（Skip 模式会跳过坏块）".to_string());
        }
        let chunk = if data.len() - offset < page_len { data.len() - offset } else { page_len };
        let mut page = vec_filled(0xFF, page_len);
        let mut i: usize = 0;
        while i < chunk
            invariant
                dl == data@.len(),
                i <= chunk,
                chunk <= page_len,
                page@.len() == page_len,
                offset + chunk <= data@.len(),
            decreases chunk - i,
        {
            page.set(i, data[offset + i]);
            i = i + 1;
        }
        let limit = dev.spi_frame_limit();
        let pn: u32 = (page_no % 0x1_0000_0000) as u32;
        if page_len > limit || limit - page_len < 3 {
            if force_segmented {
                nand_page_write_segmented(dev, page.as_slice(), pn)?;
            } else {
                return Err(msg_usize("SPI_PAGE_TOO_LARGE: 当前 HAL 单帧放不下 NAND 页，页大小 ", page_len, " 字节"));
            }
        } else {
            nand_page_write(dev, page.as_slice(), pn)?;
        }
        offset = offset + chunk;
        page_no = page_no + 1;
        progress.report(offset as u64, total);
    }
    Ok(())
}

/// Erase every good block of a NAND array of `size` bytes.
pub fn nand_erase<H: ProgrammerHal + ?Sized, P: BlockProgress>(
    dev: &H,
    params: &ChipParams,
    size: u64,
    bad_blocks: &[u32],
    progress: &mut P,
) -> (r: Result<(), String>)
    ensures
        size == 0 ==> r is Ok,
{
    let block_size: u64 = if params.block > 0 { params.block as u64 } else { 1 };
    let blocks64: u64 = div_ceil(size, block_size);
    let blocks: u32 = (blocks64 % 0x1_0000_0000) as u32;
    let mut block_no: u32 = 0;
    while block_no < blocks
        invariant
            size == 0 ==> blocks == 0,
        decreases blocks - block_no,
    {
        if !contains_u32(bad_blocks, block_no) {
            nand_block_erase(dev, block_no)?;
        }
        block_no = block_no + 1;
        progress.report(block_no, blocks);
    }
    Ok(())
}

// ─────────────────────────── I2C EEPROM (24xx) ───────────────────────────

/// The 8-bit write address of a 24xx device: `0xA0` plus the block-select
/// bits of `address` (bits 8.. for one-byte addressing, bits 16.. otherwise)
/// masked by the high nibble of `algorithm`, shifted into bits 1..3.
pub open spec fn spec_i2c_device_address(address: u32, algorithm: u8) -> u8 {
    let mask: u8 = (algorithm & 0xF0) >> 4u8;
    let bits: u8 = if (algorithm & 0x0F) == 1 {
        ((address & 0xFF00) >> 8u32) as u8
    } else {
        ((address & 0xFF0000) >> 16u32) as u8
    };
    ((bits & mask) << 1u8) | 0xA0
}

pub fn i2c_device_address(address: u32, algorithm: u8) -> (r: u8)
    ensures
        r == spec_i2c_device_address(address, algorithm),
{
    let mask: u8 = (algorithm & 0xF0) >> 4u8;
    let bits: u8 = if (algorithm & 0x0F) == 1 {
        ((address & 0xFF00) >> 8u32) as u8
    } else {
        ((address & 0xFF0000) >> 16u32) as u8
    };
    ((bits & mask) << 1u8) | 0xA0
}

/// The I2C stream prefix that addresses `addr`: START, then a write of the
/// device address and one (algorithm 1) or two (algorithm 2) address bytes.
/// Other address algorithms are not supported.
pub open spec fn spec_i2c_addr_prefix(addr: u64, algorithm: u8) -> Option<Seq<u8>> {
    let dev = spec_i2c_device_address(addr as u32, algorithm);
    if algorithm % 16 == 1 {
        Some(seq![0xAAu8, 0x74u8, 0x82u8, dev, (addr % 256) as u8])
    } else if algorithm % 16 == 2 {
        Some(seq![0xAAu8, 0x74u8, 0x83u8, dev, ((addr / 256) % 256) as u8, (addr % 256) as u8])
    } else {
        None
    }
}

pub fn i2c_addr_prefix(addr: u64, algorithm: u8) -> (r: Option<Vec<u8>>)
    ensures
        match r {
            Some(v) => spec_i2c_addr_prefix(addr, algorithm) == Some(v@),
            None => spec_i2c_addr_prefix(addr, algorithm) is None,
        },
{
    let dev = i2c_device_address(addr as u32, algorithm);
    let alg = algorithm & 0x0F;
    assert(alg == algorithm % 16) by (bit_vector)
        requires alg == algorithm & 0x0F;
    if alg == 1 {
        let v = vec![0xAAu8, 0x74u8, 0x82u8, dev, (addr % 256) as u8];
        assert(v@ =~= seq![0xAAu8, 0x74u8, 0x82u8, dev, (addr % 256) as u8]);
        Some(v)
    } else if alg == 2 {
        let v = vec![0xAAu8, 0x74u8, 0x83u8, dev, ((addr / 256) % 256) as u8, (addr % 256) as u8];
        assert(v@ =~= seq![0xAAu8, 0x74u8, 0x83u8, dev, ((addr / 256) % 256) as u8, (addr % 256) as u8]);
        Some(v)
    } else {
        None
    }
}

/// One I2C stream exchange: the packet written, and what came back (the
/// response buffer and the byte count reported; an empty buffer for a
/// packet that expects no response), or `None` when the write or the read
/// failed.
pub type I2cStep = (Seq<u8>, Option<(Seq<u8>, int)>);

/// A CH34X programmer used for I2C stream exchanges, with the exchanges
/// made so far, in order.
pub struct I2cLink<'a, H: ProgrammerHal + ?Sized> {
    pub dev: &'a H,
    /// Whether the programmer is a CH347 (asked once, when the link is made).
    pub ch347: bool,
    pub log: Ghost<Seq<I2cStep>>,
}

impl<'a, H: ProgrammerHal + ?Sized> I2cLink<'a, H> {
    pub fn new(dev: &'a H) -> (l: Self)
        ensures
            l.log@ == Seq::<I2cStep>::empty(),
            l.dev == dev,
    {
        let ch347 = dev.is_ch347();
        I2cLink { dev, ch347, log: Ghost(Seq::empty()) }
    }

    /// Write `pkt`, expecting no response.
    pub fn send(&mut self, pkt: &[u8]) -> (r: Result<(), String>)
        ensures
            final(self).dev == old(self).dev,
            final(self).ch347 == old(self).ch347,
            r is Ok ==> final(self).log@ == old(self).log@.push((pkt@, Some((Seq::<u8>::empty(), 0int)))),
            r is Err ==> final(self).log@ == old(self).log@.push((pkt@, None)),
    {
        let r = self.dev.i2c_write(pkt);
        proof {
            if r is Ok {
                self.log@ = self.log@.push((pkt@, Some((Seq::<u8>::empty(), 0int))));
            } else {
                self.log@ = self.log@.push((pkt@, None));
            }
        }
        r
    }

    /// Write `pkt`, then read a response of up to `read_len` bytes.
    pub fn exchange(&mut self, pkt: &[u8], read_len: usize) -> (r: Result<(Vec<u8>, usize), String>)
        ensures
            final(self).dev == old(self).dev,
            final(self).ch347 == old(self).ch347,
            r matches Ok((b, got)) ==> b@.len() == read_len
                && final(self).log@ == old(self).log@.push((pkt@, Some((b@, got as int)))),
            r is Err ==> final(self).log@ == old(self).log@.push((pkt@, None)),
    {
        match self.dev.i2c_write(pkt) {
            Ok(()) => {},
            Err(e) => {
                proof {
                    self.log@ = self.log@.push((pkt@, None));
                }
                return Err(e);
            },
        }
        let mut raw = vec_filled(0, read_len);
        match self.dev.i2c_read(raw.as_mut_slice()) {
            Ok(got) => {
                proof {
                    self.log@ = self.log@.push((pkt@, Some((raw@, got as int))));
                }
                Ok((raw, got))
            },
            Err(e) => {
                proof {
                    self.log@ = self.log@.push((pkt@, None));
                }
                Err(e)
            },
        }
    }
}

/// Bytes of status that a CH347 puts before an I2C read response.
pub open spec fn i2c_offset(ch347: bool, algorithm: u8) -> int {
    if ch347 {
        if algorithm & 0x0F == 0x02 { 4 } else { 3 }
    } else {
        0
    }
}

/// Largest I2C read chunk: 64 bytes on the CH347, 16 on the CH341.
pub open spec fn i2c_chunk_max(ch347: bool) -> int {
    if ch347 { 64 } else { 16 }
}

/// The packet that reads `chunk` bytes at `addr`.
pub open spec fn i2c_read_packet(addr: int, algorithm: u8, chunk: int) -> Seq<u8> {
    spec_i2c_addr_prefix(addr as u64, algorithm)->0 + seq![0x74u8, 0x81u8,
        spec_i2c_device_address(addr as u32, algorithm) | 0x01u8, 0xC0u8 | ((chunk - 1) as u8), 0xC0u8, 0x75u8, 0x00u8]
}

/// The data that the exchanges `g` of an I2C read of `len` bytes gathered:
/// each response contributes its window after the status bytes, sized to
/// what was still missing (at most a chunk); `None` once an exchange failed
/// or came back short.
pub open spec fn i2c_gather(g: Seq<I2cStep>, off: int, len: int, max: int) -> Option<Seq<u8>>
    decreases g.len(),
{
    if g.len() == 0 {
        Some(Seq::empty())
    } else {
        match i2c_gather(g.drop_last(), off, len, max) {
            None => None,
            Some(prev) => {
                let c = if len - prev.len() < max { len - prev.len() } else { max };
                match g.last().1 {
                    Some((b, got)) => if got >= off + c && b.len() >= off + c {
                        Some(prev + b.subrange(off, off + c))
                    } else {
                        None
                    },
                    None => None,
                }
            },
        }
    }
}

/// Every exchange of `g` wrote the read packet for where the data gathered
/// before it ends, sized to what was still missing.
pub open spec fn i2c_read_packets(g: Seq<I2cStep>, start: int, algorithm: u8, off: int, len: int, max: int) -> bool {
    forall|k: int| 0 <= k < g.len() ==> {
        &&& #[trigger] i2c_gather(g.take(k), off, len, max) is Some
        &&& {
            let done = i2c_gather(g.take(k), off, len, max)->0.len();
            let c = if len - done < max { len - done } else { max };
            g[k].0 == i2c_read_packet(start + done, algorithm, c)
        }
    }
}

/// Read `len` bytes of a 24xx EEPROM from `start_addr` (16-byte chunks on
/// the CH341, 64 on the CH347, whose responses carry 3 or 4 status bytes
/// first).
#[verifier::rlimit(40)]
pub fn i2c_read<H: ProgrammerHal + ?Sized, P: ByteProgress>(
    link: &mut I2cLink<H>,
    params: &ChipParams,
    start_addr: u64,
    len: usize,
    progress: &mut P,
) -> (r: Result<Vec<u8>, String>)
    requires
        start_addr + len <= u64::MAX,
    ensures
        final(link).dev == old(link).dev,
        final(link).ch347 == old(link).ch347,
        extends(old(link).log@, final(link).log@),
        r matches Ok(out) ==> out@.len() == len,
        len > 0 && spec_i2c_addr_prefix(start_addr, params.algorithm) is None ==> r is Err
            && final(link).log@ == old(link).log@,
        len == 0 ==> (r matches Ok(out) && out@.len() == 0),
        spec_i2c_addr_prefix(start_addr, params.algorithm) is Some ==> {
            let g = gained(old(link).log@, final(link).log@);
            let off = i2c_offset(old(link).ch347, params.algorithm);
            let max = i2c_chunk_max(old(link).ch347);
            &&& i2c_read_packets(g, start_addr as int, params.algorithm, off, len as int, max)
            &&& r is Ok <==> (i2c_gather(g, off, len as int, max) matches Some(o) && o.len() == len)
            &&& r matches Ok(out) ==> i2c_gather(g, off, len as int, max) == Some(out@)
            &&& r is Err ==> i2c_gather(g, off, len as int, max) is None
        },
{
    let algorithm = params.algorithm;
    let ch347 = link.ch347;
    let max_chunk: usize = if ch347 { 64 } else { 16 };
    let offset: usize = if ch347 {
        if algorithm & 0x0F == 0x02 { 4 } else { 3 }
    } else {
        0
    };
    let total = len as u64;
    let mut out: Vec<u8> = Vec::new();
    let mut addr = start_addr;
    let mut done: usize = 0;
    let ghost log0 = link.log@;
    let ghost off = i2c_offset(ch347, algorithm);
    let ghost max = i2c_chunk_max(ch347);
    proof {
        assert(gained(log0, link.log@) =~= Seq::<I2cStep>::empty());
        assert(link.log@.subrange(0, log0.len() as int) =~= log0);
    }
    while done < len
        invariant
            done <= len,
            out@.len() == done,
            addr == start_addr + done,
            start_addr + len <= u64::MAX,
            max_chunk as int == max,
            offset as int == off,
            off == i2c_offset(ch347, algorithm) && max == i2c_chunk_max(ch347),
            ch347 == link.ch347,
            link.ch347 == old(link).ch347,
            link.dev == old(link).dev,
            log0 == old(link).log@,
            spec_i2c_addr_prefix(start_addr, algorithm) is None ==> done == 0 && link.log@ == log0,
            algorithm == params.algorithm,
            extends(log0, link.log@),
            i2c_gather(gained(log0, link.log@), off, len as int, max) == Some(out@),
            i2c_read_packets(gained(log0, link.log@), start_addr as int, algorithm, off, len as int, max),
        decreases len - done,
    {
        let chunk = if len - done < max_chunk { len - done } else { max_chunk };
        let mut pkt = match i2c_addr_prefix(addr, algorithm) {
            Some(p) => p,
            None => {
                return Err(msg_usize("不支持的 I2C 地址算法 ", algorithm as usize, ""));
            },
        };
        let dev_addr = i2c_device_address(addr as u32, algorithm);
        pkt.push(0x74);
        pkt.push(0x81);
        pkt.push(dev_addr | 0x01);
        pkt.push(0xC0 | ((chunk - 1) as u8));
        pkt.push(0xC0);
        pkt.push(0x75);
        pkt.push(0x00);
        let ghost g0 = gained(log0, link.log@);
        proof {
            assert(pkt@ =~= i2c_read_packet(start_addr + done, algorithm, chunk as int));
        }
        let ex = link.exchange(pkt.as_slice(), chunk + 4);
        let ghost g1 = gained(log0, link.log@);
        proof {
            assert(link.log@.subrange(0, log0.len() as int) =~= log0);
            assert(g1.drop_last() =~= g0);
            assert forall|k: int| 0 <= k < g1.len() implies {
                &&& #[trigger] i2c_gather(g1.take(k), off, len as int, max) is Some
                &&& {
                    let d = i2c_gather(g1.take(k), off, len as int, max)->0.len();
                    let c = if len - d < max { len - d } else { max };
                    g1[k].0 == i2c_read_packet(start_addr + d, algorithm, c)
                }
            } by {
                if k < g0.len() {
                    assert(g1.take(k) =~= g0.take(k));
                    assert(g1[k] == g0[k]);
                } else {
                    assert(g1.take(k) =~= g0);
                }
            }
        }
        let (raw, got) = match ex {
            Ok(v) => v,
            Err(e) => {
                return Err(e);
            },
        };
        if got < offset + chunk {
            return Err(msg_usize("I2C 读取长度不符: 需要 ", offset + chunk, " 字节"));
        }
        let part = slice_vec(raw.as_slice(), offset, offset + chunk);
        append(&mut out, &part);
        addr = addr + chunk as u64;
        done = done + chunk;
        progress.report(done as u64, total);
        link.dev.delay_ms(10);
    }
    proof {
        if spec_i2c_addr_prefix(start_addr, algorithm) is Some {
            assert(i2c_gather(gained(log0, link.log@), off, len as int, max) == Some(out@));
        }
    }
    Ok(out)
}

/// The bytes an I2C write puts in one packet when `remaining` are left:
/// a page, at most 16 on the CH341.
pub open spec fn i2c_write_chunk(remaining: int, page: int, ch347: bool) -> int {
    let c = if remaining < page { remaining } else { page };
    if !ch347 && c > 16 { 16 } else { c }
}

/// The bytes covered by the first `n` packets of an I2C write of `total` bytes.
pub open spec fn i2c_covered(n: nat, total: int, page: int, ch347: bool) -> int
    decreases n,
{
    if n == 0 {
        0
    } else {
        let p = i2c_covered((n - 1) as nat, total, page, ch347);
        p + i2c_write_chunk(total - p, page, ch347)
    }
}

/// The packet that writes `part` at `addr`.
pub open spec fn i2c_write_packet(addr: int, algorithm: u8, part: Seq<u8>) -> Seq<u8> {
    spec_i2c_addr_prefix(addr as u64, algorithm)->0 + seq![0x80u8 | ((part.len() % 256) as u8)] + part
        + seq![0x75u8, 0x00u8]
}

/// The packet of the `k`-th page of an I2C write of `data` at `start`.
pub open spec fn i2c_write_packet_at(k: nat, start: int, algorithm: u8, data: Seq<u8>, page: int, ch347: bool) -> Seq<u8> {
    let o = i2c_covered(k, data.len() as int, page, ch347);
    let c = i2c_write_chunk(data.len() - o, page, ch347);
    i2c_write_packet(start + o, algorithm, data.subrange(o, o + c))
}

/// An exchange the chip accepted: it went through, and on the CH347 every
/// acknowledge byte read back (at most 512) is `0x01`.
pub open spec fn i2c_acked(step: I2cStep, ch347: bool) -> bool {
    &&& step.1 is Some
    &&& ch347 ==> {
        let (b, got) = step.1->0;
        forall|i: int| 0 <= i < got && i < 512 ==> #[trigger] b[i] == 0x01u8
    }
}

/// The page sizes used by an I2C write: the `sector` attribute, or single bytes.
pub open spec fn i2c_page(params: ChipParams) -> int {
    if params.sector > 0 { params.sector as int } else { 1 }
}

/// Write `data` to a 24xx EEPROM at `start_addr`, one page (at most 16
/// bytes on the CH341) per I2C transaction; the CH347 must acknowledge every
/// byte with `0x01`.
#[verifier::rlimit(40)]
pub fn i2c_write<H: ProgrammerHal + ?Sized, P: ByteProgress>(
    link: &mut I2cLink<H>,
    params: &ChipParams,
    data: &[u8],
    start_addr: u64,
    progress: &mut P,
) -> (r: Result<(), String>)
    requires
        start_addr + data@.len() <= u64::MAX,
    ensures
        final(link).dev == old(link).dev,
        final(link).ch347 == old(link).ch347,
        extends(old(link).log@, final(link).log@),
        data@.len() > 0 && spec_i2c_addr_prefix(start_addr, params.algorithm) is None ==> r is Err
            && final(link).log@ == old(link).log@,
        data@.len() == 0 ==> r is Ok,
        spec_i2c_addr_prefix(start_addr, params.algorithm) is Some ==> {
            let g = gained(old(link).log@, final(link).log@);
            let ch347 = old(link).ch347;
            let page = i2c_page(*params);
            &&& forall|k: int| 0 <= k < g.len() ==> (#[trigger] g[k]).0
                == i2c_write_packet_at(k as nat, start_addr as int, params.algorithm, data@, page, ch347)
            &&& forall|k: int| 0 <= k < g.len() - 1 ==> i2c_acked(#[trigger] g[k], ch347)
            &&& r is Ok <==> (i2c_covered(g.len(), data@.len() as int, page, ch347) == data@.len()
                && forall|k: int| 0 <= k < g.len() ==> i2c_acked(#[trigger] g[k], ch347))
        },
{
    let algorithm = params.algorithm;
    let page_size = if params.sector > 0 { params.sector } else { 1 };
    let ch347 = link.ch347;
    let total = data.len() as u64;
    let mut offset: usize = 0;
    let mut addr = start_addr;
    let ghost log0 = link.log@;
    let ghost page = i2c_page(*params);
    proof {
        assert(gained(log0, link.log@) =~= Seq::<I2cStep>::empty());
        assert(link.log@.subrange(0, log0.len() as int) =~= log0);
    }
    while offset < data.len()
        invariant
            offset <= data@.len(),
            addr == start_addr + offset,
            start_addr + data@.len() <= u64::MAX,
            page_size >= 1,
            page_size as int == page,
            page == i2c_page(*params),
            spec_i2c_addr_prefix(start_addr, algorithm) is None ==> offset == 0 && link.log@ == log0,
            algorithm == params.algorithm,
            ch347 == link.ch347,
            link.ch347 == old(link).ch347,
            link.dev == old(link).dev,
            log0 == old(link).log@,
            extends(log0, link.log@),
            offset as int == i2c_covered(gained(log0, link.log@).len(), data@.len() as int, page, ch347),
            forall|k: int| 0 <= k < gained(log0, link.log@).len() ==> i2c_acked(#[trigger] gained(log0, link.log@)[k], ch347),
            forall|k: int| 0 <= k < gained(log0, link.log@).len() ==> (#[trigger] gained(log0, link.log@)[k]).0
                == i2c_write_packet_at(k as nat, start_addr as int, algorithm, data@, page, ch347),
        decreases data@.len() - offset,
    {
        let mut chunk = if data.len() - offset < page_size { data.len() - offset } else { page_size };
        if !ch347 && chunk > 16 {
            chunk = 16;
        }
        let mut pkt = match i2c_addr_prefix(addr, algorithm) {
            Some(p) => p,
            None => {
                return Err(msg_usize("不支持的 I2C 地址算法 ", algorithm as usize, ""));
            },
        };
        pkt.push(0x80 | ((chunk % 256) as u8));
        let part = slice_vec(data, offset, offset + chunk);
        append(&mut pkt, &part);
        pkt.push(0x75);
        pkt.push(0x00);
        let ghost g0 = gained(log0, link.log@);
        proof {
            assert(chunk as int == i2c_write_chunk(data@.len() - offset, page, ch347));
            assert(pkt@ =~= i2c_write_packet(start_addr + offset, algorithm, data@.subrange(offset as int, offset + chunk)));
        }
        let sent = if ch347 {
            match link.exchange(pkt.as_slice(), 512) {
                Ok((ack, got0)) => {
                    let got = if got0 > 512 { 512 } else { got0 };
                    let mut i: usize = 0;
                    let mut all_ack = true;
                    while i < got && all_ack
                        invariant
                            got <= 512,
                            got as int == (if got0 > 512 { 512 } else { got0 as int }),
                            ack@.len() == 512,
                            i <= got,
                            forall|j: int| 0 <= j < i ==> #[trigger] ack@[j] == 0x01u8,
                            !all_ack ==> i < got && ack@[i as int] != 0x01u8,
                        decreases 2 * (got - i) + (if all_ack { 1int } else { 0int }),
                    {
                        if ack[i] != 0x01 {
                            all_ack = false;
                        } else {
                            i = i + 1;
                        }
                    }
                    proof {
                        if !all_ack {
                            assert(ack@[i as int] != 0x01u8);
                            assert((i as int) < got0 && i < 512);
                            let st: I2cStep = (pkt@, Some((ack@, got0 as int)));
                            let (bb, gg) = st.1->0;
                            assert(bb == ack@ && gg == got0 as int);
                            assert(bb[i as int] != 0x01u8);
                            assert(!i2c_acked(st, true));
                        } else {
                            assert(i >= got);
                            assert forall|j: int| 0 <= j < got0 && j < 512 implies #[trigger] ack@[j] == 0x01u8 by {
                                assert(j < i);
                            }
                            assert(i2c_acked((pkt@, Some((ack@, got0 as int))), true));
                        }
                    }
                    if all_ack {
                        Ok(())
                    } else {
                        Err("I2C 写入 NACK".to_string())
                    }
                },
                Err(e) => Err(e),
            }
        } else {
            link.send(pkt.as_slice())
        };
        let ghost g1 = gained(log0, link.log@);
        proof {
            assert(link.log@.subrange(0, log0.len() as int) =~= log0);
            assert(g1.drop_last() =~= g0);
            assert(g1.len() == g0.len() + 1);
            assert(forall|k: int| 0 <= k < g0.len() ==> g1[k] == g0[k]);
            assert(g1[g0.len() as int].0 == pkt@);
            assert(sent is Ok <==> i2c_acked(g1[g0.len() as int], ch347));
            assert forall|k: int| 0 <= k < g1.len() implies (#[trigger] g1[k]).0
                == i2c_write_packet_at(k as nat, start_addr as int, algorithm, data@, page, ch347) by {
                if k < g0.len() {
                    assert(g1[k] == g0[k]);
                } else {
                    assert(g1[k].0 == pkt@);
                }
            }
        }
        match sent {
            Ok(()) => {},
            Err(e) => {
                return Err(e);
            },
        }
        addr = addr + chunk as u64;
        offset = offset + chunk;
        progress.report(offset as u64, total);
        link.dev.delay_ms(10);
    }
    Ok(())
}

/// Erase a 24xx EEPROM by writing `0xFF` to every cell.
pub fn i2c_erase<H: ProgrammerHal + ?Sized, P: ByteProgress>(
    link: &mut I2cLink<H>,
    params: &ChipParams,
    size: u64,
    progress: &mut P,
) -> (r: Result<(), String>)
    requires
        size <= usize::MAX,
    ensures
        final(link).dev == old(link).dev,
        final(link).ch347 == old(link).ch347,
        extends(old(link).log@, final(link).log@),
        size == 0 ==> r is Ok,
        size > 0 && spec_i2c_addr_prefix(0, params.algorithm) is None ==> r is Err && final(link).log@ == old(link).log@,
        spec_i2c_addr_prefix(0, params.algorithm) is Some ==> {
            let g = gained(old(link).log@, final(link).log@);
            let ch347 = old(link).ch347;
            let page = i2c_page(*params);
            let blank = Seq::new(size as nat, |i: int| 0xFFu8);
            &&& forall|k: int| 0 <= k < g.len() ==> (#[trigger] g[k]).0
                == i2c_write_packet_at(k as nat, 0, params.algorithm, blank, page, ch347)
            &&& forall|k: int| 0 <= k < g.len() - 1 ==> i2c_acked(#[trigger] g[k], ch347)
            &&& r is Ok <==> (i2c_covered(g.len(), size as int, page, ch347) == size
                && forall|k: int| 0 <= k < g.len() ==> i2c_acked(#[trigger] g[k], ch347))
        },
{
    let erased = vec_filled(0xFF, size as usize);
    assert(erased@ =~= Seq::new(size as nat, |i: int| 0xFFu8));
    i2c_write(link, params, erased.as_slice(), 0, progress)
}

// ─────────────────────────── Microwire (93xx) ───────────────────────────

pub const MW_CLK: u8 = 0x08;
pub const MW_DO: u8 = 0x80;
pub const MW_DI: u8 = 0x20;
pub const MW_CS: u8 = 0x01;

/// Organisation and address width of a 93xx part: the high nibble of the
/// algorithm selects 16-bit words (one address bit fewer), the low nibble
/// is the address width in byte mode.
pub open spec fn spec_mw_org_and_bits(algorithm: u8) -> (bool, int) {
    let org = algorithm / 16 != 0;
    let bits = (algorithm % 16) as int;
    (org, if org { bits - 1 } else { bits })
}

pub fn mw_org_and_bits(algorithm: u8) -> (r: (bool, u32))
    requires
        algorithm / 16 != 0 ==> algorithm % 16 >= 1,
    ensures
        r.0 == spec_mw_org_and_bits(algorithm).0,
        r.1 as int == spec_mw_org_and_bits(algorithm).1,
        r.1 <= 15,
{
    let hi = algorithm & 0xF0;
    let lo = algorithm & 0x0F;
    assert(hi == 0 <==> algorithm / 16 == 0) by (bit_vector)
        requires hi == algorithm & 0xF0;
    assert(lo == algorithm % 16) by (bit_vector)
        requires lo == algorithm & 0x0F;
    let org = hi != 0;
    let mut num_bit = lo as u32;
    if org {
        num_bit = num_bit - 1;
    }
    (org, num_bit)
}

/// Bit-banged Microwire port state on the CH341 GPIO pins.
struct Mw<'a, H: ProgrammerHal + ?Sized> {
    dev: &'a H,
    data: u8,
}

impl<'a, H: ProgrammerHal + ?Sized> Mw<'a, H> {
    fn set(&mut self, mask: u8, val: bool) -> (r: Result<(), String>)
        ensures
            final(self).data == (if val { old(self).data | mask } else { old(self).data & !mask }),
            final(self).dev == old(self).dev,
    {
        if val {
            self.data = self.data | mask;
        } else {
            self.data = self.data & !mask;
        }
        self.dev.gpio_setbits(self.data)
    }

    fn clock(&mut self, val: bool) -> Result<(), String> {
        self.set(MW_CLK, val)
    }

    fn cs(&mut self, val: bool) -> Result<(), String> {
        self.set(MW_CS, val)
    }

    fn di(&mut self, val: bool) -> Result<(), String> {
        self.set(MW_DI, val)
    }

    fn get_do(&mut self) -> Result<bool, String> {
        let bits = self.dev.gpio_getbits()?;
        Ok((bits & MW_DO) != 0)
    }

    fn pause(&self) {
        self.dev.delay_ms(1);
    }

    /// Shift out the low `nbit` bits of `val`, most significant first.
    fn send(&mut self, val: u32, nbit: u32) -> (r: Result<(), String>)
        requires
            nbit <= 32,
        ensures
            nbit == 0 ==> r is Ok && *final(self) == *old(self),
    {
        let mut i: u32 = 0;
        while i < nbit
            invariant
                nbit <= 32,
                nbit == 0 ==> *self == *old(self),
            decreases nbit - i,
        {
            let shift = nbit - i - 1;
            let bit = (val >> shift) & 1 != 0;
            self.clock(false)?;
            self.di(bit)?;
            self.pause();
            self.clock(true)?;
            self.pause();
            i = i + 1;
        }
        Ok(())
    }

    /// Shift in one byte, most significant bit first.
    fn get_byte(&mut self) -> Result<u8, String> {
        let mut val: u8 = 0;
        let mut i: u8 = 0;
        while i < 8
            decreases 8 - i,
        {
            self.clock(false)?;
            self.pause();
            let bit = self.get_do()?;
            self.clock(true)?;
            self.pause();
            if bit {
                val = val | (0x80u8 >> i);
            }
            i = i + 1;
        }
        Ok(val)
    }

    /// Clock until the part reports ready (DO high), at most 10 000 cycles.
    fn wait_busy(&mut self) -> Result<(), String> {
        let mut n: u32 = 0;
        while n < 10_000
            decreases 10_000 - n,
        {
            self.clock(false)?;
            self.pause();
            let ready = self.get_do()?;
            self.clock(true)?;
            self.pause();
            if ready {
                return Ok(());
            }
            n = n + 1;
        }
        Err("Microwire 芯片一直忙".to_string())
    }

    /// Select the part and clock in a start bit.
    fn start(&mut self) -> Result<(), String> {
        self.cs(false)?;
        self.clock(false)?;
        self.di(true)?;
        self.pause();
        self.cs(true)?;
        self.pause();
        self.clock(true)?;
        self.pause();
        Ok(())
    }

    /// EWEN: opcode 00 11 followed by address padding.
    fn write_enable(&mut self, num_bit: u32) -> Result<(), String>
        requires
            2 <= num_bit <= 32,
    {
        self.start()?;
        self.send(3, 4)?;
        self.send(0, num_bit - 2)?;
        self.di(false)?;
        self.pause();
        self.cs(false)?;
        self.pause();
        Ok(())
    }

    /// EWDS: opcode 00 00 followed by address padding.
    fn write_disable(&mut self, num_bit: u32) -> Result<(), String>
        requires
            2 <= num_bit <= 32,
    {
        self.cs(true)?;
        self.pause();
        self.clock(false)?;
        self.pause();
        self.di(true)?;
        self.pause();
        self.clock(true)?;
        self.pause();
        self.send(0, 4)?;
        self.send(0, num_bit - 2)?;
        self.cs(false)?;
        self.pause();
        Ok(())
    }

    /// Deselect and clock once.
    fn finish(&mut self) -> Result<(), String> {
        self.cs(false)?;
        self.pause();
        self.clock(false)?;
        self.pause();
        self.clock(true)?;
        self.pause();
        Ok(())
    }
}

/// Read `len` bytes of a 93xx part from `start_addr` (16-bit parts are read
/// word by word, low byte first).
pub fn mw_read<H: ProgrammerHal + ?Sized, P: ByteProgress>(
    dev: &H,
    params: &ChipParams,
    start_addr: u64,
    len: usize,
    progress: &mut P,
) -> (r: Result<Vec<u8>, String>)
    requires
        params.algorithm / 16 != 0 ==> params.algorithm % 16 >= 1,
    ensures
        spec_mw_org_and_bits(params.algorithm).1 < 2 ==> r is Err,
        r matches Ok(out) ==> out@.len() == (if spec_mw_org_and_bits(params.algorithm).0 { len / 2 * 2 } else { len as int }),
        spec_mw_org_and_bits(params.algorithm).1 >= 2 && (if spec_mw_org_and_bits(params.algorithm).0 { len / 2 } else { len }) == 0
            ==> (r matches Ok(out) && out@.len() == 0),
{
    let (org, num_bit) = mw_org_and_bits(params.algorithm);
    if num_bit < 2 {
        return Err("Microwire 地址位数无效".to_string());
    }
    let total = len as u64;
    let mut mw = Mw { dev, data: 0 };
    let mut out: Vec<u8> = Vec::new();
    let base: u32 = if org { ((start_addr % 0x1_0000_0000) as u32) / 2 } else { (start_addr % 0x1_0000_0000) as u32 };
    let words: usize = if org { len / 2 } else { len };
    let mut w: usize = 0;
    while w < words
        invariant
            words == (if org { len / 2 } else { len }),
            org == spec_mw_org_and_bits(params.algorithm).0,
            w <= words,
            out@.len() == (if org { 2 * w } else { w as int }),
            2 <= num_bit <= 15,
        decreases words - w,
    {
        let word_addr: u32 = ((base as u128 + w as u128) % 0x1_0000_0000) as u32;
        mw.start()?;
        mw.send(2, 2)?;
        mw.send(word_addr, num_bit)?;
        mw.di(false)?;
        mw.clock(false)?;
        mw.pause();
        mw.clock(true)?;
        mw.pause();
        let b1 = mw.get_byte()?;
        if org {
            let b2 = mw.get_byte()?;
            out.push(b2);
            out.push(b1);
        } else {
            out.push(b1);
        }
        mw.finish()?;
        w = w + 1;
        progress.report(out.len() as u64, total);
    }
    Ok(out)
}

/// Write `data` to a 93xx part at `start_addr`, waiting for each write to
/// complete (16-bit parts take two bytes per word, high byte sent first; a
/// missing last high byte is `0xFF`).
pub fn mw_write<H: ProgrammerHal + ?Sized, P: ByteProgress>(
    dev: &H,
    params: &ChipParams,
    data: &[u8],
    start_addr: u64,
    progress: &mut P,
) -> (r: Result<(), String>)
    requires
        params.algorithm / 16 != 0 ==> params.algorithm % 16 >= 1,
        data@.len() < usize::MAX,
    ensures
        spec_mw_org_and_bits(params.algorithm).1 < 2 ==> r is Err,
{
    let (org, num_bit) = mw_org_and_bits(params.algorithm);
    if num_bit < 2 {
        return Err("Microwire 地址位数无效".to_string());
    }
    let total = data.len() as u64;
    let mut mw = Mw { dev, data: 0 };
    mw.write_enable(num_bit)?;
    let mut address: u32 = if org { ((start_addr % 0x1_0000_0000) as u32) / 2 } else { (start_addr % 0x1_0000_0000) as u32 };
    let mut l: usize = 0;
    while l < data.len()
        invariant
            l <= data@.len() + 1,
            data@.len() < usize::MAX,
            2 <= num_bit <= 15,
        decreases data@.len() + 1 - l,
    {
        mw.start()?;
        mw.send(1, 2)?;
        mw.send(address, num_bit)?;
        if org {
            let b1: u8 = if l + 1 < data.len() { data[l + 1] } else { 0xFF };
            let b0 = data[l];
            mw.send(b1 as u32, 8)?;
            mw.send(b0 as u32, 8)?;
            l = l + 2;
        } else {
            mw.send(data[l] as u32, 8)?;
            l = l + 1;
        }
        mw.clock(false)?;
        mw.di(false)?;
        mw.pause();
        mw.cs(false)?;
        mw.pause();
        mw.cs(true)?;
        mw.pause();
        mw.clock(true)?;
        mw.pause();
        mw.wait_busy()?;
        mw.finish()?;
        address = if address == 0xFFFF_FFFF { 0 } else { address + 1 };
        progress.report(l as u64, total);
    }
    mw.write_disable(num_bit)
}

/// Erase a whole 93xx part (ERAL: opcode 00 10).
pub fn mw_erase<H: ProgrammerHal + ?Sized>(dev: &H, params: &ChipParams) -> (r: Result<(), String>)
    requires
        params.algorithm / 16 != 0 ==> params.algorithm % 16 >= 1,
    ensures
        spec_mw_org_and_bits(params.algorithm).1 < 3 ==> r is Err,
{
    let (_org, num_bit) = mw_org_and_bits(params.algorithm);
    if num_bit < 3 {
        return Err("Microwire 地址位数无效".to_string());
    }
    let mut mw = Mw { dev, data: 0 };
    mw.write_enable(num_bit)?;
    mw.start()?;
    mw.send(2, 4)?;
    mw.send(0, num_bit - 3)?;
    mw.clock(false)?;
    mw.di(false)?;
    mw.pause();
    mw.cs(false)?;
    mw.pause();
    mw.cs(true)?;
    mw.pause();
    mw.clock(true)?;
    mw.pause();
    mw.wait_busy()?;
    mw.finish()?;
    mw.write_disable(num_bit)
}


// ───────────────────────────── address laws ─────────────────────────────

/// The block of a 24xx address that the device address selects: the bits
/// above the address byte(s) (bits 8.. with one address byte, 16.. with two).
pub open spec fn i2c_block(address: u32, algorithm: u8) -> int {
    if algorithm % 16 == 1 { (address as int / 256) % 256 } else { (address as int / 65536) % 256 }
}

/// A 24xx device address is `1010` in its top bits, has the read/write bit
/// clear, and carries in bits 1 and up the block of the address, as far as
/// the chip's block mask (the high nibble of the algorithm) reaches.
pub proof fn law_i2c_device_address_selects_block(address: u32, algorithm: u8)
    ensures
        spec_i2c_device_address(address, algorithm) % 2 == 0,
        spec_i2c_device_address(address, algorithm) / 32 == 5,
        (spec_i2c_device_address(address, algorithm) / 2) % 16 == (i2c_block(address, algorithm) as u8 & (algorithm / 16)),
{
    let d = spec_i2c_device_address(address, algorithm);
    let b1: u8 = ((address / 256) % 256) as u8;
    let b2: u8 = ((address / 65536) % 256) as u8;
    assert(((address & 0xFF00) >> 8u32) as u8 == b1 && ((address & 0xFF0000) >> 16u32) as u8 == b2) by (bit_vector)
        requires
            b1 == ((address / 256) % 256) as u8,
            b2 == ((address / 65536) % 256) as u8;
    let m: u8 = algorithm / 16;
    let bits: u8 = if algorithm % 16 == 1 { b1 } else { b2 };
    let mask: u8 = (algorithm & 0xF0) >> 4u8;
    let e: u8 = ((bits & mask) << 1u8) | 0xA0;
    assert(d == (if (algorithm & 0x0F) == 1 { ((b1 & mask) << 1u8) | 0xA0 } else { ((b2 & mask) << 1u8) | 0xA0 }));
    assert(((algorithm & 0x0F) == 1) == (algorithm % 16 == 1) && mask == m && e % 2 == 0 && e / 32 == 5
        && (e / 2) % 16 == (bits & m)) by (bit_vector)
        requires
            m == algorithm / 16,
            mask == (algorithm & 0xF0) >> 4u8,
            e == ((bits & mask) << 1u8) | 0xA0;
    assert(d == e);
}

/// On a 24xx part with one address byte and three block bits (24C16 style),
/// a chip that takes the block from bits 1..3 of the device address and the
/// offset from the address byte of the prefix sees exactly `addr`.
pub proof fn law_i2c_one_byte_prefix_addresses(addr: u64, algorithm: u8)
    requires
        algorithm == 0x71,
        addr < 2048,
    ensures
        spec_i2c_addr_prefix(addr, algorithm) matches Some(p) && p.len() == 5
            && ((p[3] / 2) % 8) * 256 + p[4] == addr,
{
    law_i2c_device_address_selects_block(addr as u32, algorithm);
    let d = spec_i2c_device_address(addr as u32, algorithm);
    let blk: u8 = ((addr as u32 / 256) % 256) as u8;
    assert(blk < 8);
    assert(blk & 7u8 == blk) by (bit_vector)
        requires blk < 8;
    assert((d / 2) % 16 == blk);
}

/// A 25xx address field is big-endian: read as a number, most significant
/// byte first, its bytes give the address modulo the field's width (one,
/// two, or, for address algorithm 2, three bytes).
pub proof fn law_s95_addr_big_endian(alg: u8, addr: u64)
    ensures
        spec_s95_addr(alg, addr).len() == (if alg == 2 { 3int } else if alg > 0 { 2int } else { 1int }),
        crate::firmware::be_value(spec_s95_addr(alg, addr)) == addr as int % (if alg == 2 { 0x100_0000int }
            else if alg > 0 { 0x1_0000int } else { 0x100int }),
{
    let s = spec_s95_addr(alg, addr);
    let a = addr as int;
    reveal_with_fuel(crate::firmware::be_value, 4);
    if alg == 2 {
        assert(s =~= seq![((a / 0x1_0000) % 256) as u8, ((a / 0x100) % 256) as u8, (a % 256) as u8]);
        assert(s.drop_last().drop_last().drop_last() =~= Seq::<u8>::empty());
        assert(((a / 0x1_0000) % 256) * 0x1_0000 + ((a / 0x100) % 256) * 0x100 + a % 256 == a % 0x100_0000) by (nonlinear_arith)
            requires a >= 0;
    } else if alg > 0 {
        assert(s =~= seq![((a / 0x100) % 256) as u8, (a % 256) as u8]);
        assert(s.drop_last().drop_last() =~= Seq::<u8>::empty());
        assert(((a / 0x100) % 256) * 0x100 + a % 256 == a % 0x1_0000) by (nonlinear_arith)
            requires a >= 0;
    } else {
        assert(s =~= seq![(a % 256) as u8]);
        assert(s.drop_last() =~= Seq::<u8>::empty());
    }
}

/// A NAND row-address command is the opcode followed by the 24-bit row,
/// most significant byte first: the three bytes read as a big-endian
/// number give the row (modulo 2^24).
pub proof fn law_row_cmd_big_endian(op: u8, row: u32)
    ensures
        spec_row_cmd(op, row).len() == 4,
        spec_row_cmd(op, row)[0] == op,
        crate::firmware::be_value(spec_row_cmd(op, row).subrange(1, 4)) == row as int % 0x100_0000,
{
    let a = row as int;
    let t = spec_row_cmd(op, row).subrange(1, 4);
    assert(t =~= seq![((a / 0x1_0000) % 256) as u8, ((a / 0x100) % 256) as u8, (a % 256) as u8]);
    reveal_with_fuel(crate::firmware::be_value, 4);
    assert(t.drop_last().drop_last().drop_last() =~= Seq::<u8>::empty());
    assert(((a / 0x1_0000) % 256) * 0x1_0000 + ((a / 0x100) % 256) * 0x100 + a % 256 == a % 0x100_0000) by (nonlinear_arith)
        requires a >= 0;
}

/// A DataFlash address puts the page above a 9-bit byte offset (10 bits
/// for pages over 511 bytes): the chip recovers the page of `byte_addr` as
/// the address divided by 512 (1024), and the offset in the page as the
/// remainder.
pub proof fn law_at45_address_splits_page_and_offset(sector: usize, byte_addr: u64)
    requires
        0 < sector < 1024,
    ensures
        sector <= 511 ==> spec_at45_physical(sector, byte_addr) / 512 == byte_addr as int / sector as int
            && spec_at45_physical(sector, byte_addr) % 512 == byte_addr as int % sector as int,
        sector > 511 ==> spec_at45_physical(sector, byte_addr) / 1024 == byte_addr as int / sector as int
            && spec_at45_physical(sector, byte_addr) % 1024 == byte_addr as int % sector as int,
{
    let s = sector as int;
    let b = byte_addr as int;
    let off = b % s;
    let page = b / s;
    let w: int = if sector > 511 { 1024 } else { 512 };
    assert(0 <= off < s) by (nonlinear_arith)
        requires s > 0, off == b % s;
    assert(page >= 0) by (nonlinear_arith)
        requires s > 0, b >= 0, page == b / s;
    assert(spec_at45_physical(sector, byte_addr) == off + page * w);
    vstd::arithmetic::div_mod::lemma_fundamental_div_mod_converse(off + page * w, w, page, off);
}


/// An I2C read packet follows the address prefix with a repeated START,
/// the device address with the read bit set, and an input command whose
/// low six bits hold the chunk length less one (`0xC0` marks it).
pub proof fn law_i2c_read_packet_layout(addr: int, algorithm: u8, chunk: int)
    requires
        1 <= chunk <= 64,
        spec_i2c_addr_prefix(addr as u64, algorithm) is Some,
    ensures ({
        let pre = spec_i2c_addr_prefix(addr as u64, algorithm)->0;
        let p = i2c_read_packet(addr, algorithm, chunk);
        &&& p.len() == pre.len() + 7
        &&& p.subrange(0, pre.len() as int) == pre
        &&& p[pre.len() as int + 2] == spec_i2c_device_address(addr as u32, algorithm) + 1
        &&& p[pre.len() as int + 3] / 64 == 3
        &&& p[pre.len() as int + 3] % 64 + 1 == chunk
    }),
{
    let pre = spec_i2c_addr_prefix(addr as u64, algorithm)->0;
    let p = i2c_read_packet(addr, algorithm, chunk);
    assert(p.subrange(0, pre.len() as int) =~= pre);
    law_i2c_device_address_selects_block(addr as u32, algorithm);
    let d = spec_i2c_device_address(addr as u32, algorithm);
    let c1: u8 = (chunk - 1) as u8;
    assert(c1 < 64);
    assert(d | 0x01u8 == d + 1 && (0xC0u8 | c1) / 64 == 3 && (0xC0u8 | c1) % 64 == c1) by (bit_vector)
        requires d % 2 == 0, c1 < 64;
}

/// An I2C write packet follows the address prefix with an output command
/// whose low seven bits hold the number of data bytes, then those bytes.
pub proof fn law_i2c_write_packet_layout(addr: int, algorithm: u8, part: Seq<u8>)
    requires
        part.len() < 128,
        spec_i2c_addr_prefix(addr as u64, algorithm) is Some,
    ensures ({
        let pre = spec_i2c_addr_prefix(addr as u64, algorithm)->0;
        let p = i2c_write_packet(addr, algorithm, part);
        &&& p.len() == pre.len() + part.len() + 3
        &&& p.subrange(0, pre.len() as int) == pre
        &&& p[pre.len() as int] == 0x80 + part.len()
        &&& p.subrange(pre.len() as int + 1, pre.len() as int + 1 + part.len()) == part
    }),
{
    let pre = spec_i2c_addr_prefix(addr as u64, algorithm)->0;
    let p = i2c_write_packet(addr, algorithm, part);
    assert(p.subrange(0, pre.len() as int) =~= pre);
    assert(p.subrange(pre.len() as int + 1, pre.len() as int + 1 + part.len()) =~= part);
    let n: u8 = part.len() as u8;
    assert(0x80u8 | n == 0x80 + n) by (bit_vector)
        requires n < 128;
}

} // verus!
