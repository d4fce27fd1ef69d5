//! Application state and the device-level SPI NOR operations shared by every
//! front end: status registers, write protection, 4-byte mode, JEDEC probes
//! and chip detection.
use vstd::prelude::*;
use crate::ch34x::{Ch34xSettings, DeviceMode, ProgrammerHal};
use crate::chipdb::{attr_number, id_field, id_key, info_matches, keys_unique, lookup, pairs_view, ChipInfo, Chiplib};
use crate::progress::Clock;
use crate::protocols::{cs_cmd, read_reg};
use crate::sfdp::SfdpBasicFlashParams;
use crate::spi_bus::SpiBus;
use crate::text::{msg_usize, str_eq};
use crate::nor_ops::{got_byte, reg_or_ff};

verus! {

/// A programmer found by auto-detection.
#[derive(Clone)]
pub struct ProgrammerCandidate {
    /// Stable key, e.g. `ch341:0`, `ch347f:1` or `serprog:COM3`.
    pub id: String,
    /// `ch341` | `ch347` | `ch347f` | `serprog`.
    pub kind: String,
    pub name: String,
    pub detail: String,
    pub device_index: Option<u32>,
    pub usb_bus: Option<u8>,
    pub usb_address: Option<u8>,
    pub port: Option<String>,
}

/// Opens the selected CH34X programmer (a USB operation of the host).
pub trait Ch34xOpener {
    type Device: ProgrammerHal;

    fn open_with_mode(&self, settings: &Ch34xSettings, mode: DeviceMode) -> Result<Self::Device, String>;
}

/// An opener together with the bus modes it has been asked to open, in order.
pub struct Ch34xPort<'a, O: Ch34xOpener> {
    opener: &'a O,
    opened: Ghost<Seq<DeviceMode>>,
}

impl<'a, O: Ch34xOpener> Ch34xPort<'a, O> {
    /// The modes of every open requested through this port so far.
    pub closed spec fn opens(&self) -> Seq<DeviceMode> {
        self.opened@
    }

    pub fn new(opener: &'a O) -> (p: Self)
        ensures
            p.opens() == Seq::<DeviceMode>::empty(),
    {
        Ch34xPort { opener, opened: Ghost(Seq::empty()) }
    }

    /// Ask the opener for the programmer in `settings`, in bus mode `mode`.
    pub fn open(&mut self, settings: &Ch34xSettings, mode: DeviceMode) -> (r: Result<O::Device, String>)
        ensures
            final(self).opens() == old(self).opens().push(mode),
    {
        proof {
            self.opened@ = self.opened@.push(mode);
        }
        self.opener.open_with_mode(settings, mode)
    }
}

/// Shared application state. `S` is the serprog connection.
pub struct AppState<S: SpiBus + Clock> {
    pub ch34x: Option<Ch34xSettings>,
    pub serprog: Option<S>,
    pub lib: Option<Chiplib>,
    pub connected_device: Option<String>,
    pub detected: Option<ChipInfo>,
    /// Last serial-port snapshot; serial probing only runs again when it changes.
    pub last_serial_ports: Vec<String>,
    /// Last serprog probe result, reused while the port list is unchanged.
    pub cached_serprog: Vec<ProgrammerCandidate>,
    /// True while a read/write/erase/verify flow is executing.
    pub operation_running: bool,
    /// The sidecar adapter plugin selected for chip operations, if any.
    pub sidecar_adapter: Option<String>,
    /// The device of that adapter.
    pub sidecar_device: Option<String>,
}

/// The loaded chip library.
pub fn get_lib<S: SpiBus + Clock>(state: &AppState<S>) -> (r: Result<&Chiplib, String>)
    ensures
        r is Ok <==> state.lib is Some,
        r matches Ok(l) ==> state.lib == Some(*l),
{
    match &state.lib {
        Some(l) => Ok(l),
        None => Err("芯片库未加载".to_string()),
    }
}

/// Open the selected CH34X programmer in SPI mode.
pub fn open_ch34x<S: SpiBus + Clock, O: Ch34xOpener>(state: &AppState<S>, port: &mut Ch34xPort<O>) -> (r: Result<O::Device, String>)
    ensures
        state.ch34x is None ==> r is Err && final(port).opens() == old(port).opens(),
        state.ch34x is Some ==> final(port).opens() == old(port).opens().push(DeviceMode::Spi),
{
    open_ch34x_mode(state, port, DeviceMode::Spi)
}

/// Open the selected CH34X programmer in bus mode `mode`.
pub fn open_ch34x_mode<S: SpiBus + Clock, O: Ch34xOpener>(
    state: &AppState<S>,
    port: &mut Ch34xPort<O>,
    mode: DeviceMode,
) -> (r: Result<O::Device, String>)
    ensures
        state.ch34x is None ==> r is Err && final(port).opens() == old(port).opens(),
        state.ch34x is Some ==> final(port).opens() == old(port).opens().push(mode),
{
    match &state.ch34x {
        Some(settings) => port.open(settings, mode),
        None => Err("没有可用的 CH34X 编程器，请先连接".to_string()),
    }
}

fn read_id5<H: ProgrammerHal + ?Sized>(dev: &H, cmd: &[u8]) -> Result<[u8; 5], String> {
    dev.cs_low()?;
    dev.spi_tx(cmd)?;
    let mut id = [0xFFu8; 5];
    dev.spi_rx(&mut id)?;
    dev.cs_high()?;
    Ok(id)
}

/// JEDEC id probe (9Fh), five bytes.
pub fn spi_read_jedec<H: ProgrammerHal + ?Sized>(dev: &H) -> Result<[u8; 5], String> {
    read_id5(dev, &[0x9F])
}

/// SPI NAND id probe: 9Fh followed by address byte 00h (some NAND parts
/// only answer after the address byte).
pub fn spi_read_jedec_with_addr<H: ProgrammerHal + ?Sized>(dev: &H) -> Result<[u8; 5], String> {
    read_id5(dev, &[0x9F, 0x00])
}

/// 3-byte addressing covers exactly 16 MiB; only larger chips need 4-byte
/// addressing.
pub fn nor_requires_4byte(size: u64) -> (r: bool)
    ensures
        r == (size > 0x0100_0000),
{
    size > 0x0100_0000
}

/// NOR parameters of the read/write/erase paths.
pub struct NorParams {
    pub page: usize,
    pub _sector: usize,
    pub _block: usize,
    pub addr4b: bool,
    pub alg: u8,
}

/// NOR parameters from a chip record: `addr4bit` low nibble (or a size above
/// 16 MiB) selects 4-byte addressing, its high nibble the 4-byte algorithm;
/// sector and block default to 4 KiB and 64 KiB.
pub fn nor_params(info: &ChipInfo) -> (p: NorParams)
    requires
        keys_unique(pairs_view(info.attrs@)),
    ensures
        p.page == (if info.page == 0 { 1 } else { info.page as int }),
        ({
            let a = (match attr_number(pairs_view(info.attrs@), "addr4bit"@, 0xFFFF_FFFF) {
                Some(x) => x,
                None => 0,
            } as u32) as u8;
            p.addr4b == (a % 16 != 0 || info.size > 0x0100_0000) && p.alg == a / 16
        }),
        p._sector == (match attr_number(pairs_view(info.attrs@), "sector"@, 0xFFFF_FFFF) {
            Some(x) => x,
            None => 4096,
        } as u32) as usize,
        p._block == (match attr_number(pairs_view(info.attrs@), "block"@, 0xFFFF_FFFF) {
            Some(x) => x,
            None => 65536,
        } as u32) as usize,
{
    let page: usize = if info.page == 0 { 1 } else { info.page as usize };
    let addr4bit: u8 = match info.attr_u32("addr4bit") {
        Some(v) => v as u8,
        None => 0,
    };
    let lo = addr4bit & 0x0F;
    let hi = (addr4bit >> 4) & 0x0F;
    assert(lo == addr4bit % 16 && hi == addr4bit / 16) by (bit_vector)
        requires lo == addr4bit & 0x0F, hi == (addr4bit >> 4) & 0x0F;
    let sector = match info.attr_u32("sector") {
        Some(v) => v as usize,
        None => 4096,
    };
    let block = match info.attr_u32("block") {
        Some(v) => v as usize,
        None => 65536,
    };
    NorParams { page, _sector: sector, _block: block, addr4b: lo != 0 || nor_requires_4byte(info.size), alg: hi }
}

/// Read one status register (`opcode`).
pub fn spi_read_status_register<H: ProgrammerHal + ?Sized>(dev: &H, opcode: u8) -> Result<u8, String> {
    read_reg(dev, &[opcode])
}

/// Read status register 1 (05h).
pub fn spi_read_status<H: ProgrammerHal + ?Sized>(dev: &H) -> Result<u8, String> {
    spi_read_status_register(dev, 0x05)
}

/// SR1 block-protect bits BP0..BP2.
pub const NOR_BP_MASK_SR1: u8 = 0x1C;

/// Status-register snapshot used by the write-protect commands.
#[derive(Clone)]
pub struct NorWriteProtectStatus {
    pub sr1: u8,
    pub sr2: u8,
    pub sr3: u8,
    /// BP0..BP2 (SR1 bits 2-4) plus BP4 (SR2 bit 6, reported as bit 5) when
    /// SR2 answered (`0xFF` means the register does not exist).
    pub bp_bits: u8,
    pub write_protected: bool,
}

/// The snapshot of status registers `sr1`, `sr2`, `sr3`.
pub open spec fn spec_wp_snapshot(s: NorWriteProtectStatus, sr1: u8, sr2: u8, sr3: u8) -> bool {
    &&& s.sr1 == sr1 && s.sr2 == sr2 && s.sr3 == sr3
    &&& s.bp_bits == crate::nor_ops::spec_nor_bp_bits(sr1, sr2)
    &&& s.write_protected == (s.bp_bits != 0)
}

/// Build a write-protect snapshot from the three status registers.
pub fn wp_snapshot_of(sr1: u8, sr2: u8, sr3: u8) -> (s: NorWriteProtectStatus)
    ensures
        spec_wp_snapshot(s, sr1, sr2, sr3),
{
    let bp_bits = crate::nor_ops::nor_bp_bits(sr1, sr2);
    NorWriteProtectStatus { sr1, sr2, sr3, bp_bits, write_protected: bp_bits != 0 }
}

/// Snapshot SR1/SR2/SR3 (05h/35h/15h); SR2 and SR3 read as `0xFF` when the
/// chip does not answer them.
pub fn nor_wp_snapshot<H: ProgrammerHal + ?Sized>(dev: &H) -> (r: Result<NorWriteProtectStatus, String>)
    ensures
        r matches Ok(s) ==> spec_wp_snapshot(s, s.sr1, s.sr2, s.sr3),
{
    let sr1 = spi_read_status_register(dev, 0x05)?;
    let sr2 = match spi_read_status_register(dev, 0x35) {
        Ok(v) => v,
        Err(_) => 0xFF,
    };
    let sr3 = match spi_read_status_register(dev, 0x15) {
        Ok(v) => v,
        Err(_) => 0xFF,
    };
    Ok(wp_snapshot_of(sr1, sr2, sr3))
}

/// Poll SR1 until WIP, WEL and EPE (bits 0, 1, 5) are clear.
pub fn spi_wait_ready<H: ProgrammerHal + ?Sized>(dev: &H, timeout_ms: u64) -> Result<(), String> {
    crate::protocols::poll_ready(dev, &[0x05], 0x23, false, timeout_ms, "等待闪存就绪超时")
}

/// Write enable (06h).
pub fn spi_write_enable<H: ProgrammerHal + ?Sized>(dev: &H) -> Result<(), String> {
    cs_cmd(dev, &[0x06])
}

/// Write disable (04h).
pub fn spi_write_disable<H: ProgrammerHal + ?Sized>(dev: &H) -> Result<(), String> {
    cs_cmd(dev, &[0x04])
}

/// Clear the block-protect bits and report the status afterwards. A chip
/// without protection is left untouched. EWSR (50h) precedes WREN for parts
/// that predate WREN-gated status writes.
pub fn nor_clear_block_protect<H: ProgrammerHal + ?Sized>(dev: &H) -> (r: Result<NorWriteProtectStatus, String>)
    ensures
        r matches Ok(s) ==> spec_wp_snapshot(s, s.sr1, s.sr2, s.sr3),
{
    let before = nor_wp_snapshot(dev)?;
    if before.bp_bits == 0 {
        return Ok(before);
    }
    spi_wait_ready(dev, 1000)?;
    cs_cmd(dev, &[0x50])?;
    spi_write_enable(dev)?;
    let sr1_new = before.sr1 & !NOR_BP_MASK_SR1;
    cs_cmd(dev, &[0x01, sr1_new])?;
    spi_wait_ready(dev, 2000)?;
    nor_wp_snapshot(dev)
}

/// Clear BP0..BP2 (write SR1 = 0) when any of them is set.
pub fn spi_unprotect<H: ProgrammerHal + ?Sized>(dev: &H) -> Result<(), String> {
    let sr = spi_read_status(dev)?;
    if (sr & NOR_BP_MASK_SR1) != 0 {
        spi_write_enable(dev)?;
        cs_cmd(dev, &[0x01, 0x00])?;
        spi_wait_ready(dev, 1000)?;
    }
    Ok(())
}

/// Enter or leave 4-byte address mode: B7h/E9h (Winbond also clears the
/// extended address register on exit), or for Spansion (`alg == 2`) write
/// the bank register (17h) and check it reads back (16h).
pub fn spi_4byte_mode<H: ProgrammerHal + ?Sized>(dev: &H, alg: u8, enable: bool) -> Result<(), String> {
    spi_wait_ready(dev, 1000)?;
    if alg == 0x02 {
        let br: u8 = if enable { 0x81 } else { 0x00 };
        cs_cmd(dev, &[0x17, br])?;
        let readback = read_reg(dev, &[0x16])?;
        if readback != br {
            return Err(msg_usize("4B 模式切换失败: 读回 ", readback as usize, ""));
        }
    } else {
        let cmd: u8 = if enable { 0xB7 } else { 0xE9 };
        cs_cmd(dev, &[cmd])?;
        if !enable && alg == 0x01 {
            spi_write_enable(dev)?;
            cs_cmd(dev, &[0xC5, 0x00])?;
        }
    }
    Ok(())
}

/// Read one status register over a SPI bus.
fn bus_status<S: SpiBus>(ser: &mut S, opcode: u8) -> (r: Result<u8, String>)
    ensures
        final(ser).history() == old(ser).history().push(crate::spi_bus::transfer(seq![opcode], 1)),
        final(ser).replies().len() == old(ser).replies().len() + 1,
        final(ser).replies().drop_last() == old(ser).replies(),
        r is Ok <==> got_byte(final(ser).replies().last()),
        r matches Ok(v) ==> v == reg_or_ff(final(ser).replies().last()),
{
    let cmd = [opcode];
    assert(cmd@ =~= seq![opcode]);
    let got = ser.transact(&cmd, 1);
    assert(ser.replies().drop_last() =~= old(ser).replies());
    let v = match got {
        Ok(v) => v,
        Err(e) => {
            return Err(e);
        },
    };
    if v.len() == 0 {
        return Err("状态寄存器读取无数据".to_string());
    }
    Ok(v[0])
}

/// The snapshot from the replies after the earlier ones: SR1 must have
/// answered; SR2 and SR3 read as `0xFF` when they did not.
pub open spec fn wp_answer(before: Seq<Option<Seq<u8>>>, after: Seq<Option<Seq<u8>>>, r: Result<NorWriteProtectStatus, String>) -> bool {
    let n = before.len() as int;
    &&& after.len() >= n + 1
    &&& after.subrange(0, n) == before
    &&& (r is Ok <==> got_byte(after[n]))
    &&& (r matches Ok(s) ==> after.len() == n + 3 && s.sr1 == reg_or_ff(after[n]) && s.sr2 == reg_or_ff(after[n + 1])
        && s.sr3 == reg_or_ff(after[n + 2]))
}

/// Everything in the state but the serprog connection's traffic is left
/// as it was.
pub open spec fn serprog_only<S: SpiBus + Clock>(a: AppState<S>, b: AppState<S>) -> bool {
    &&& a.ch34x == b.ch34x
    &&& a.detected == b.detected
    &&& a.lib == b.lib
    &&& a.connected_device == b.connected_device
    &&& a.sidecar_adapter == b.sidecar_adapter
    &&& a.sidecar_device == b.sidecar_device
    &&& a.operation_running == b.operation_running
    &&& a.last_serial_ports@ == b.last_serial_ports@
    &&& a.cached_serprog@ == b.cached_serprog@
    &&& a.serprog is Some == b.serprog is Some
}

/// Snapshot SR1/SR2/SR3 over serprog; SR2/SR3 read as `0xFF` when absent.
pub fn serprog_nor_wp_snapshot<S: SpiBus>(ser: &mut S) -> (r: Result<NorWriteProtectStatus, String>)
    ensures
        r matches Ok(s) ==> spec_wp_snapshot(s, s.sr1, s.sr2, s.sr3),
        r is Err ==> final(ser).history() == old(ser).history().push(crate::spi_bus::transfer(seq![0x05u8], 1)),
        r is Ok ==> final(ser).history() == old(ser).history().push(crate::spi_bus::transfer(seq![0x05u8], 1))
            .push(crate::spi_bus::transfer(seq![0x35u8], 1)).push(crate::spi_bus::transfer(seq![0x15u8], 1)),
        wp_answer(old(ser).replies(), final(ser).replies(), r),
{
    let ghost r0 = ser.replies();
    let sr1 = bus_status(ser, 0x05)?;
    let ghost r1 = ser.replies();
    let sr2 = match bus_status(ser, 0x35) {
        Ok(v) => v,
        Err(_) => 0xFF,
    };
    let ghost r2 = ser.replies();
    let sr3 = match bus_status(ser, 0x15) {
        Ok(v) => v,
        Err(_) => 0xFF,
    };
    let ghost r3 = ser.replies();
    proof {
        let n = r0.len() as int;
        assert(r3.subrange(0, n) =~= r0) by {
            assert(r3.drop_last().drop_last().drop_last() =~= r3.subrange(0, n));
        }
        assert(r3[n] == r1.last()) by {
            assert(r3.drop_last().drop_last() == r1);
        }
        assert(r3[n + 1] == r2.last()) by {
            assert(r3.drop_last() == r2);
        }
    }
    Ok(wp_snapshot_of(sr1, sr2, sr3))
}

/// One more status read appended to a history of status reads after `h0`.
proof fn lemma_rdsr_appended(h0: Seq<crate::spi_bus::SpiTransfer>, hb: Seq<crate::spi_bus::SpiTransfer>, h: Seq<crate::spi_bus::SpiTransfer>)
    requires
        hb.len() >= h0.len(),
        hb.subrange(0, h0.len() as int) == h0,
        forall|i: int| h0.len() <= i < hb.len() ==> #[trigger] hb[i] == crate::spi_bus::transfer(seq![0x05u8], 1),
        h == hb.push(crate::spi_bus::transfer(seq![0x05u8], 1)),
    ensures
        h.len() > h0.len(),
        h.subrange(0, h0.len() as int) == h0,
        forall|i: int| h0.len() <= i < h.len() ==> #[trigger] h[i] == crate::spi_bus::transfer(seq![0x05u8], 1),
{
    assert(h.subrange(0, h0.len() as int) =~= hb.subrange(0, h0.len() as int));
    assert forall|i: int| h0.len() <= i < h.len() implies #[trigger] h[i] == crate::spi_bus::transfer(seq![0x05u8], 1) by {
        if i < hb.len() {
            assert(h[i] == hb[i]);
        }
    }
}

/// Poll serprog RDSR until WIP clears or `timeout_ms` passes.
pub fn serprog_wait_ready<S: SpiBus + Clock>(ser: &mut S, timeout_ms: u64) -> (r: Result<(), String>)
    ensures
        final(ser).history().len() > old(ser).history().len(),
        final(ser).history().subrange(0, old(ser).history().len() as int) == old(ser).history(),
        forall|i: int| old(ser).history().len() <= i < final(ser).history().len()
            ==> #[trigger] final(ser).history()[i] == crate::spi_bus::transfer(seq![0x05u8], 1),
        final(ser).replies().len() >= old(ser).replies().len(),
        final(ser).replies().subrange(0, old(ser).replies().len() as int) == old(ser).replies(),
{
    let start = ser.now_ms();
    let max_polls: u64 = timeout_ms / 5 + 2;
    let mut polls: u64 = 0;
    let ghost h0 = ser.history();
    let ghost r0 = ser.replies();
    while polls < max_polls
        invariant
            max_polls >= 2,
            h0 == old(ser).history(),
            polls == 0 ==> ser.history() == h0,
            polls > 0 ==> ser.history().len() > h0.len(),
            ser.history().len() >= h0.len(),
            ser.history().subrange(0, h0.len() as int) == h0,
            forall|i: int| h0.len() <= i < ser.history().len() ==> #[trigger] ser.history()[i] == crate::spi_bus::transfer(seq![0x05u8], 1),
            r0 == old(ser).replies(),
            ser.replies().len() >= r0.len(),
            ser.replies().subrange(0, r0.len() as int) == r0,
        decreases max_polls - polls,
    {
        let ghost hb = ser.history();
        let ghost rb = ser.replies();
        let cmd = [0x05u8];
        assert(cmd@ =~= seq![0x05u8]);
        let got = ser.transact(&cmd, 1);
        proof {
            assert(ser.replies().subrange(0, r0.len() as int) =~= rb.subrange(0, r0.len() as int));
        }
        let resp = match got {
            Ok(v) => v,
            Err(e) => {
                proof { lemma_rdsr_appended(h0, hb, ser.history()); }
                return Err(e);
            },
        };
        proof { lemma_rdsr_appended(h0, hb, ser.history()); }
        if resp.len() == 1 && (resp[0] & 0x01) == 0 {
            return Ok(());
        }
        let now = ser.now_ms();
        let elapsed = if now >= start { now - start } else { 0 };
        if elapsed > timeout_ms {
            return Err("等待闪存就绪超时".to_string());
        }
        ser.sleep_ms(5);
        polls = polls + 1;
    }
    Err("等待闪存就绪超时".to_string())
}

/// The refusal when the detected chip is no SPI NOR part.
pub open spec fn nor_required_text(detected: Option<ChipInfo>) -> Seq<char> {
    match detected {
        None => "请先检测或选择 SPI NOR 芯片"@,
        Some(_) => "当前芯片不是 SPI NOR"@,
    }
}

/// Whether the detected chip is an SPI NOR part.
fn require_nor(detected: &Option<ChipInfo>) -> (r: Result<(), String>)
    ensures
        r is Ok <==> (detected matches Some(i) && i.protocol@ == "SPI_NOR"@),
        r matches Err(e) ==> e@ == nor_required_text(*detected),
{
    match detected {
        None => Err("请先检测或选择 SPI NOR 芯片".to_string()),
        Some(info) => if str_eq(info.protocol.as_str(), "SPI_NOR") {
            Ok(())
        } else {
            Err("当前芯片不是 SPI NOR".to_string())
        },
    }
}

/// Write-protect status of the detected SPI NOR, through whichever
/// programmer is connected.
pub fn nor_wp_status<S: SpiBus + Clock, O: Ch34xOpener>(state: &mut AppState<S>, port: &mut Ch34xPort<O>) -> (r: Result<NorWriteProtectStatus, String>)
    ensures
        serprog_only(*old(state), *final(state)),
        old(state).ch34x is None ==> final(port).opens() == old(port).opens(),
        !(old(state).detected matches Some(i) && i.protocol@ == "SPI_NOR"@) ==> r is Err
            && r->Err_0@ == nor_required_text(old(state).detected),
        r matches Ok(s) ==> spec_wp_snapshot(s, s.sr1, s.sr2, s.sr3),
        (old(state).detected matches Some(i) && i.protocol@ == "SPI_NOR"@) && old(state).ch34x is None ==> {
            &&& old(state).serprog is None ==> r is Err && r->Err_0@ == "没有可用的编程器"@
            &&& old(state).serprog is Some ==> wp_answer(old(state).serprog->0.replies(), final(state).serprog->0.replies(), r)
        },
{
    require_nor(&state.detected)?;
    if state.ch34x.is_some() {
        let dev = open_ch34x_mode(state, port, DeviceMode::Spi)?;
        nor_wp_snapshot(&dev)
    } else {
        match &mut state.serprog {
            Some(ser) => serprog_nor_wp_snapshot(ser),
            None => Err("没有可用的编程器".to_string()),
        }
    }
}

/// Disable the block protection of the detected SPI NOR and describe the
/// SR1 transition.
pub fn nor_wp_disable<S: SpiBus + Clock, O: Ch34xOpener>(state: &mut AppState<S>, port: &mut Ch34xPort<O>) -> (r: Result<String, String>)
    ensures
        serprog_only(*old(state), *final(state)),
        old(state).ch34x is None ==> final(port).opens() == old(port).opens(),
        !(old(state).detected matches Some(i) && i.protocol@ == "SPI_NOR"@) ==> r is Err,
        (old(state).detected matches Some(i) && i.protocol@ == "SPI_NOR"@) && old(state).ch34x is None ==> {
            &&& old(state).serprog is None ==> r is Err && r->Err_0@ == "没有可用的编程器"@
            &&& old(state).serprog is Some ==> disable_outcome(old(state).serprog->0.replies(), final(state).serprog->0.replies(),
                old(state).serprog->0.history(), final(state).serprog->0.history(), r)
        },
{
    require_nor(&state.detected)?;
    if state.ch34x.is_some() {
        let dev = open_ch34x_mode(state, port, DeviceMode::Spi)?;
        let before = nor_wp_snapshot(&dev)?;
        let after = nor_clear_block_protect(&dev)?;
        Ok(crate::text::msg_wp_change(before.sr1, after.sr1, before.write_protected, after.write_protected))
    } else {
        match &mut state.serprog {
            Some(ser) => serprog_wp_disable(ser),
            None => Err("没有可用的编程器".to_string()),
        }
    }
}

/// The outcome of clearing block protection over serprog: a status snapshot
/// first; when it shows no protection the answer names SR1 and nothing
/// more is sent; otherwise `50h`, WREN and `01h` with the block-protect
/// bits of SR1 cleared follow, and the answer compares SR1 before and after.
pub open spec fn disable_outcome(r0: Seq<Option<Seq<u8>>>, r1: Seq<Option<Seq<u8>>>, h0: Seq<crate::spi_bus::SpiTransfer>,
    h1: Seq<crate::spi_bus::SpiTransfer>, r: Result<String, String>) -> bool {
    let n = r0.len() as int;
    let m = r1.len() as int;
    let k = h0.len() as int;
    let sr1 = reg_or_ff(r1[n]);
    let protected = crate::nor_ops::spec_nor_bp_bits(sr1, reg_or_ff(r1[n + 1])) != 0;
    &&& m >= n + 1 && r1.subrange(0, n) == r0
    &&& r is Ok ==> got_byte(r1[n]) && m >= n + 3
    &&& r is Ok && !protected ==> h1.len() == k + 3
        && r->Ok_0@ == "NOR 写保护未开启（SR1=0x"@ + crate::text::hex_pad(sr1 as nat, 2, true) + "），无需解除"@
    &&& r is Ok && protected ==> {
        &&& h1.len() > k + 6
        &&& h1[k + 3] == crate::spi_bus::transfer(seq![0x50u8], 0)
        &&& h1[k + 4] == crate::spi_bus::transfer(seq![0x06u8], 0)
        &&& h1[k + 5] == crate::spi_bus::transfer(seq![0x01u8, (sr1 & !0x1Cu8) as u8], 0)
        &&& r->Ok_0@ == crate::text::wp_change_text(sr1, reg_or_ff(r1[m - 3]), true,
            crate::nor_ops::spec_nor_bp_bits(reg_or_ff(r1[m - 3]), reg_or_ff(r1[m - 2])) != 0)
    }
}

/// Clear the block protection of the SPI NOR behind a serprog connection
/// and describe the SR1 transition.
fn serprog_wp_disable<S: SpiBus + Clock>(ser: &mut S) -> (r: Result<String, String>)
    ensures
        disable_outcome(old(ser).replies(), final(ser).replies(), old(ser).history(), final(ser).history(), r),
{
    let ghost r0 = ser.replies();
    let ghost h0 = ser.history();
    let ghost n = r0.len() as int;
    let before = serprog_nor_wp_snapshot(ser)?;
    let ghost r1 = ser.replies();
    let ghost h1 = ser.history();
    if !before.write_protected {
        return Ok(crate::text::msg_wp_untouched(before.sr1));
    }
    let sr1_new = before.sr1 & !NOR_BP_MASK_SR1;
    let c50 = [0x50u8];
    let c06 = [0x06u8];
    let c01 = [0x01u8, sr1_new];
    assert(c50@ =~= seq![0x50u8] && c06@ =~= seq![0x06u8] && c01@ =~= seq![0x01u8, sr1_new]);
    let a = ser.transact(&c50, 0);
    proof {
        assert(ser.replies().subrange(0, r1.len() as int) =~= r1);
        lemma_replies_kept(r0, r1, ser.replies(), n);
    }
    a?;
    let ghost r2 = ser.replies();
    let b = ser.transact(&c06, 0);
    proof {
        assert(ser.replies().subrange(0, r2.len() as int) =~= r2);
        lemma_replies_kept(r0, r2, ser.replies(), n);
    }
    b?;
    let ghost r3 = ser.replies();
    let c = ser.transact(&c01, 0);
    proof {
        assert(ser.replies().subrange(0, r3.len() as int) =~= r3);
        lemma_replies_kept(r0, r3, ser.replies(), n);
    }
    c?;
    let ghost r4 = ser.replies();
    let ghost h4 = ser.history();
    let w = serprog_wait_ready(ser, 2000);
    proof { lemma_replies_kept(r0, r4, ser.replies(), n); }
    w?;
    let ghost r5 = ser.replies();
    let ghost h5 = ser.history();
    let after = serprog_nor_wp_snapshot(ser);
    proof { lemma_replies_kept(r0, r5, ser.replies(), n); }
    let after = after?;
    proof {
        let rf = ser.replies();
        let hf = ser.history();
        assert(rf[n] == r1[n] && rf[n + 1] == r1[n + 1]) by {
            assert(rf.subrange(0, r5.len() as int)[n] == rf[n]);
            assert(rf.subrange(0, r5.len() as int)[n + 1] == rf[n + 1]);
            assert(r5[n] == r1[n] && r5[n + 1] == r1[n + 1]);
        }
        let k = h0.len() as int;
        assert(hf.subrange(0, h5.len() as int) == h5);
        assert(h5.subrange(0, h4.len() as int) == h4);
        assert(hf[k + 3] == h4[k + 3] && hf[k + 4] == h4[k + 4] && hf[k + 5] == h4[k + 5]) by {
            assert(hf.subrange(0, h5.len() as int)[k + 3] == hf[k + 3]);
            assert(hf.subrange(0, h5.len() as int)[k + 4] == hf[k + 4]);
            assert(hf.subrange(0, h5.len() as int)[k + 5] == hf[k + 5]);
            assert(h5.subrange(0, h4.len() as int)[k + 3] == h5[k + 3]);
            assert(h5.subrange(0, h4.len() as int)[k + 4] == h5[k + 4]);
            assert(h5.subrange(0, h4.len() as int)[k + 5] == h5[k + 5]);
        }
    }
    Ok(crate::text::msg_wp_change(before.sr1, after.sr1, true, after.write_protected))
}

/// Replies only grow: the first `n` stay, and so does everything of `mid`.
proof fn lemma_replies_kept(r0: Seq<Option<Seq<u8>>>, mid: Seq<Option<Seq<u8>>>, r: Seq<Option<Seq<u8>>>, n: int)
    requires
        n == r0.len(),
        mid.len() >= n + 1,
        mid.subrange(0, n) == r0,
        r.len() >= mid.len(),
        r.subrange(0, mid.len() as int) == mid,
    ensures
        r.len() >= n + 1,
        r.subrange(0, n) == r0,
        r[n] == mid[n],
        forall|i: int| 0 <= i < mid.len() ==> #[trigger] r[i] == mid[i],
{
    assert(r.subrange(0, n) =~= mid.subrange(0, n));
    assert forall|i: int| 0 <= i < mid.len() implies #[trigger] r[i] == mid[i] by {
        assert(r.subrange(0, mid.len() as int)[i] == r[i]);
    }
}

// ───────────────────────────── id candidates ─────────────────────────────

/// Upper-case hex digit of `d < 16`.
pub open spec fn hex_char(d: int) -> char {
    if d < 10 {
        (0x30 + d) as char
    } else {
        (0x41 + d - 10) as char
    }
}

/// Two upper-case hex digits of `b`.
pub open spec fn hex2(b: u8) -> Seq<char> {
    seq![hex_char((b / 16) as int), hex_char((b % 16) as int)]
}

/// Append `s` unless it is already present.
pub open spec fn push_new(out: Seq<Seq<char>>, s: Seq<char>) -> Seq<Seq<char>> {
    if out.contains(s) {
        out
    } else {
        out.push(s)
    }
}

/// Candidate id strings of a raw id probe, in order: the first three bytes,
/// the first two, then the same shifted by one byte (for NAND parts that
/// answer after a dummy byte); duplicates are dropped.
pub open spec fn spec_candidates(raw: Seq<u8>) -> Seq<Seq<char>> {
    let a = if raw.len() >= 3 { push_new(Seq::empty(), hex2(raw[0]) + hex2(raw[1]) + hex2(raw[2])) } else { Seq::empty() };
    let b = if raw.len() >= 2 { push_new(a, hex2(raw[0]) + hex2(raw[1])) } else { a };
    let c = if raw.len() >= 4 { push_new(b, hex2(raw[1]) + hex2(raw[2]) + hex2(raw[3])) } else { b };
    if raw.len() >= 3 { push_new(c, hex2(raw[1]) + hex2(raw[2])) } else { c }
}

/// Append the two upper-case hex digits of `b` to `s`.
pub fn push_hex2(s: &mut String, b: u8)
    ensures
        final(s)@ == old(s)@ + hex2(b),
{
    let digits = "0123456789ABCDEF";
    proof {
        reveal_strlit("0123456789ABCDEF");
    }
    let hi = (b / 16) as usize;
    let lo = (b % 16) as usize;
    let h = digits.substring_char(hi, hi + 1);
    let l = digits.substring_char(lo, lo + 1);
    s.append(h);
    s.append(l);
    proof {
        assert(h@ =~= seq![hex_char((b / 16) as int)]);
        assert(l@ =~= seq![hex_char((b % 16) as int)]);
    }
    assert(s@ =~= old(s)@ + hex2(b));
}

/// Upper-case hex text of `bytes`.
fn hex_of(bytes: &[u8]) -> (s: String)
    requires
        bytes@.len() <= 3,
    ensures
        bytes@.len() == 2 ==> s@ == hex2(bytes@[0]) + hex2(bytes@[1]),
        bytes@.len() == 3 ==> s@ == hex2(bytes@[0]) + hex2(bytes@[1]) + hex2(bytes@[2]),
{
    let mut s = String::new();
    let mut i: usize = 0;
    while i < bytes.len()
        invariant
            bytes@.len() <= 3,
            i <= bytes@.len(),
            i == 0 ==> s@ == Seq::<char>::empty(),
            i == 1 ==> s@ == hex2(bytes@[0]),
            i == 2 ==> s@ == hex2(bytes@[0]) + hex2(bytes@[1]),
            i == 3 ==> s@ == hex2(bytes@[0]) + hex2(bytes@[1]) + hex2(bytes@[2]),
        decreases bytes@.len() - i,
    {
        push_hex2(&mut s, bytes[i]);
        i = i + 1;
    }
    s
}

/// Append `s` to `out` unless an equal string is already there.
fn push_unique(out: &mut Vec<String>, s: String)
    ensures
        final(out)@.len() == push_new(strings_view(old(out)@), s@).len(),
        strings_view(final(out)@) == push_new(strings_view(old(out)@), s@),
{
    let mut i: usize = 0;
    while i < out.len()
        invariant
            i <= out@.len(),
            forall|j: int| 0 <= j < i ==> out@[j]@ != s@,
        decreases out@.len() - i,
    {
        if str_eq(out[i].as_str(), s.as_str()) {
            assert(strings_view(out@)[i as int] == s@);
            assert(strings_view(out@).contains(s@));
            return;
        }
        i = i + 1;
    }
    assert(!strings_view(out@).contains(s@)) by {
        if strings_view(out@).contains(s@) {
            let j = choose|j: int| 0 <= j < strings_view(out@).len() && strings_view(out@)[j] == s@;
            assert(out@[j]@ == s@);
        }
    }
    let ghost before = strings_view(out@);
    out.push(s);
    assert(strings_view(out@) =~= before.push(s@));
}

/// The texts of a vector of strings.
pub open spec fn strings_view(v: Seq<String>) -> Seq<Seq<char>> {
    Seq::new(v.len(), |i: int| v[i]@)
}

/// Candidate id strings of a raw id probe (see [`spec_candidates`]).
pub fn jedec_id_candidates(raw: &[u8]) -> (r: Vec<String>)
    ensures
        strings_view(r@) == spec_candidates(raw@),
{
    let mut out: Vec<String> = Vec::new();
    let n = raw.len();
    let ghost empty: Seq<Seq<char>> = Seq::empty();
    assert(strings_view(out@) =~= empty);
    if n >= 3 {
        push_unique(&mut out, hex_of(&[raw[0], raw[1], raw[2]]));
    }
    if n >= 2 {
        push_unique(&mut out, hex_of(&[raw[0], raw[1]]));
    }
    if n >= 4 {
        push_unique(&mut out, hex_of(&[raw[1], raw[2], raw[3]]));
    }
    if n >= 3 {
        push_unique(&mut out, hex_of(&[raw[1], raw[2]]));
    }
    out
}

// ───────────────────────────── detection ─────────────────────────────

/// Detection view of a chip record.
pub struct ChipDetectInfo {
    pub id: String,
    pub vendor: String,
    pub model: String,
    pub protocol: String,
    pub size: u64,
    pub page: u32,
    pub sector: Option<u64>,
    pub block: Option<u64>,
    pub addr4bit: Option<u32>,
    pub vcc: Option<String>,
    pub spare: Option<u64>,
    pub pages_per_block: Option<u32>,
    pub is_bmm: Option<bool>,
    pub dummy_mode: Option<String>,
    pub read_mode: Option<String>,
    pub write_mode: Option<String>,
    pub feature: Option<u32>,
}

/// Result of a detection: a message for the user and the detected chip.
pub struct ChipDetectResult {
    pub text: String,
    pub info: Option<ChipDetectInfo>,
}

pub open spec fn opt_num(v: Option<int>, n: Option<u64>) -> bool {
    match v {
        Some(x) => n == Some(x as u64),
        None => n is None,
    }
}

pub open spec fn opt_num32(v: Option<int>, n: Option<u32>) -> bool {
    match v {
        Some(x) => n == Some(x as u32),
        None => n is None,
    }
}

pub open spec fn opt_text(v: Option<Seq<char>>, t: Option<String>) -> bool {
    match v {
        Some(x) => t matches Some(s) && s@ == x,
        None => t is None,
    }
}

fn attr_string(info: &ChipInfo, key: &str) -> (r: Option<String>)
    requires
        keys_unique(pairs_view(info.attrs@)),
    ensures
        opt_text(lookup(pairs_view(info.attrs@), key@), r),
{
    match info.attr(key) {
        Some(v) => Some(String::from_str(v)),
        None => None,
    }
}

/// The detection view of a chip record: identity fields copied, numeric
/// attributes parsed; pages per block falls back to block / page, and the
/// BMM flag is `IsBMM` (or `isbmm`) other than `"0"`.
pub fn chip_info_to_detect(info: &ChipInfo) -> (d: ChipDetectInfo)
    requires
        keys_unique(pairs_view(info.attrs@)),
    ensures
        d.id@ == info.id@ && d.vendor@ == info.vendor@ && d.model@ == info.model@ && d.protocol@ == info.protocol@,
        d.size == info.size && d.page == info.page,
        opt_num(attr_number(pairs_view(info.attrs@), "sector"@, 0xFFFF_FFFF_FFFF_FFFF), d.sector),
        opt_num(attr_number(pairs_view(info.attrs@), "block"@, 0xFFFF_FFFF_FFFF_FFFF), d.block),
        opt_num32(attr_number(pairs_view(info.attrs@), "addr4bit"@, 0xFFFF_FFFF), d.addr4bit),
        opt_num(attr_number(pairs_view(info.attrs@), "spare"@, 0xFFFF_FFFF_FFFF_FFFF), d.spare),
        opt_num32(attr_number(pairs_view(info.attrs@), "feature"@, 0xFFFF_FFFF), d.feature),
        opt_text(lookup(pairs_view(info.attrs@), "vcc"@), d.vcc),
        opt_text(lookup(pairs_view(info.attrs@), "dummyMode"@), d.dummy_mode),
        opt_text(lookup(pairs_view(info.attrs@), "readMode"@), d.read_mode),
        opt_text(lookup(pairs_view(info.attrs@), "writeMode"@), d.write_mode),
        d.pages_per_block == (match attr_number(pairs_view(info.attrs@), "pagesPerBlock"@, 0xFFFF_FFFF) {
            Some(x) => Some(x as u32),
            None => match attr_number(pairs_view(info.attrs@), "block"@, 0xFFFF_FFFF_FFFF_FFFF) {
                Some(b) => {
                    let q = b / (if info.page == 0 { 1 } else { info.page as int });
                    Some((if q == 0 { 1 } else { q }) as u32)
                },
                None => None,
            },
        }),
        d.is_bmm == (match lookup(pairs_view(info.attrs@), "IsBMM"@) {
            Some(v) => Some(v != "0"@),
            None => match lookup(pairs_view(info.attrs@), "isbmm"@) {
                Some(v) => Some(v != "0"@),
                None => None,
            },
        }),
{
    let block = info.attr_u64("block");
    let ppb = match info.attr_u32("pagesPerBlock") {
        Some(v) => Some(v),
        None => match block {
            Some(b) => {
                let page: u64 = if info.page == 0 { 1 } else { info.page as u64 };
                let q = b / page;
                Some((if q == 0 { 1 } else { q }) as u32)
            },
            None => None,
        },
    };
    let is_bmm = match info.attr("IsBMM") {
        Some(v) => Some(!str_eq(v, "0")),
        None => match info.attr("isbmm") {
            Some(v) => Some(!str_eq(v, "0")),
            None => None,
        },
    };
    ChipDetectInfo {
        id: info.id.clone(),
        vendor: info.vendor.clone(),
        model: info.model.clone(),
        protocol: info.protocol.clone(),
        size: info.size,
        page: info.page,
        sector: info.attr_u64("sector"),
        block,
        addr4bit: info.attr_u32("addr4bit"),
        vcc: attr_string(info, "vcc"),
        spare: info.attr_u64("spare"),
        pages_per_block: ppb,
        is_bmm,
        dummy_mode: attr_string(info, "dummyMode"),
        read_mode: attr_string(info, "readMode"),
        write_mode: attr_string(info, "writeMode"),
        feature: info.attr_u32("feature"),
    }
}

/// Decimal text of `n` (no leading zeros; `"0"` for zero).
pub open spec fn decimal(n: nat) -> Seq<char>
    decreases n,
{
    if n < 10 {
        seq![(0x30 + n) as char]
    } else {
        decimal(n / 10) + seq![(0x30 + n % 10) as char]
    }
}

/// Decimal text of `n`.
pub fn decimal_string(n: u64) -> (s: String)
    ensures
        s@ == decimal(n as nat),
    decreases n,
{
    let digits = "0123456789";
    proof {
        reveal_strlit("0123456789");
    }
    if n < 10 {
        let d = n as usize;
        let t = digits.substring_char(d, d + 1);
        assert(t@ =~= seq![(0x30 + n) as char]);
        String::from_str(t)
    } else {
        let mut s = decimal_string(n / 10);
        let d = (n % 10) as usize;
        let t = digits.substring_char(d, d + 1);
        assert(t@ =~= seq![(0x30 + n % 10) as char]);
        s.append(t);
        s
    }
}

impl ChipInfo {
    /// An independent copy of the record.
    pub fn duplicate(&self) -> (c: ChipInfo)
        ensures
            c.id@ == self.id@ && c.vendor@ == self.vendor@ && c.model@ == self.model@ && c.protocol@ == self.protocol@,
            c.size == self.size && c.page == self.page,
            pairs_view(c.attrs@) == pairs_view(self.attrs@),
    {
        let mut attrs: Vec<(String, String)> = Vec::new();
        let mut i: usize = 0;
        while i < self.attrs.len()
            invariant
                i <= self.attrs@.len(),
                pairs_view(attrs@) == pairs_view(self.attrs@).take(i as int),
            decreases self.attrs@.len() - i,
        {
            let k = self.attrs[i].0.clone();
            let v = self.attrs[i].1.clone();
            let ghost before = attrs@;
            attrs.push((k, v));
            assert(attrs@ == before.push((k, v)));
            assert(k@ == self.attrs@[i as int].0@ && v@ == self.attrs@[i as int].1@);
            assert(pairs_view(attrs@) =~= pairs_view(before).push((k@, v@)));
            assert(pairs_view(self.attrs@).take(i + 1) =~= pairs_view(self.attrs@).take(i as int).push(pairs_view(self.attrs@)[i as int]));
            i = i + 1;
        }
        assert(pairs_view(self.attrs@).take(i as int) =~= pairs_view(self.attrs@));
        ChipInfo {
            id: self.id.clone(),
            vendor: self.vendor.clone(),
            model: self.model.clone(),
            protocol: self.protocol.clone(),
            size: self.size,
            page: self.page,
            attrs,
        }
    }
}

/// The record made for an unlisted SFDP-compliant SPI NOR part.
pub open spec fn sfdp_chip(info: ChipInfo, jedec_id: Seq<char>, p: crate::sfdp::SfdpParamsView) -> bool {
    &&& info.id@ == jedec_id
    &&& info.vendor@ == "SFDP"@
    &&& info.model@ == "Unknown "@ + jedec_id + " (SFDP)"@
    &&& info.protocol@ == "SPI_NOR"@
    &&& info.size == p.density_bytes
    &&& info.page == p.page_size
    &&& pairs_view(info.attrs@) == seq![("sector"@, decimal(p.sector_size as nat)), ("block"@, decimal(p.block_size as nat)), ("vcc"@, "3.3"@), ("sfdp"@, "1"@)]
    &&& keys_unique(pairs_view(info.attrs@))
}

/// Build the record of an unlisted SFDP part from its basic parameters; the
/// id is the JEDEC id text.
pub fn synthesize_sfdp_chip(jedec_id: &str, params: &SfdpBasicFlashParams) -> (info: ChipInfo)
    ensures
        sfdp_chip(info, jedec_id@, params@),
{
    let mut attrs: Vec<(String, String)> = Vec::new();
    attrs.push((String::from_str("sector"), decimal_string(params.sector_size as u64)));
    attrs.push((String::from_str("block"), decimal_string(params.block_size as u64)));
    attrs.push((String::from_str("vcc"), String::from_str("3.3")));
    attrs.push((String::from_str("sfdp"), String::from_str("1")));
    let mut model = String::from_str("Unknown ");
    model.append(jedec_id);
    model.append(" (SFDP)");
    proof {
        reveal_strlit("sector");
        reveal_strlit("block");
        reveal_strlit("vcc");
        reveal_strlit("sfdp");
    }
    let info = ChipInfo {
        id: String::from_str(jedec_id),
        vendor: String::from_str("SFDP"),
        model,
        protocol: String::from_str("SPI_NOR"),
        size: params.density_bytes,
        page: params.page_size,
        attrs,
    };
    assert(pairs_view(info.attrs@) =~= seq![("sector"@, decimal(params@.sector_size as nat)), ("block"@, decimal(params@.block_size as nat)), ("vcc"@, "3.3"@), ("sfdp"@, "1"@)]);
    assert(info.model@ == "Unknown "@ + jedec_id@ + " (SFDP)"@);
    let ghost pv = pairs_view(info.attrs@);
    assert(pv[0].0.len() == 6 && pv[1].0.len() == 5 && pv[2].0.len() == 3 && pv[3].0.len() == 4);
    assert forall|i: int, j: int| 0 <= i < j < pv.len() implies pv[i].0 != pv[j].0 by {
        if i == 0 {
            assert(pv[i].0.len() == 6);
        } else if i == 1 {
            assert(pv[i].0.len() == 5);
        } else {
            assert(i == 2 && j == 3);
        }
    }
    info
}

/// SFDP read on a CH34X programmer: 5Ah, 3-byte address, one dummy byte.
fn sfdp_read_ch34x<H: ProgrammerHal>(dev: &H, addr: u32, len: usize) -> Result<Vec<u8>, String> {
    let limit = dev.spi_frame_limit();
    if len > limit || limit - len < 5 {
        return Err("SFDP 读取长度超过当前 HAL 单帧上限".to_string());
    }
    let hdr = [0x5A, ((addr / 0x1_0000) % 256) as u8, ((addr / 0x100) % 256) as u8, (addr % 256) as u8, 0x00];
    dev.cs_low()?;
    dev.spi_tx(&hdr)?;
    let mut out = crate::protocols::vec_filled(0xFF, len);
    dev.spi_rx(out.as_mut_slice())?;
    dev.cs_high()?;
    Ok(out)
}

/// SFDP read over serprog.
fn sfdp_read_bus<S: SpiBus>(ser: &mut S, addr: u32, len: usize) -> (r: Result<Vec<u8>, String>)
    ensures
        final(ser).history() == old(ser).history().push(crate::spi_bus::transfer(
            seq![0x5Au8, ((addr / 0x1_0000) % 256) as u8, ((addr / 0x100) % 256) as u8, (addr % 256) as u8, 0x00u8], len as nat)),
        final(ser).replies() == old(ser).replies().push(crate::spi_bus::reply_of(r)),
{
    ser.transact(&[0x5A, ((addr / 0x1_0000) % 256) as u8, ((addr / 0x100) % 256) as u8, (addr % 256) as u8, 0x00], len)
}

/// SFDP discovery over serprog: header, then the basic parameter table.
fn discover_sfdp_bus<S: SpiBus>(ser: &mut S) -> (r: Result<Option<SfdpBasicFlashParams>, String>)
    ensures
        final(ser).history().len() > old(ser).history().len(),
        final(ser).history()[old(ser).history().len() as int]
            == crate::spi_bus::transfer(seq![0x5Au8, 0x00u8, 0x00u8, 0x00u8, 0x00u8], 16),
        final(ser).replies().len() >= old(ser).replies().len(),
        final(ser).replies().subrange(0, old(ser).replies().len() as int) == old(ser).replies(),
        final(ser).history().len() == old(ser).history().len() + 1 || final(ser).history().len() == old(ser).history().len() + 2,
        final(ser).history().len() == old(ser).history().len() + 2 ==> {
            let o = final(ser).replies()[old(ser).replies().len() as int];
            &&& o is Some
            &&& crate::sfdp::spec_table_request(o->Some_0) matches Some((ptr, len))
                && final(ser).history().last() == crate::spi_bus::transfer(seq![0x5Au8, ((ptr / 0x1_0000) % 256) as u8,
                    ((ptr / 0x100) % 256) as u8, (ptr % 256) as u8, 0x00u8], len as nat)
        },
{
    let ghost r0 = ser.replies();
    let hdr = sfdp_read_bus(ser, 0, 16)?;
    let ghost r1 = ser.replies();
    assert(r1.subrange(0, r0.len() as int) =~= r0);
    match crate::sfdp::sfdp_table_request(hdr.as_slice()) {
        None => Ok(None),
        Some((ptr, len)) => {
            let tbl = sfdp_read_bus(ser, ptr, len);
            assert(ser.replies().subrange(0, r0.len() as int) =~= r0);
            assert(ser.replies()[r0.len() as int] == r1.last());
            let tbl = tbl?;
            Ok(crate::sfdp::parse_basic_flash_params(tbl.as_slice()))
        },
    }
}

/// The outcome of chip detection.
pub enum Detection {
    /// The probe matched a library entry under `jedec_id`.
    Listed { info: ChipInfo, jedec_id: String },
    /// Not in the library, but sized from its SFDP tables.
    Sfdp { info: ChipInfo, jedec_id: String },
    /// Nothing matched; the raw probes.
    Unknown { probes: Vec<[u8; 5]> },
}

/// The first three probe bytes as upper-case hex.
fn probe_id(p: &[u8; 5]) -> (s: String)
    ensures
        s@ == hex2(p@[0]) + hex2(p@[1]) + hex2(p@[2]),
{
    let mut s = String::new();
    push_hex2(&mut s, p[0]);
    push_hex2(&mut s, p[1]);
    push_hex2(&mut s, p[2]);
    s
}

/// Read a 3-byte id over serprog into a 5-byte probe (unread bytes `0xFF`).
fn bus_probe<S: SpiBus>(ser: &mut S, cmd: &[u8]) -> (r: Result<[u8; 5], String>)
    ensures
        final(ser).history() == old(ser).history().push(crate::spi_bus::transfer(cmd@, 3)),
        final(ser).replies().len() == old(ser).replies().len() + 1,
        final(ser).replies().drop_last() == old(ser).replies(),
        r is Ok <==> id_answered(final(ser).replies().last()),
        r matches Ok(p) ==> p@ == probe_of(final(ser).replies().last()),
{
    let got = ser.transact(cmd, 3);
    assert(ser.replies().drop_last() =~= old(ser).replies());
    let v = match got {
        Ok(v) => v,
        Err(e) => {
            return Err(e);
        },
    };
    if v.len() < 3 {
        return Err("读取 ID 长度不足".to_string());
    }
    let p = [v[0], v[1], v[2], 0xFF, 0xFF];
    assert(p@ =~= probe_of(ser.replies().last()));
    Ok(p)
}

/// An id read that gave at least three bytes.
pub open spec fn id_answered(o: Option<Seq<u8>>) -> bool {
    o matches Some(d) && d.len() >= 3
}

/// The 5-byte probe of an id read: its first three bytes, then `FF FF`.
pub open spec fn probe_of(o: Option<Seq<u8>>) -> Seq<u8> {
    o->Some_0.take(3) + seq![0xFFu8, 0xFFu8]
}

/// The probes of the two serprog id reads after the first `n` replies.
pub open spec fn serprog_probes(rs: Seq<Option<Seq<u8>>>, n: int) -> Seq<Seq<u8>> {
    seq![probe_of(rs[n]), probe_of(rs[n + 1])]
}

/// `id` names an entry of the library.
pub open spec fn listed_id(lib: Chiplib, id: Seq<char>) -> bool {
    exists|k: int| 0 <= k < lib.entries_view().len()
        && id_key(#[trigger] lib.entries_view()[k].id@) == id_key(id_field(vstd::utf8::encode_utf8(id)))
}

/// The candidate ids of the probes, probe after probe.
pub open spec fn probe_candidates(probes: Seq<Seq<u8>>) -> Seq<Seq<char>>
    decreases probes.len(),
{
    if probes.len() == 0 {
        Seq::empty()
    } else {
        probe_candidates(probes.drop_last()) + spec_candidates(probes.last())
    }
}

/// The bytes of each probe.
pub open spec fn probe_views(probes: Seq<[u8; 5]>) -> Seq<Seq<u8>> {
    Seq::new(probes.len(), |i: int| probes[i]@)
}

/// `k` is the first candidate that the library lists.
pub open spec fn first_listed(lib: Chiplib, cands: Seq<Seq<char>>, k: int) -> bool {
    &&& 0 <= k < cands.len()
    &&& listed_id(lib, cands[k])
    &&& forall|j: int| 0 <= j < k ==> !listed_id(lib, #[trigger] cands[j])
}

/// Match the probes against the library: the first candidate id (probe by
/// probe, in [`spec_candidates`] order) that names an entry, with that entry.
pub fn match_probes(lib: &Chiplib, probes: &Vec<[u8; 5]>) -> (r: Option<(ChipInfo, String)>)
    requires
        lib.wf(),
    ensures
        match r {
            Some((info, id)) => exists|k: int| #[trigger] first_listed(*lib, probe_candidates(probe_views(probes@)), k)
                && probe_candidates(probe_views(probes@))[k] == id@
                && exists|e: int| 0 <= e < lib.entries_view().len()
                    && id_key(#[trigger] lib.entries_view()[e].id@) == id_key(id_field(vstd::utf8::encode_utf8(id@)))
                    && info_matches(info, lib.attrs_at(e), id@),
            None => forall|k: int| 0 <= k < probe_candidates(probe_views(probes@)).len() ==> !listed_id(*lib, #[trigger] probe_candidates(probe_views(probes@))[k]),
        },
{
    let mut p: usize = 0;
    proof {
        assert(probe_views(probes@).take(0) =~= Seq::<Seq<u8>>::empty());
    }
    while p < probes.len()
        invariant
            lib.wf(),
            p <= probes@.len(),
            forall|k: int| 0 <= k < probe_candidates(probe_views(probes@).take(p as int)).len()
                ==> !listed_id(*lib, #[trigger] probe_candidates(probe_views(probes@).take(p as int))[k]),
        decreases probes@.len() - p,
    {
        let cands = jedec_id_candidates(&probes[p]);
        let ghost done = probe_candidates(probe_views(probes@).take(p as int));
        let ghost these = spec_candidates(probes@[p as int]@);
        proof {
            assert(probe_views(probes@).take(p + 1).drop_last() =~= probe_views(probes@).take(p as int));
            assert(probe_candidates(probe_views(probes@).take(p + 1)) == done + these);
        }
        let mut c: usize = 0;
        while c < cands.len()
            invariant
                lib.wf(),
                p < probes@.len(),
                done == probe_candidates(probe_views(probes@).take(p as int)),
                probe_candidates(probe_views(probes@).take(p + 1)) == done + these,
                strings_view(cands@) == these,
                forall|k: int| 0 <= k < done.len() + c ==> !listed_id(*lib, #[trigger] (done + these)[k]),
            decreases cands@.len() - c,
        {
            assert(cands@[c as int]@ == these[c as int]);
            match lib.find_by_id(cands[c].as_str()) {
                Some(info) => {
                    proof {
                        let k = done.len() + c;
                        assert((done + these)[k] == these[c as int]);
                        assert(listed_id(*lib, (done + these)[k]));
                        lemma_candidates_prefix(probe_views(probes@), p + 1);
                        assert(probe_candidates(probe_views(probes@))[k] == (done + these)[k]);
                        assert forall|j: int| 0 <= j < k implies !listed_id(*lib, #[trigger] probe_candidates(probe_views(probes@))[j]) by {
                            assert(probe_candidates(probe_views(probes@))[j] == (done + these)[j]);
                        }
                        assert(first_listed(*lib, probe_candidates(probe_views(probes@)), k));
                    }
                    return Some((info, cands[c].clone()));
                },
                None => {
                    proof {
                        let k = done.len() + c;
                        assert((done + these)[k] == these[c as int]);
                    }
                },
            }
            c = c + 1;
        }
        p = p + 1;
    }
    proof {
        assert(probe_views(probes@).take(probes@.len() as int) =~= probe_views(probes@));
    }
    None
}

/// The candidates of a prefix of the probes are a prefix of their candidates.
proof fn lemma_candidates_prefix(probes: Seq<Seq<u8>>, n: int)
    requires
        0 <= n <= probes.len(),
    ensures
        probe_candidates(probes.take(n)).len() <= probe_candidates(probes).len(),
        forall|j: int| 0 <= j < probe_candidates(probes.take(n)).len()
            ==> #[trigger] probe_candidates(probes)[j] == probe_candidates(probes.take(n))[j],
    decreases probes.len(),
{
    if n == probes.len() {
        assert(probes.take(n) =~= probes);
    } else {
        let q = probes.drop_last();
        assert(q.take(n) =~= probes.take(n));
        lemma_candidates_prefix(q, n);
    }
}

/// Detect the chip: JEDEC probes (plain and with an address byte) matched
/// against the library through [`jedec_id_candidates`], then an SFDP
/// fallback for plausible but unlisted SPI NOR ids. The detected chip is
/// kept in the state (cleared when nothing matches).
pub fn detect_chip<S: SpiBus + Clock, O: Ch34xOpener>(state: &mut AppState<S>, port: &mut Ch34xPort<O>) -> (r: Result<Detection, String>)
    requires
        old(state).lib matches Some(l) ==> l.wf(),
    ensures
        old(state).ch34x is None && old(state).serprog is None ==> r is Err,
        old(state).ch34x is None ==> final(port).opens() == old(port).opens(),
        r matches Ok(Detection::Unknown { .. }) ==> final(state).detected is None,
        r matches Ok(Detection::Listed { info, .. }) ==> final(state).detected matches Some(d) && d.id@ == info.id@ && d.model@ == info.model@,
        r matches Ok(Detection::Sfdp { info, jedec_id }) ==> final(state).detected matches Some(d) && d.id@ == info.id@
            && jedec_id@ != "FFFFFF"@ && jedec_id@ != "000000"@,
        old(state).ch34x is None && old(state).serprog is Some ==> {
            let n = old(state).serprog->0.replies().len() as int;
            let rs = final(state).serprog->0.replies();
            let cands = probe_candidates(serprog_probes(rs, n));
            &&& final(state).serprog is Some
            &&& rs.len() >= n + 1 && rs.subrange(0, n) == old(state).serprog->0.replies()
            &&& r is Ok ==> rs.len() >= n + 2 && id_answered(rs[n]) && id_answered(rs[n + 1]) && old(state).lib is Some
            &&& r matches Ok(Detection::Listed { jedec_id, .. }) ==> exists|k: int|
                #[trigger] first_listed(old(state).lib->0, cands, k) && cands[k] == jedec_id@
            &&& (r matches Ok(Detection::Sfdp { .. }) || r matches Ok(Detection::Unknown { .. }))
                ==> forall|k: int| 0 <= k < cands.len() ==> !listed_id(old(state).lib->0, #[trigger] cands[k])
            &&& old(state).lib is Some && rs.len() >= n + 2 && id_answered(rs[n]) && id_answered(rs[n + 1])
                && (exists|k: int| 0 <= k < cands.len() && listed_id(old(state).lib->0, #[trigger] cands[k]))
                ==> r matches Ok(Detection::Listed { .. })
        },
{
    let mut probes: Vec<[u8; 5]> = Vec::new();
    let ghost n = if old(state).serprog is Some { old(state).serprog->0.replies().len() as int } else { 0 };
    if state.ch34x.is_some() {
        let dev = open_ch34x(state, port)?;
        probes.push(spi_read_jedec(&dev)?);
        probes.push(spi_read_jedec_with_addr(&dev)?);
    } else {
        match &mut state.serprog {
            Some(ser) => {
                let ghost r0 = ser.replies();
                let a = bus_probe(ser, &[0x9F]);
                proof {
                    assert(ser.replies().subrange(0, n) =~= r0);
                }
                let a = a?;
                probes.push(a);
                let ghost r1 = ser.replies();
                let b = bus_probe(ser, &[0x9F, 0x00]);
                proof {
                    assert(ser.replies().subrange(0, n) =~= r0);
                    assert(ser.replies()[n] == r1[n]);
                }
                let b = b?;
                probes.push(b);
                proof {
                    assert(probe_views(probes@) =~= serprog_probes(ser.replies(), n));
                }
            },
            None => {
                return Err("没有可用的编程器，请先初始化或连接 serprog".to_string());
            },
        }
    }
    let found: Option<(ChipInfo, String)> = match &state.lib {
        None => {
            return Err("芯片库未加载".to_string());
        },
        Some(lib) => match_probes(lib, &probes),
    };
    match found {
        Some((info, jedec_id)) => {
            let kept = info.duplicate();
            state.detected = Some(kept);
            Ok(Detection::Listed { info, jedec_id })
        },
        None => {
            let jedec_id = probe_id(&probes[0]);
            let plausible = !str_eq(jedec_id.as_str(), "FFFFFF") && !str_eq(jedec_id.as_str(), "000000");
            let params: Option<SfdpBasicFlashParams> = if !plausible {
                None
            } else if state.ch34x.is_some() {
                let dev = open_ch34x(state, port)?;
                crate::sfdp::discover_sfdp(|addr: u32, len: usize| sfdp_read_ch34x(&dev, addr, len))?
            } else {
                match &mut state.serprog {
                    Some(ser) => {
                        let ghost rp = ser.replies();
                        let d = discover_sfdp_bus(ser);
                        proof {
                            let rf = ser.replies();
                            assert(rf.subrange(0, n) =~= rp.subrange(0, n));
                            assert(rf[n] == rf.subrange(0, rp.len() as int)[n]);
                            assert(rf[n + 1] == rf.subrange(0, rp.len() as int)[n + 1]);
                            assert(serprog_probes(rf, n) =~= serprog_probes(rp, n));
                        }
                        d?
                    },
                    None => None,
                }
            };
            match params {
                Some(p) => {
                    let info = synthesize_sfdp_chip(jedec_id.as_str(), &p);
                    let kept = info.duplicate();
                    state.detected = Some(kept);
                    Ok(Detection::Sfdp { info, jedec_id })
                },
                None => {
                    state.detected = None;
                    Ok(Detection::Unknown { probes })
                },
            }
        },
    }
}

} // verus!
