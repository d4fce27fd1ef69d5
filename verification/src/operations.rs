//! Full-chip operations (erase, blank check, read, write, verify) over
//! whichever programmer is selected: a sidecar adapter, a CH34X device
//! (SPI NOR and the other protocol families), or a serprog bus. Progress is
//! reported through the hooks of [`crate::progress`] and [`EraseSink`].
use vstd::prelude::*;
use crate::ch34x::{DeviceMode, ProgrammerHal};
use crate::chipdb::{keys_unique, pairs_view, ChipInfo};
use crate::devcore::{
    nor_params, open_ch34x, open_ch34x_mode, serprog_wait_ready, spi_4byte_mode, spi_read_status,
    spi_unprotect, spi_wait_ready, spi_write_disable, spi_write_enable, AppState, Ch34xOpener, Ch34xPort,
    NorParams, NOR_BP_MASK_SR1,
};
use crate::hal_router::{has_pair, AdapterClient, HalRouter, SidecarSelection};
use crate::progress::{BlockProgress, ByteProgress, Clock, NoProgress};
use crate::protocols::{
    append, slice_vec, vec_filled, bus_mode_for_protocol, nand_erase, nand_prepare_bypass_lut, nand_read, nand_scan_bad_blocks,
    nand_write, spec_bus_mode, ChipParams, NandBadBlockMode,
};
use crate::spi_bus::{reply_of, transfer, Ch34xSpiBus, SpiBus, SpiTransfer};
use crate::nor_ops::first_difference;
use crate::text::{msg_usize2, msg_hex2, msg_at, msg_fraction, msg_len_at, msg_mismatch, msg_usize, msg_wait, str_eq};

verus! {

// ─────────────────────────────── reports ────────────────────────────────

/// One erase progress report.
pub struct EraseProgress {
    pub done: u64,
    pub total: u64,
    /// `prepare`, `bad_block`, `erase` or `done`.
    pub phase: String,
    pub message: String,
    /// Time spent waiting for the chip, when the report comes from a wait.
    pub elapsed_ms: Option<u64>,
}

/// Receives erase progress reports.
pub trait EraseSink {
    /// The reports received so far.
    spec fn erase_reports(&self) -> Seq<EraseProgress>;

    fn report(&mut self, progress: EraseProgress)
        ensures
            final(self).erase_reports() == old(self).erase_reports().push(progress),
    ;
}

/// The outcome of a blank check.
pub struct BlankCheckResult {
    /// No byte other than `0xFF` was found.
    pub blank: bool,
    /// Bytes checked before the first non-blank byte (all of them when blank).
    pub checked: u64,
    /// Absolute address of the first byte that is not `0xFF`.
    pub first_non_blank: Option<u64>,
}

/// The consistency every blank-check result keeps: `blank` exactly when no
/// non-blank byte was found, and a found byte lies `checked` bytes after
/// the start address.
pub open spec fn blank_result_ok(b: BlankCheckResult, start_addr: u64) -> bool {
    &&& b.blank == (b.first_non_blank is None)
    &&& (b.first_non_blank matches Some(pos) ==> pos == start_addr + b.checked)
}

/// One erase report `(done, total, phase, message)` without elapsed time.
pub open spec fn erase_step(p: EraseProgress, done: u64, total: u64, phase: Seq<char>, message: Seq<char>) -> bool {
    p.done == done && p.total == total && p.phase@ == phase && p.message@ == message && p.elapsed_ms is None
}

fn report_step<E: EraseSink>(sink: &mut E, done: u64, total: u64, phase: &str, message: &str)
    ensures
        final(sink).erase_reports().len() == old(sink).erase_reports().len() + 1,
        final(sink).erase_reports().drop_last() == old(sink).erase_reports(),
        erase_step(final(sink).erase_reports().last(), done, total, phase@, message@),
{
    sink.report(EraseProgress {
        done,
        total,
        phase: String::from_str(phase),
        message: String::from_str(message),
        elapsed_ms: None,
    });
}

fn report_done<E: EraseSink>(sink: &mut E)
    ensures
        final(sink).erase_reports().len() == old(sink).erase_reports().len() + 1,
        final(sink).erase_reports().drop_last() == old(sink).erase_reports(),
        erase_step(final(sink).erase_reports().last(), 1, 1, "done"@, "全片擦除完成"@),
{
    report_step(sink, 1, 1, "done", "全片擦除完成");
}

// ─────────────────────────────── selection ──────────────────────────────

/// Whether the state selects a sidecar adapter device.
pub open spec fn has_selection<S: SpiBus + Clock>(state: AppState<S>) -> bool {
    state.sidecar_adapter is Some && state.sidecar_device is Some
}

/// The sidecar adapter device selected in the state, if both parts are set.
pub fn sidecar_selection<S: SpiBus + Clock>(state: &AppState<S>) -> (r: Option<SidecarSelection>)
    ensures
        r is Some <==> has_selection(*state),
        r matches Some(sel) ==> sel.adapter@ == state.sidecar_adapter->0@ && sel.device_id@ == state.sidecar_device->0@,
{
    match (&state.sidecar_adapter, &state.sidecar_device) {
        (Some(adapter), Some(device_id)) => Some(SidecarSelection {
            adapter: adapter.clone(),
            device_id: device_id.clone(),
        }),
        _ => None,
    }
}

// ─────────────────────────────── helpers ────────────────────────────────

/// The absolute address (`base` plus index) of the first byte of `data`
/// that is not `0xFF`.
pub fn first_non_blank_byte(data: &[u8], base: u64) -> (r: Option<u64>)
    requires
        base + data@.len() <= u64::MAX,
    ensures
        match r {
            Some(a) => {
                &&& base <= a < base + data@.len()
                &&& data@[a - base] != 0xFF
                &&& forall|j: int| 0 <= j < a - base ==> data@[j] == 0xFF
            },
            None => forall|j: int| 0 <= j < data@.len() ==> data@[j] == 0xFF,
        },
{
    let mut i: usize = 0;
    while i < data.len()
        invariant
            i <= data@.len(),
            base + data@.len() <= u64::MAX,
            forall|j: int| 0 <= j < i ==> data@[j] == 0xFF,
        decreases data@.len() - i,
    {
        if data[i] != 0xFF {
            return Some(base + i as u64);
        }
        i = i + 1;
    }
    None
}

/// The SPI NOR command header `cmd` + 3 or 4 address bytes, most
/// significant first.
pub open spec fn spec_nor_header(cmd: u8, addr: u64, four_byte: bool) -> Seq<u8> {
    let tail = seq![((addr >> 16) & 0xFF) as u8, ((addr >> 8) & 0xFF) as u8, (addr & 0xFF) as u8];
    if four_byte {
        seq![cmd, ((addr >> 24) & 0xFF) as u8] + tail
    } else {
        seq![cmd] + tail
    }
}

/// Build the SPI NOR command header of `cmd` at `addr`.
pub fn nor_header(cmd: u8, addr: u64, four_byte: bool) -> (r: Vec<u8>)
    ensures
        r@ == spec_nor_header(cmd, addr, four_byte),
{
    let mut h: Vec<u8> = Vec::new();
    h.push(cmd);
    if four_byte {
        h.push(((addr >> 24) & 0xFF) as u8);
    }
    h.push(((addr >> 16) & 0xFF) as u8);
    h.push(((addr >> 8) & 0xFF) as u8);
    h.push((addr & 0xFF) as u8);
    h
}

/// Compare `actual` with `expected[offset..]`; the error names the absolute
/// address (`addr` plus index) of the first differing byte.
pub fn compare_at(expected: &[u8], offset: usize, actual: &[u8], addr: u64) -> (r: Result<(), String>)
    requires
        offset + actual@.len() <= expected@.len(),
        addr + actual@.len() <= u64::MAX,
    ensures
        r is Ok <==> forall|i: int| 0 <= i < actual@.len() ==> actual@[i] == expected@[offset + i],
        r matches Err(e) ==> exists|i: int| 0 <= i < actual@.len() && actual@[i] != expected@[offset + i]
            && (forall|j: int| 0 <= j < i ==> actual@[j] == expected@[offset + j])
            && e@ == crate::text::mismatch_text((addr + i) as u64, expected@[offset + i], actual@[i]),
{
    let n = expected.len();
    let mut i: usize = 0;
    while i < actual.len()
        invariant
            i <= actual@.len(),
            n == expected@.len(),
            offset + actual@.len() <= expected@.len(),
            addr + actual@.len() <= u64::MAX,
            forall|j: int| 0 <= j < i ==> actual@[j] == expected@[offset + j],
        decreases actual@.len() - i,
    {
        assert(offset + i < expected@.len());
        if actual[i] != expected[offset + i] {
            return Err(msg_mismatch(addr + i as u64, expected[offset + i], actual[i]));
        }
        i = i + 1;
    }
    Ok(())
}

/// `round(ms / 1000)`, ties to even (how a `{:.0}` of the seconds prints).
pub fn rounded_seconds(ms: u64) -> (r: u64)
    ensures
        r == (if ms % 1000 > 500 || (ms % 1000 == 500 && (ms / 1000) % 2 == 1) { ms / 1000 + 1 } else { (ms / 1000) as int }),
{
    let q = ms / 1000;
    let m = ms % 1000;
    if m > 500 || (m == 500 && q % 2 == 1) {
        q + 1
    } else {
        q
    }
}

/// Poll SR1 until WIP, WEL and EPE are clear, reporting the elapsed time
/// every 250 ms so a long full-chip erase never looks frozen.
fn wait_ready_reporting<H: ProgrammerHal + ?Sized, E: EraseSink>(
    dev: &H,
    timeout_ms: u64,
    phase: &str,
    message_prefix: &str,
    sink: &mut E,
) -> Result<(), String> {
    let start = dev.now_ms();
    let mut last_report = start;
    let max_polls: u64 = timeout_ms / 5 + 2;
    let mut polls: u64 = 0;
    while polls < max_polls
        decreases max_polls - polls,
    {
        let status = spi_read_status(dev)?;
        if (status & 0x23) == 0 {
            return Ok(());
        }
        let now = dev.now_ms();
        let elapsed = if now >= start { now - start } else { 0 };
        if elapsed > timeout_ms {
            return Err("等待闪存就绪超时".to_string());
        }
        let since = if now >= last_report { now - last_report } else { 0 };
        if since >= 250 {
            sink.report(EraseProgress {
                done: 0,
                total: 0,
                phase: String::from_str(phase),
                message: msg_wait(message_prefix, rounded_seconds(timeout_ms)),
                elapsed_ms: Some(elapsed),
            });
            last_report = dev.now_ms();
        }
        dev.delay_ms(5);
        polls = polls + 1;
    }
    Err("等待闪存就绪超时".to_string())
}

// ─────────────────────────── sidecar operations ───────────────────────────

/// The transfers of routed requests.
pub open spec fn sent_to(log: Seq<(Seq<char>, Seq<char>, SpiTransfer)>) -> Seq<SpiTransfer> {
    Seq::new(log.len(), |i: int| log[i].2)
}

/// Every request of `log` went to device `d` of adapter `a`.
pub open spec fn addressed(log: Seq<(Seq<char>, Seq<char>, SpiTransfer)>, a: Seq<char>, d: Seq<char>) -> bool {
    forall|i: int| 0 <= i < log.len() ==> (#[trigger] log[i]).0 == a && log[i].1 == d
}

/// The requests and replies a router gained between two states, sent to
/// the selected device only.
pub open spec fn routed_run<C: AdapterClient>(a: HalRouter<C>, b: HalRouter<C>, sel: SidecarSelection) -> bool {
    &&& extends(a.requests(), b.requests())
    &&& extends(a.answers(), b.answers())
    &&& gained(a.requests(), b.requests()).len() == gained(a.answers(), b.answers()).len()
    &&& addressed(gained(a.requests(), b.requests()), sel.adapter@, sel.device_id@)
}

/// The transfers a router sent between two states.
pub open spec fn routed_sent<C: AdapterClient>(a: HalRouter<C>, b: HalRouter<C>) -> Seq<SpiTransfer> {
    sent_to(gained(a.requests(), b.requests()))
}

/// The replies a router got between two states.
pub open spec fn routed_heard<C: AdapterClient>(a: HalRouter<C>, b: HalRouter<C>) -> Seq<Option<Seq<u8>>> {
    gained(a.answers(), b.answers())
}

proof fn lemma_routed_start<C: AdapterClient>(r: HalRouter<C>, sel: SidecarSelection)
    ensures
        routed_run(r, r, sel),
        routed_sent(r, r) == Seq::<SpiTransfer>::empty(),
        routed_heard(r, r) == Seq::<Option<Seq<u8>>>::empty(),
        sent_to(r.requests()).subrange(0, sent_to(r.requests()).len() as int) == sent_to(r.requests()),
        r.answers().subrange(0, r.answers().len() as int) == r.answers(),
{
    assert(r.requests().subrange(0, r.requests().len() as int) =~= r.requests());
    assert(r.answers().subrange(0, r.answers().len() as int) =~= r.answers());
    assert(gained(r.requests(), r.requests()) =~= Seq::<(Seq<char>, Seq<char>, SpiTransfer)>::empty());
    assert(gained(r.answers(), r.answers()) =~= Seq::<Option<Seq<u8>>>::empty());
    assert(routed_sent(r, r) =~= Seq::<SpiTransfer>::empty());
    assert(sent_to(r.requests()).subrange(0, sent_to(r.requests()).len() as int) =~= sent_to(r.requests()));
}

proof fn lemma_routed_push<C: AdapterClient>(r0: HalRouter<C>, r1: HalRouter<C>, r2: HalRouter<C>, sel: SidecarSelection,
    t: SpiTransfer, o: Option<Seq<u8>>)
    requires
        routed_run(r0, r1, sel),
        r2.requests() == r1.requests().push((sel.adapter@, sel.device_id@, t)),
        r2.answers() == r1.answers().push(o),
    ensures
        routed_run(r0, r2, sel),
        routed_sent(r0, r2) == routed_sent(r0, r1).push(t),
        routed_heard(r0, r2) == routed_heard(r0, r1).push(o),
        sent_to(r2.requests()) == sent_to(r1.requests()).push(t),
{
    let l0 = r0.requests();
    let l1 = r1.requests();
    let l2 = r2.requests();
    assert(l2.subrange(0, l0.len() as int) =~= l1.subrange(0, l0.len() as int));
    assert(r2.answers().subrange(0, r0.answers().len() as int) =~= r1.answers().subrange(0, r0.answers().len() as int));
    assert(gained(l0, l2) =~= gained(l0, l1).push((sel.adapter@, sel.device_id@, t)));
    assert(gained(r0.answers(), r2.answers()) =~= gained(r0.answers(), r1.answers()).push(o));
    assert(routed_sent(r0, r2) =~= routed_sent(r0, r1).push(t));
    assert(sent_to(l2) =~= sent_to(l1).push(t));
}

/// One request to the selected device, in a session of its own.
fn routed<C: AdapterClient>(router: &mut HalRouter<C>, sel: &SidecarSelection, write: &[u8], read_len: usize) -> (r: Result<Vec<u8>, String>)
    ensures
        final(router).requests() == old(router).requests().push((sel.adapter@, sel.device_id@, transfer(write@, read_len as nat))),
        final(router).answers() == old(router).answers().push(reply_of(r)),
        !has_pair(final(router).session_list(), sel.adapter@, sel.device_id@),
{
    router.request(sel.adapter.as_str(), sel.device_id.as_str(), write, read_len)
}

/// Close the selected device's session if one is open.
fn routed_release<C: AdapterClient>(router: &mut HalRouter<C>, sel: &SidecarSelection)
    ensures
        final(router).requests() == old(router).requests(),
        final(router).answers() == old(router).answers(),
        !has_pair(final(router).session_list(), sel.adapter@, sel.device_id@),
{
    if router.has_session(sel.adapter.as_str(), sel.device_id.as_str()) {
        let _ = router.close(sel.adapter.as_str(), sel.device_id.as_str());
    }
}

/// A failed reply leaves the replies not all answered.
proof fn lemma_not_all_some(rs: Seq<Option<Seq<u8>>>, o: Option<Seq<u8>>)
    requires
        o is None,
    ensures
        !all_some(rs.push(o)),
{
    assert(rs.push(o)[rs.len() as int] == o);
}

/// Answered replies stay all answered.
proof fn lemma_all_some_push(rs: Seq<Option<Seq<u8>>>, o: Option<Seq<u8>>)
    requires
        all_some(rs),
        o is Some,
    ensures
        all_some(rs.push(o)),
{
    assert forall|i: int| 0 <= i < rs.push(o).len() implies (#[trigger] rs.push(o)[i]) is Some by {
        if i < rs.len() {
            assert(rs.push(o)[i] == rs[i]);
        }
    }
}

/// With nothing to send, only check that the selected device opens (and
/// close its session again).
fn routed_touch<C: AdapterClient>(router: &mut HalRouter<C>, sel: &SidecarSelection) -> (r: Result<(), String>)
    ensures
        final(router).requests() == old(router).requests(),
        final(router).answers() == old(router).answers(),
        !has_pair(final(router).session_list(), sel.adapter@, sel.device_id@),
{
    router.touch(sel.adapter.as_str(), sel.device_id.as_str())
}

/// The 256-byte page of `data` at `off`, padded with `0xFF` past its end.
pub open spec fn padded_page_of(data: Seq<u8>, off: int) -> Seq<u8> {
    Seq::new(256, |i: int| if off + i < data.len() { data[off + i] } else { 0xFFu8 })
}

/// The transfers of a sidecar write of `data` at `start`: for page `k`,
/// WREN then `02h` at `start + 256k` with the padded page.
pub open spec fn page_plan(data: Seq<u8>, start: u64) -> Seq<SpiTransfer> {
    Seq::new((2 * ((data.len() + 255) / 256)) as nat, |i: int|
        if i % 2 == 0 {
            transfer(seq![0x06u8], 0)
        } else {
            transfer(spec_nor_header(0x02, (start + 256 * (i / 2)) as u64, false) + padded_page_of(data, 256 * (i / 2)), 0)
        })
}

/// All the replies came back.
pub open spec fn all_some(rs: Seq<Option<Seq<u8>>>) -> bool {
    forall|i: int| 0 <= i < rs.len() ==> (#[trigger] rs[i]) is Some
}

/// Erase the whole chip through the selected sidecar adapter device: WREN,
/// then `C7h`, each in a session of its own, so no session stays open.
pub fn sidecar_erase_chip<C: AdapterClient>(router: &mut HalRouter<C>, selection: &SidecarSelection) -> (r: Result<String, String>)
    ensures
        r matches Ok(m) ==> m@ == "全片擦除完成（sidecar）"@,
        routed_run(*old(router), *final(router), *selection),
        routed_sent(*old(router), *final(router)).len() >= 1,
        routed_sent(*old(router), *final(router))[0] == transfer(seq![0x06u8], 0),
        routed_sent(*old(router), *final(router)).len() <= 2,
        routed_sent(*old(router), *final(router)).len() == 2 ==> routed_sent(*old(router), *final(router))[1] == transfer(seq![0xC7u8], 0),
        r is Ok <==> routed_sent(*old(router), *final(router)).len() == 2 && all_some(routed_heard(*old(router), *final(router))),
        !has_pair(final(router).session_list(), selection.adapter@, selection.device_id@),
{
    proof { lemma_routed_start(*router, *selection); }
    let wren = [0x06u8];
    assert(wren@ =~= seq![0x06u8]);
    let ghost r1 = *router;
    let w = routed(router, selection, &wren, 0);
    proof {
        lemma_routed_push(*old(router), r1, *router, *selection, transfer(wren@, 0), reply_of(w));
        assert(routed_heard(*old(router), r1) =~= Seq::<Option<Seq<u8>>>::empty());
        if w is Err {
            lemma_not_all_some(routed_heard(*old(router), r1), reply_of(w));
        } else {
            lemma_all_some_push(routed_heard(*old(router), r1), reply_of(w));
        }
    }
    match w {
        Ok(_) => {},
        Err(e) => {
            return Err(e);
        },
    }
    let ce = [0xC7u8];
    assert(ce@ =~= seq![0xC7u8]);
    let ghost r2 = *router;
    let c = routed(router, selection, &ce, 0);
    proof {
        lemma_routed_push(*old(router), r2, *router, *selection, transfer(ce@, 0), reply_of(c));
        if c is Err {
            lemma_not_all_some(routed_heard(*old(router), r2), reply_of(c));
        } else {
            lemma_all_some_push(routed_heard(*old(router), r2), reply_of(c));
        }
    }
    match c {
        Ok(_) => Ok(String::from_str("全片擦除完成（sidecar）")),
        Err(e) => Err(e),
    }
}

/// Read `total` bytes at `start` from the selected sidecar device in 4 KiB
/// reads (`03h`, 3-byte addresses); an address past 16 MiB is refused.
fn sidecar_read_range<C: AdapterClient, P: ByteProgress>(
    router: &mut HalRouter<C>,
    sel: &SidecarSelection,
    start: u64,
    total: u64,
    progress: &mut P,
) -> (r: Result<Vec<u8>, String>)
    requires
        total <= usize::MAX,
        start + total <= u64::MAX,
    ensures
        routed_run(*old(router), *final(router), *sel),
        read_run(sent_to(old(router).requests()), sent_to(final(router).requests()), old(router).answers(), final(router).answers(),
            0x03u8, start, false),
        r matches Ok(out) ==> out@.len() == total,
        total > 0 && start + total <= 0x100_0000 ==> read_outcome(routed_sent(*old(router), *final(router)),
            routed_heard(*old(router), *final(router)), total as nat, r),
        !has_pair(final(router).session_list(), sel.adapter@, sel.device_id@),
{
    if total == 0 {
        proof { lemma_routed_start(*router, *sel); }
        routed_touch(router, sel)?;
        return Ok(Vec::new());
    }
    let mut out: Vec<u8> = Vec::new();
    let mut offset: u64 = 0;
    let ghost h0 = sent_to(router.requests());
    let ghost a0 = router.answers();
    proof { lemma_routed_start(*router, *sel); }
    let ghost rt0 = *router;
    let mut first = true;
    while offset < total
        invariant
            offset <= total,
            total <= usize::MAX,
            start + total <= u64::MAX,
            out@.len() == offset,
            rt0 == *old(router),
            h0 == sent_to(old(router).requests()),
            a0 == old(router).answers(),
            routed_run(rt0, *router, *sel),
            read_run(h0, sent_to(router.requests()), a0, router.answers(), 0x03u8, start, false),
            routed_sent(rt0, *router) == gained(h0, sent_to(router.requests())),
            routed_heard(rt0, *router) == gained(a0, router.answers()),
            all_answered(routed_sent(rt0, *router), routed_heard(rt0, *router)),
            asked(routed_sent(rt0, *router)) == offset,
            out@ == replied(routed_heard(rt0, *router)),
            first == (offset == 0),
            !first ==> !has_pair(router.session_list(), sel.adapter@, sel.device_id@),
            first ==> *router == rt0,
        decreases total - offset,
    {
        let chunk: u64 = if total - offset < 4096 { total - offset } else { 4096 };
        let addr = start + offset;
        if addr > 0xFF_FFFF {
            routed_release(router, sel);
            return Err(crate::text::msg_hex_usize("address ", addr as usize, " exceeds the 24-bit SPI NOR address range"));
        }
        let hdr = nor_header(0x03, addr, false);
        let ghost rb = *router;
        let ghost hb = sent_to(router.requests());
        let res = routed(router, sel, hdr.as_slice(), chunk as usize);
        proof {
            lemma_routed_push(rt0, rb, *router, *sel, transfer(hdr@, chunk as nat), reply_of(res));
            lemma_run_push(h0, hb, a0, rb.answers(), 0x03u8, start, false, transfer(hdr@, chunk as nat), reply_of(res));
            assert(gained(h0, sent_to(router.requests())) == routed_sent(rt0, *router));
            if !answered(reply_of(res), chunk as nat) {
                lemma_unanswered(routed_sent(rt0, rb), routed_heard(rt0, rb), transfer(hdr@, chunk as nat), reply_of(res));
            }
        }
        first = false;
        let data = match res {
            Ok(d) => d,
            Err(e) => {
                return Err(e);
            },
        };
        if data.len() != chunk as usize {
            return Err(msg_usize("SPI NOR READ returned ", data.len(), " bytes, expected a different length"));
        }
        proof {
            lemma_answered_push(routed_sent(rt0, rb), routed_heard(rt0, rb), transfer(hdr@, chunk as nat), data@);
        }
        append(&mut out, &data);
        offset = offset + chunk;
        progress.report(offset, total);
    }
    Ok(out)
}

/// Read `size` bytes from address 0 through the selected sidecar adapter
/// device, in 4 KiB reads, each in a session of its own.
pub fn sidecar_read_chip<C: AdapterClient, P: ByteProgress>(
    router: &mut HalRouter<C>,
    selection: &SidecarSelection,
    size: u64,
    progress: &mut P,
) -> (r: Result<Vec<u8>, String>)
    requires
        size <= usize::MAX,
    ensures
        r matches Ok(out) ==> out@.len() == size,
        routed_run(*old(router), *final(router), *selection),
        read_run(sent_to(old(router).requests()), sent_to(final(router).requests()), old(router).answers(), final(router).answers(),
            0x03u8, 0, false),
        size > 0 && size <= 0x100_0000 ==> read_outcome(routed_sent(*old(router), *final(router)),
            routed_heard(*old(router), *final(router)), size as nat, r),
        !has_pair(final(router).session_list(), selection.adapter@, selection.device_id@),
{
    sidecar_read_range(router, selection, 0, size, progress)
}

/// The 256-byte program page of `data[offset..offset + chunk]`, padded with
/// `0xFF` so the untouched tail of a final partial page keeps its content.
pub fn padded_page(data: &[u8], offset: usize, chunk: usize) -> (r: Vec<u8>)
    requires
        chunk <= 256,
        offset + chunk <= data@.len(),
    ensures
        r@.len() == 256,
        forall|k: int| 0 <= k < chunk ==> r@[k] == data@[offset + k],
        forall|k: int| chunk <= k < 256 ==> r@[k] == 0xFF,
        chunk == (if data@.len() - offset < 256 { data@.len() - offset } else { 256 }) ==> r@ == padded_page_of(data@, offset as int),
{
    let mut page = vec_filled(0xFF, 256);
    let n = data.len();
    let mut k: usize = 0;
    while k < chunk
        invariant
            k <= chunk,
            n == data@.len(),
            chunk <= 256,
            offset + chunk <= data@.len(),
            page@.len() == 256,
            forall|j: int| 0 <= j < k ==> page@[j] == data@[offset + j],
            forall|j: int| k <= j < 256 ==> page@[j] == 0xFF,
        decreases chunk - k,
    {
        page.set(k, data[offset + k]);
        k = k + 1;
    }
    assert(chunk == (if data@.len() - offset < 256 { data@.len() - offset } else { 256 }) ==> page@ =~= padded_page_of(data@, offset as int));
    page
}

/// A chip's contents `mem` after the page programs of a sidecar write of
/// `data` at `start`: each byte under a programmed page becomes the old byte
/// AND the page's byte (the `0xFF` padding leaves bytes as they were).
pub open spec fn plan_applied(mem: Seq<u8>, data: Seq<u8>, start: int) -> Seq<u8> {
    Seq::new(mem.len(), |i: int|
        if start <= i < start + 256 * ((data.len() + 255) / 256) {
            mem[i] & padded_page_of(data, 256 * ((i - start) / 256))[(i - start) % 256]
        } else {
            mem[i]
        })
}

/// The sidecar round trip: after a write of `data` at `start` that sent its
/// whole page plan into an erased range, a read of that range whose replies
/// are the contents of the chip that carried out the plan gives `data`.
pub proof fn law_sidecar_round_trip(data: Seq<u8>, start: u64, mem: Seq<u8>, sent: Seq<SpiTransfer>,
    rh: Seq<SpiTransfer>, rr: Seq<Option<Seq<u8>>>, rd: Result<Vec<u8>, String>)
    requires
        sent == page_plan(data, start),
        start + data.len() <= mem.len(),
        forall|j: int| start <= j < start + data.len() ==> mem[j] == 0xFF,
        read_outcome(rh, rr, data.len(), rd),
        answers_from(rh, rr, start as int, plan_applied(mem, data, start as int)),
    ensures
        rd is Ok,
        rd->Ok_0@ == data,
{
    let after = plan_applied(mem, data, start as int);
    law_read_gives_contents(rh, rr, start, data.len(), after, rd);
    assert forall|j: int| 0 <= j < data.len() implies after[start + j] == data[j] by {
        let i = start + j;
        let k = 256 * (j / 256);
        assert(j == 256 * (j / 256) + j % 256) by (nonlinear_arith)
            requires 0 <= j;
        assert(j / 256 <= (data.len() + 255) / 256 - 1) by (nonlinear_arith)
            requires 0 <= j < data.len();
        assert(256 * (j / 256) + 256 <= 256 * ((data.len() + 255) / 256)) by (nonlinear_arith)
            requires j / 256 <= (data.len() + 255) / 256 - 1;
        assert(padded_page_of(data, k)[j % 256] == data[j]);
        let d = data[j];
        assert(0xFFu8 & d == d) by (bit_vector);
    }
    assert(after.subrange(start as int, start + data.len()) =~= data);
}

/// Program `data` at `start_addr` through the selected sidecar adapter
/// device, one full (`0xFF`-padded) 256-byte page per WREN and `02h`, each
/// request in a session of its own.
pub fn sidecar_write_chip<C: AdapterClient, P: ByteProgress>(
    router: &mut HalRouter<C>,
    selection: &SidecarSelection,
    data: &[u8],
    start_addr: u64,
    progress: &mut P,
) -> (r: Result<String, String>)
    requires
        start_addr + data@.len() <= usize::MAX,
    ensures
        r matches Ok(m) ==> m@ == "写入完成（sidecar），共 "@ + crate::devcore::decimal(data@.len()) + " 字节"@,
        routed_run(*old(router), *final(router), *selection),
        routed_sent(*old(router), *final(router)).len() <= page_plan(data@, start_addr).len(),
        routed_sent(*old(router), *final(router)) == page_plan(data@, start_addr).take(routed_sent(*old(router), *final(router)).len() as int),
        data@.len() > 0 && start_addr + data@.len() <= 0x100_0000 ==> (r is Ok <==>
            routed_sent(*old(router), *final(router)) == page_plan(data@, start_addr) && all_some(routed_heard(*old(router), *final(router)))),
        !has_pair(final(router).session_list(), selection.adapter@, selection.device_id@),
{
    proof {
        lemma_routed_start(*router, *selection);
        assert(page_plan(data@, start_addr).take(0) =~= Seq::<SpiTransfer>::empty());
    }
    let total = data.len();
    if total == 0 {
        routed_touch(router, selection)?;
        return Ok(crate::text::msg_join3("写入完成（sidecar），共 ", crate::devcore::decimal_string(0).as_str(), " 字节"));
    }
    let ghost rt0 = *router;
    let ghost plan = page_plan(data@, start_addr);
    let mut offset: usize = 0;
    let mut first = true;
    while offset < total
        invariant
            offset <= total,
            total == data@.len(),
            total > 0,
            start_addr + data@.len() <= usize::MAX,
            rt0 == *old(router),
            plan == page_plan(data@, start_addr),
            offset % 256 == 0 || offset == total,
            routed_run(rt0, *router, *selection),
            routed_sent(rt0, *router) == plan.take(routed_sent(rt0, *router).len() as int),
            routed_sent(rt0, *router).len() == 2 * (offset / 256) + (if offset == total && offset % 256 != 0 { 2int } else { 0int }),
            all_some(routed_heard(rt0, *router)),
            first == (offset == 0),
            !first ==> !has_pair(router.session_list(), selection.adapter@, selection.device_id@),
            first ==> *router == rt0,
        decreases total - offset,
    {
        let chunk: usize = if total - offset < 256 { total - offset } else { 256 };
        let addr = start_addr + offset as u64;
        if addr > 0xFF_FFFF {
            routed_release(router, selection);
            return Err(crate::text::msg_hex_usize("address ", addr as usize, " exceeds the 24-bit SPI NOR address range"));
        }
        let ghost k = (offset / 256) as int;
        let wren = [0x06u8];
        assert(wren@ =~= seq![0x06u8]);
        let ghost ra = *router;
        let w = routed(router, selection, &wren, 0);
        proof {
            lemma_routed_push(rt0, ra, *router, *selection, transfer(wren@, 0), reply_of(w));
            let g = routed_sent(rt0, *router);
            assert(plan[g.len() - 1] == transfer(seq![0x06u8], 0));
            assert(g =~= plan.take(g.len() as int)) by {
                assert forall|i: int| 0 <= i < g.len() implies g[i] == plan[i] by {
                    if i < g.len() - 1 {
                        assert(g[i] == routed_sent(rt0, ra)[i]);
                    }
                }
            }
            if w is Err {
                lemma_not_all_some(routed_heard(rt0, ra), reply_of(w));
            } else {
                lemma_all_some_push(routed_heard(rt0, ra), reply_of(w));
            }
        }
        first = false;
        match w {
            Ok(_) => {},
            Err(e) => {
                return Err(e);
            },
        }
        let page = padded_page(data, offset, chunk);
        let frame = program_frame_at(addr, false, page.as_slice(), 0, 256);
        let ghost rb = *router;
        let p = routed(router, selection, frame.as_slice(), 0);
        proof {
            lemma_routed_push(rt0, rb, *router, *selection, transfer(frame@, 0), reply_of(p));
            if p is Err {
                lemma_not_all_some(routed_heard(rt0, rb), reply_of(p));
            } else {
                lemma_all_some_push(routed_heard(rt0, rb), reply_of(p));
            }
            assert(page@.subrange(0, 256) =~= padded_page_of(data@, offset as int));
            assert(frame@ == spec_nor_header(0x02, (start_addr + 256 * k) as u64, false) + padded_page_of(data@, 256 * k));
            let g = routed_sent(rt0, *router);
            assert(g =~= plan.take(g.len() as int)) by {
                assert forall|i: int| 0 <= i < g.len() implies g[i] == plan[i] by {
                    if i < g.len() - 2 {
                        assert(g[i] == routed_sent(rt0, ra)[i]);
                    }
                }
            }
        }
        match p {
            Ok(_) => {},
            Err(e) => {
                return Err(e);
            },
        }
        offset = offset + chunk;
        progress.report(offset as u64, total as u64);
    }
    proof {
        assert(routed_sent(rt0, *router) =~= page_plan(data@, start_addr));
    }
    Ok(crate::text::msg_join3("写入完成（sidecar），共 ", crate::devcore::decimal_string(total as u64).as_str(), " 字节"))
}

/// Read back `data.len()` bytes at `start_addr` through the selected
/// sidecar adapter device in 4 KiB reads and compare; the error names the
/// first differing address.
pub fn sidecar_verify_chip<C: AdapterClient, P: ByteProgress>(
    router: &mut HalRouter<C>,
    selection: &SidecarSelection,
    data: &[u8],
    start_addr: u64,
    progress: &mut P,
) -> (r: Result<String, String>)
    requires
        start_addr + data@.len() <= usize::MAX,
    ensures
        r matches Ok(m) ==> m@ == "校验通过（sidecar）"@,
        routed_run(*old(router), *final(router), *selection),
        read_run(sent_to(old(router).requests()), sent_to(final(router).requests()), old(router).answers(), final(router).answers(),
            0x03u8, start_addr, false),
        data@.len() > 0 && start_addr + data@.len() <= 0x100_0000 ==> verify_outcome(routed_sent(*old(router), *final(router)),
            routed_heard(*old(router), *final(router)), start_addr, data@, r),
        !has_pair(final(router).session_list(), selection.adapter@, selection.device_id@),
{
    proof { lemma_routed_start(*router, *selection); }
    let total = data.len() as u64;
    if total == 0 {
        routed_touch(router, selection)?;
        return Ok(String::from_str("校验通过（sidecar）"));
    }
    let ghost h0 = sent_to(router.requests());
    let ghost a0 = router.answers();
    let ghost rt0 = *router;
    let mut offset: u64 = 0;
    let mut first = true;
    proof { assert(data@.take(0) =~= Seq::<u8>::empty()); }
    while offset < total
        invariant
            offset <= total,
            total == data@.len(),
            total > 0,
            total <= usize::MAX,
            start_addr + data@.len() <= usize::MAX,
            rt0 == *old(router),
            h0 == sent_to(old(router).requests()),
            a0 == old(router).answers(),
            routed_run(rt0, *router, *selection),
            read_run(h0, sent_to(router.requests()), a0, router.answers(), 0x03u8, start_addr, false),
            routed_sent(rt0, *router) == gained(h0, sent_to(router.requests())),
            routed_heard(rt0, *router) == gained(a0, router.answers()),
            all_answered(routed_sent(rt0, *router), routed_heard(rt0, *router)),
            asked(routed_sent(rt0, *router)) == offset,
            replied(routed_heard(rt0, *router)) == data@.take(offset as int),
            first == (offset == 0),
            !first ==> !has_pair(router.session_list(), selection.adapter@, selection.device_id@),
            first ==> *router == rt0,
        decreases total - offset,
    {
        let chunk: u64 = if total - offset < 4096 { total - offset } else { 4096 };
        let addr = start_addr + offset;
        if addr > 0xFF_FFFF {
            routed_release(router, selection);
            return Err(crate::text::msg_hex_usize("address ", addr as usize, " exceeds the 24-bit SPI NOR address range"));
        }
        let hdr = nor_header(0x03, addr, false);
        let ghost rb = *router;
        let ghost hb = sent_to(router.requests());
        assert(chunk <= total);
        let res = routed(router, selection, hdr.as_slice(), chunk as usize);
        proof {
            lemma_routed_push(rt0, rb, *router, *selection, transfer(hdr@, chunk as nat), reply_of(res));
            lemma_run_push(h0, hb, a0, rb.answers(), 0x03u8, start_addr, false, transfer(hdr@, chunk as nat), reply_of(res));
            if !answered(reply_of(res), chunk as nat) {
                lemma_unanswered(routed_sent(rt0, rb), routed_heard(rt0, rb), transfer(hdr@, chunk as nat), reply_of(res));
            }
        }
        first = false;
        let buf = match res {
            Ok(d) => d,
            Err(e) => {
                return Err(e);
            },
        };
        if buf.len() != chunk as usize {
            return Err(msg_usize("SPI NOR READ returned ", buf.len(), " bytes, expected a different length"));
        }
        proof {
            lemma_answered_push(routed_sent(rt0, rb), routed_heard(rt0, rb), transfer(hdr@, chunk as nat), buf@);
        }
        let same = compare_at(data, offset as usize, buf.as_slice(), addr);
        proof {
            let got = replied(routed_heard(rt0, *router));
            assert(got == data@.take(offset as int) + buf@);
            if same is Err {
                let i = choose|i: int| 0 <= i < buf@.len() && buf@[i] != data@[offset + i]
                    && (forall|j: int| 0 <= j < i ==> buf@[j] == data@[offset + j])
                    && same->Err_0@ == crate::text::mismatch_text((addr + i) as u64, data@[offset + i], buf@[i]);
                lemma_chunk_differs(data@, buf@, got, offset as int, i);
            } else {
                lemma_chunk_same(data@, buf@, got, offset as int);
            }
        }
        match same {
            Ok(()) => {},
            Err(e) => {
                return Err(e);
            },
        }
        offset = offset + chunk;
        progress.report(offset, total);
    }
    assert(data@.take(total as int) =~= data@);
    Ok(String::from_str("校验通过（sidecar）"))
}

// ─────────────────────────── protocol families ───────────────────────────

/// The protocol families the chip operations drive.
#[derive(Clone, Copy, PartialEq, Eq, Debug, Structural)]
pub enum ProtocolFamily {
    SpiNor,
    SpiEeprom,
    DataFlash,
    SpiNand,
    I2c,
    Microwire,
    Unsupported,
}

/// The family of a chip-record protocol name.
pub open spec fn spec_family(p: Seq<char>) -> ProtocolFamily {
    if p == "SPI_NOR"@ {
        ProtocolFamily::SpiNor
    } else if p == "SPI_EEPROM"@ {
        ProtocolFamily::SpiEeprom
    } else if p == "SPI_DATA_45"@ {
        ProtocolFamily::DataFlash
    } else if p == "SPI_NAND"@ {
        ProtocolFamily::SpiNand
    } else if p == "I2C"@ || p == "I2C_F-RAM"@ || p == "I2C_SPD"@ {
        ProtocolFamily::I2c
    } else if p == "Microwire"@ {
        ProtocolFamily::Microwire
    } else {
        ProtocolFamily::Unsupported
    }
}

/// The family of a chip-record protocol name.
pub fn protocol_family(p: &str) -> (f: ProtocolFamily)
    ensures
        f == spec_family(p@),
{
    if str_eq(p, "SPI_NOR") {
        ProtocolFamily::SpiNor
    } else if str_eq(p, "SPI_EEPROM") {
        ProtocolFamily::SpiEeprom
    } else if str_eq(p, "SPI_DATA_45") {
        ProtocolFamily::DataFlash
    } else if str_eq(p, "SPI_NAND") {
        ProtocolFamily::SpiNand
    } else if str_eq(p, "I2C") || str_eq(p, "I2C_F-RAM") || str_eq(p, "I2C_SPD") {
        ProtocolFamily::I2c
    } else if str_eq(p, "Microwire") {
        ProtocolFamily::Microwire
    } else {
        ProtocolFamily::Unsupported
    }
}

/// The bad-block mode named by the front end: `bypass`, `ignore`, and
/// `skip` for anything else (or nothing).
pub open spec fn spec_bad_block_mode(mode: Option<&str>) -> NandBadBlockMode {
    match mode {
        Some(m) => if m@ == "bypass"@ {
            NandBadBlockMode::Bypass
        } else if m@ == "ignore"@ {
            NandBadBlockMode::Ignore
        } else {
            NandBadBlockMode::Skip
        },
        None => NandBadBlockMode::Skip,
    }
}

/// Parse the bad-block mode named by the front end.
pub fn parse_nand_bad_block_mode(mode: Option<&str>) -> (r: NandBadBlockMode)
    ensures
        r == spec_bad_block_mode(mode),
{
    match mode {
        Some(m) => if str_eq(m, "bypass") {
            NandBadBlockMode::Bypass
        } else if str_eq(m, "ignore") {
            NandBadBlockMode::Ignore
        } else {
            NandBadBlockMode::Skip
        },
        None => NandBadBlockMode::Skip,
    }
}

/// The bad blocks a NAND operation in `mode` works around: `Ignore` scans
/// nothing; `Skip` scans and skips what it found; `Bypass` scans, links the
/// found blocks in the chip's bad-block table and lets the operation see no
/// bad block. Returns `(blocks to skip, blocks found, table links written)`.
pub fn nand_bad_blocks_for_mode<H: ProgrammerHal + ?Sized, B: BlockProgress>(
    dev: &H,
    params: &ChipParams,
    size: u64,
    mode: NandBadBlockMode,
    progress: &mut B,
) -> (r: Result<(Vec<u32>, usize, usize), String>)
    ensures
        r matches Ok((skip, found, links)) ==> {
            &&& links <= 20
            &&& (mode == NandBadBlockMode::Ignore ==> skip@.len() == 0 && found == 0 && links == 0)
            &&& (mode == NandBadBlockMode::Skip ==> skip@.len() == found && links == 0)
            &&& (mode == NandBadBlockMode::Bypass ==> skip@.len() == 0 && (found == 0 ==> links == 0))
        },
        mode == NandBadBlockMode::Ignore ==> (r matches Ok((skip, found, links)) && skip@.len() == 0 && found == 0 && links == 0),
{
    if mode == NandBadBlockMode::Ignore {
        return Ok((Vec::new(), 0, 0));
    }
    if params.page as u128 + params.spare as u128 + 64 > usize::MAX as u128 {
        return Err("NAND 页/备用区尺寸无效".to_string());
    }
    let bad = nand_scan_bad_blocks(dev, params, size, progress)?;
    let found = bad.len();
    if mode == NandBadBlockMode::Bypass {
        let links: usize = if found > 0 {
            let l = nand_prepare_bypass_lut(dev, params, size, bad.as_slice())?;
            l.len()
        } else {
            0
        };
        Ok((Vec::new(), found, links))
    } else {
        Ok((bad, found, 0))
    }
}

/// Whether `algorithm` is a Microwire algorithm the drivers accept (a set
/// organisation bit comes with a nonzero address width).
pub open spec fn mw_algorithm_ok(algorithm: u8) -> bool {
    algorithm / 16 != 0 ==> algorithm % 16 >= 1
}

fn check_mw_algorithm(params: &ChipParams) -> (r: Result<(), String>)
    ensures
        r is Ok <==> mw_algorithm_ok(params.algorithm),
{
    if params.algorithm / 16 != 0 && params.algorithm % 16 == 0 {
        Err("Microwire 算法参数无效".to_string())
    } else {
        Ok(())
    }
}

/// Read `len` bytes from `from` with the driver of `family` (not SPI NOR).
/// NAND reads the array from its start, working around bad blocks as
/// `mode` says.
fn family_read<H: ProgrammerHal + ?Sized, P: ByteProgress, B: BlockProgress>(
    dev: &H,
    info: &ChipInfo,
    family: ProtocolFamily,
    from: u64,
    len: u64,
    mode: NandBadBlockMode,
    progress: &mut P,
    bad_block_progress: &mut B,
) -> (r: Result<Vec<u8>, String>)
    requires
        keys_unique(pairs_view(info.attrs@)),
        len <= usize::MAX,
        from + len <= u64::MAX,
    ensures
        family == ProtocolFamily::SpiNor || family == ProtocolFamily::Unsupported ==> r is Err,
        r matches Ok(out) ==> out@.len() <= len,
        (family == ProtocolFamily::SpiEeprom || family == ProtocolFamily::DataFlash || family == ProtocolFamily::I2c)
            ==> (r matches Ok(out) ==> out@.len() == len),
        len == 0 && (family == ProtocolFamily::I2c || (family == ProtocolFamily::SpiNand && mode == NandBadBlockMode::Ignore)
            || (family == ProtocolFamily::Microwire && forall|p: ChipParams| #[trigger] crate::protocols::params_match(p, *info)
                ==> mw_algorithm_ok(p.algorithm) && crate::protocols::spec_mw_org_and_bits(p.algorithm).1 >= 2))
            ==> (r matches Ok(out) && out@.len() == 0),
{
    let params = ChipParams::from_info(info);
    match family {
        ProtocolFamily::SpiEeprom => {
            let mut bus = Ch34xSpiBus::new(dev);
            crate::protocols::s95_read(&mut bus, &params, from, len as usize, progress)
        },
        ProtocolFamily::DataFlash => {
            let mut bus = Ch34xSpiBus::new(dev);
            crate::protocols::at45_read(&mut bus, &params, from, len as usize, progress)
        },
        ProtocolFamily::SpiNand => {
            let (skip, _found, _links) = nand_bad_blocks_for_mode(dev, &params, info.size, mode, bad_block_progress)?;
            nand_read(dev, &params, len, skip.as_slice(), progress)
        },
        ProtocolFamily::I2c => {
            let mut link = crate::protocols::I2cLink::new(dev);
            crate::protocols::i2c_read(&mut link, &params, from, len as usize, progress)
        },
        ProtocolFamily::Microwire => {
            check_mw_algorithm(&params)?;
            let out = crate::protocols::mw_read(dev, &params, from, len as usize, progress)?;
            Ok(out)
        },
        _ => Err("该协议不走此读取路径".to_string()),
    }
}

/// SPI NOR parameters of the detected chip, or the defaults (256-byte
/// pages, 3-byte addressing unless `addr4b`) when no SPI NOR is detected.
fn nor_params_or_default(detected: &Option<ChipInfo>, addr4b: bool) -> (p: NorParams)
    requires
        detected matches Some(i) ==> keys_unique(pairs_view(i.attrs@)),
    ensures
        p.page >= 1,
        !(detected matches Some(i) && i.protocol@ == "SPI_NOR"@) ==> p.page == 256 && p.addr4b == addr4b && p.alg == 0,
{
    let fallback = NorParams { page: 256, _sector: 4096, _block: 64 * 1024, addr4b, alg: 0 };
    match detected {
        Some(info) => if str_eq(info.protocol.as_str(), "SPI_NOR") {
            nor_params(info)
        } else {
            fallback
        },
        None => fallback,
    }
}

/// Bytes of read data per frame: the programmer's frame minus the header.
fn nor_read_budget<H: ProgrammerHal + ?Sized>(dev: &H, addr4b: bool) -> (r: Result<u64, String>)
    ensures
        r matches Ok(b) ==> b >= 1,
{
    let hdr_len: usize = if addr4b { 5 } else { 4 };
    let limit = dev.spi_frame_limit();
    if limit <= hdr_len {
        return Err("编程器帧长度不足".to_string());
    }
    Ok((limit - hdr_len) as u64)
}

/// One CH34X SPI NOR read frame: CS low, `03h` + address, `len` bytes in,
/// CS high. `what` names the operation in errors.
fn nor_read_frame<H: ProgrammerHal + ?Sized>(dev: &H, addr: u64, addr4b: bool, len: usize, what: &str) -> (r: Result<Vec<u8>, String>)
    ensures
        r matches Ok(buf) ==> buf@.len() == len,
{
    dev.cs_low()?;
    let hdr = nor_header(0x03, addr, addr4b);
    match dev.spi_tx(hdr.as_slice()) {
        Ok(()) => {},
        Err(e) => {
            return Err(msg_at(what, addr, e.as_str()));
        },
    }
    let mut buf = vec_filled(0xFF, len);
    match dev.spi_rx(buf.as_mut_slice()) {
        Ok(()) => {},
        Err(e) => {
            return Err(msg_at(what, addr, e.as_str()));
        },
    }
    dev.cs_high()?;
    Ok(buf)
}

/// `size - start_addr`, or 0 when the start lies past the end.
pub open spec fn span(size: u64, start_addr: u64) -> u64 {
    if size > start_addr { (size - start_addr) as u64 } else { 0 }
}

/// Read `total` bytes at `start_addr` of a CH34X SPI NOR chip.
fn ch34x_nor_read<'a, H: ProgrammerHal + ?Sized, P: ByteProgress>(
    bus: &mut Ch34xSpiBus<'a, H>,
    params: &NorParams,
    start_addr: u64,
    total: u64,
    progress: &mut P,
) -> (r: Result<Vec<u8>, String>)
    requires
        total <= usize::MAX,
        start_addr + total <= u64::MAX,
    ensures
        r matches Ok(out) ==> out@.len() == total,
        read_run(old(bus).history(), final(bus).history(), old(bus).replies(), final(bus).replies(), 0x03u8, start_addr, params.addr4b),
        r matches Ok(out) ==> {
            &&& all_answered(gained(old(bus).history(), final(bus).history()), gained(old(bus).replies(), final(bus).replies()))
            &&& asked(gained(old(bus).history(), final(bus).history())) == total
            &&& out@ == replied(gained(old(bus).replies(), final(bus).replies()))
        },
{
    proof { lemma_bus_start(*bus, 0x03u8, start_addr, params.addr4b); }
    spi_wait_ready(bus.dev, 1000)?;
    if params.addr4b {
        spi_4byte_mode(bus.dev, params.alg, true)?;
    }
    let budget = nor_read_budget(bus.dev, params.addr4b)?;
    let out = bus_read(bus, 0x03, params.addr4b, budget, start_addr, total, "读取失败", progress)?;
    if params.addr4b {
        spi_4byte_mode(bus.dev, params.alg, false)?;
    }
    Ok(out)
}

/// The bytes asked for by the transfers `h`.
pub open spec fn asked(h: Seq<SpiTransfer>) -> nat
    decreases h.len(),
{
    if h.len() == 0 { 0 } else { asked(h.drop_last()) + h.last().read_len }
}

/// The replies `rs` one after another (a failed transfer gives nothing).
pub open spec fn replied(rs: Seq<Option<Seq<u8>>>) -> Seq<u8>
    decreases rs.len(),
{
    if rs.len() == 0 {
        Seq::empty()
    } else {
        replied(rs.drop_last()) + match rs.last() {
            Some(d) => d,
            None => Seq::empty(),
        }
    }
}

/// The transfers `h` read `[start, start + asked(h))` in order: each one is
/// the header `cmd` at the address where the one before stopped, reading at
/// least one byte.
pub open spec fn chunked_reads(h: Seq<SpiTransfer>, cmd: u8, start: u64, four_byte: bool) -> bool {
    forall|k: int| 0 <= k < h.len() ==> {
        &&& (#[trigger] h[k]).write == spec_nor_header(cmd, (start + asked(h.take(k))) as u64, four_byte)
        &&& h[k].read_len > 0
    }
}

/// Every transfer of `h` gave back as many bytes as it asked for.
pub open spec fn all_answered(h: Seq<SpiTransfer>, rs: Seq<Option<Seq<u8>>>) -> bool {
    &&& rs.len() == h.len()
    &&& forall|k: int| 0 <= k < h.len() ==> answered(#[trigger] rs[k], h[k].read_len)
}

/// The transfer gave back `n` bytes.
pub open spec fn answered(o: Option<Seq<u8>>, n: nat) -> bool {
    o matches Some(d) && d.len() == n
}

/// The transfers and replies a bus gained: `after` extends `before`.
pub open spec fn gained<T>(before: Seq<T>, after: Seq<T>) -> Seq<T> {
    after.subrange(before.len() as int, after.len() as int)
}

/// `after` extends `before`.
pub open spec fn extends<T>(before: Seq<T>, after: Seq<T>) -> bool {
    before.len() <= after.len() && after.subrange(0, before.len() as int) == before
}

/// A chunked read over a bus: the transfers gained are the reads of
/// `[start, ...)` with `cmd`, one reply each.
pub open spec fn read_run(h0: Seq<SpiTransfer>, h1: Seq<SpiTransfer>, r0: Seq<Option<Seq<u8>>>, r1: Seq<Option<Seq<u8>>>,
    cmd: u8, start: u64, four_byte: bool) -> bool {
    &&& extends(h0, h1)
    &&& extends(r0, r1)
    &&& gained(h0, h1).len() == gained(r0, r1).len()
    &&& chunked_reads(gained(h0, h1), cmd, start, four_byte)
}

/// A bus that did nothing yet ran an empty chunked read.
proof fn lemma_bus_start<B: SpiBus>(bus: B, cmd: u8, start: u64, four_byte: bool)
    ensures
        read_run(bus.history(), bus.history(), bus.replies(), bus.replies(), cmd, start, four_byte),
        gained(bus.history(), bus.history()) == Seq::<SpiTransfer>::empty(),
        gained(bus.replies(), bus.replies()) == Seq::<Option<Seq<u8>>>::empty(),
        replied(gained(bus.replies(), bus.replies())) == Seq::<u8>::empty(),
{
    assert(bus.history().subrange(0, bus.history().len() as int) =~= bus.history());
    assert(bus.replies().subrange(0, bus.replies().len() as int) =~= bus.replies());
    assert(gained(bus.history(), bus.history()) =~= Seq::<SpiTransfer>::empty());
    assert(gained(bus.replies(), bus.replies()) =~= Seq::<Option<Seq<u8>>>::empty());
}

proof fn lemma_run_push(h0: Seq<SpiTransfer>, h1: Seq<SpiTransfer>, r0: Seq<Option<Seq<u8>>>, r1: Seq<Option<Seq<u8>>>,
    cmd: u8, start: u64, four_byte: bool, t: SpiTransfer, o: Option<Seq<u8>>)
    requires
        read_run(h0, h1, r0, r1, cmd, start, four_byte),
        t.write == spec_nor_header(cmd, (start + asked(gained(h0, h1))) as u64, four_byte),
        t.read_len > 0,
    ensures
        read_run(h0, h1.push(t), r0, r1.push(o), cmd, start, four_byte),
        gained(h0, h1.push(t)) == gained(h0, h1).push(t),
        gained(r0, r1.push(o)) == gained(r0, r1).push(o),
        asked(gained(h0, h1.push(t))) == asked(gained(h0, h1)) + t.read_len,
        replied(gained(r0, r1.push(o))) == replied(gained(r0, r1)) + match o {
            Some(d) => d,
            None => Seq::<u8>::empty(),
        },
{
    let g = gained(h0, h1);
    assert(gained(h0, h1.push(t)) =~= g.push(t));
    assert(gained(r0, r1.push(o)) =~= gained(r0, r1).push(o));
    assert(h1.push(t).subrange(0, h0.len() as int) =~= h1.subrange(0, h0.len() as int));
    assert(r1.push(o).subrange(0, r0.len() as int) =~= r1.subrange(0, r0.len() as int));
    assert(g.push(t).drop_last() =~= g);
    assert(gained(r0, r1).push(o).drop_last() =~= gained(r0, r1));
    assert forall|k: int| 0 <= k < g.push(t).len() implies {
        &&& (#[trigger] g.push(t)[k]).write == spec_nor_header(cmd, (start + asked(g.push(t).take(k))) as u64, four_byte)
        &&& g.push(t)[k].read_len > 0
    } by {
        if k < g.len() {
            assert(g.push(t).take(k) =~= g.take(k));
        } else {
            assert(g.push(t).take(k) =~= g);
        }
    }
}

proof fn lemma_answered_push(h: Seq<SpiTransfer>, rs: Seq<Option<Seq<u8>>>, t: SpiTransfer, d: Seq<u8>)
    requires
        all_answered(h, rs),
        d.len() == t.read_len,
    ensures
        all_answered(h.push(t), rs.push(Some(d))),
{
    assert forall|k: int| 0 <= k < h.push(t).len() implies answered(#[trigger] rs.push(Some(d))[k], h.push(t)[k].read_len) by {
        if k < h.len() {
            assert(rs.push(Some(d))[k] == rs[k]);
        }
    }
}

/// A failed or short reply leaves the run unanswered.
proof fn lemma_unanswered(h: Seq<SpiTransfer>, rs: Seq<Option<Seq<u8>>>, t: SpiTransfer, o: Option<Seq<u8>>)
    requires
        rs.len() == h.len(),
        !answered(o, t.read_len),
    ensures
        !all_answered(h.push(t), rs.push(o)),
{
    assert(rs.push(o)[h.len() as int] == o);
}

/// The progress reports of a chunked read: after transfer `k`, the bytes
/// asked for so far, out of `total`.
pub open spec fn read_progress(h: Seq<SpiTransfer>, total: u64) -> Seq<(u64, u64)> {
    Seq::new(h.len(), |k: int| (asked(h.take(k + 1)) as u64, total))
}

proof fn lemma_read_progress_push(h: Seq<SpiTransfer>, t: SpiTransfer, total: u64)
    ensures
        read_progress(h.push(t), total).take(h.len() as int) == read_progress(h, total),
        read_progress(h.push(t), total)[h.len() as int] == ((asked(h) + t.read_len) as u64, total),
{
    assert forall|k: int| 0 <= k < h.len() implies #[trigger] h.push(t).take(k + 1) == h.take(k + 1) by {
        assert(h.push(t).take(k + 1) =~= h.take(k + 1));
    }
    assert(read_progress(h.push(t), total).take(h.len() as int) =~= read_progress(h, total));
    assert(h.push(t).take(h.len() + 1int) =~= h.push(t));
    assert(h.push(t).drop_last() =~= h);
}

proof fn lemma_asked_take(h: Seq<SpiTransfer>, i: int, j: int)
    requires
        0 <= i < j <= h.len(),
        forall|k: int| 0 <= k < h.len() ==> (#[trigger] h[k]).read_len > 0,
    ensures
        asked(h.take(i)) < asked(h.take(j)),
        asked(h.take(j)) <= asked(h),
    decreases h.len(),
{
    if j == h.len() {
        if i == j - 1 {
            assert(h.take(j).drop_last() =~= h.take(i));
        } else {
            let p = h.drop_last();
            assert forall|k: int| 0 <= k < p.len() implies (#[trigger] p[k]).read_len > 0 by {
                assert(p[k] == h[k]);
            }
            lemma_asked_take(p, i, j - 1);
            assert(p.take(i) =~= h.take(i));
            assert(p.take(j - 1) =~= p);
            assert(h.take(j) =~= h);
        }
        assert(h.take(j) =~= h);
    } else {
        let p = h.drop_last();
        assert forall|k: int| 0 <= k < p.len() implies (#[trigger] p[k]).read_len > 0 by {
            assert(p[k] == h[k]);
        }
        lemma_asked_take(p, i, j);
        assert(p.take(i) =~= h.take(i));
        assert(p.take(j) =~= h.take(j));
        assert(h.drop_last() == p);
    }
}

/// The progress of a chunked read only goes up, and ends at what was asked
/// for: each report's count is larger than the one before it, and the last
/// is the whole run.
pub proof fn law_read_progress_increases(h: Seq<SpiTransfer>, cmd: u8, start: u64, four_byte: bool, total: u64)
    requires
        chunked_reads(h, cmd, start, four_byte),
        asked(h) <= total,
    ensures
        forall|i: int, j: int| 0 <= i < j < h.len() ==> (#[trigger] read_progress(h, total)[i]).0 < (#[trigger] read_progress(h, total)[j]).0,
        h.len() > 0 ==> read_progress(h, total).last() == (asked(h) as u64, total),
{
    assert forall|k: int| 0 <= k < h.len() implies (#[trigger] h[k]).read_len > 0 by {}
    assert forall|i: int, j: int| 0 <= i < j < h.len() implies (#[trigger] read_progress(h, total)[i]).0 < (#[trigger] read_progress(h, total)[j]).0 by {
        lemma_asked_take(h, i + 1, j + 1);
        lemma_asked_take(h, j, j + 1);
    }
    if h.len() > 0 {
        assert(h.take(h.len() as int) =~= h);
    }
}

/// What a chunked read over a bus gave: the bytes exactly when every read
/// came back whole, and then the replies one after another, `total` in all.
pub open spec fn read_outcome(h: Seq<SpiTransfer>, rs: Seq<Option<Seq<u8>>>, total: nat, r: Result<Vec<u8>, String>) -> bool {
    &&& (r is Ok <==> all_answered(h, rs))
    &&& r matches Ok(out) ==> asked(h) == total && out@ == replied(rs)
}

/// The transfers of the serprog connection between two states.
pub open spec fn serprog_sent<S: SpiBus + Clock>(a: AppState<S>, b: AppState<S>) -> Seq<SpiTransfer> {
    gained(a.serprog->0.history(), b.serprog->0.history())
}

/// The replies the serprog connection gave between two states.
pub open spec fn serprog_heard<S: SpiBus + Clock>(a: AppState<S>, b: AppState<S>) -> Seq<Option<Seq<u8>>> {
    gained(a.serprog->0.replies(), b.serprog->0.replies())
}

/// Between two states the serprog connection read `[start, ...)` in
/// chunks with `03h` (`13h` and 4-byte addresses when `four_byte`).
pub open spec fn serprog_read_run<S: SpiBus + Clock>(a: AppState<S>, b: AppState<S>, start: u64, four_byte: bool) -> bool {
    read_run(a.serprog->0.history(), b.serprog->0.history(), a.serprog->0.replies(), b.serprog->0.replies(),
        if four_byte { 0x13u8 } else { 0x03u8 }, start, four_byte)
}

/// What a verify over a bus found: success exactly when every read came
/// back whole, covering `data`, and equal to it; a difference is reported
/// at its first address.
pub open spec fn verify_outcome<T>(h: Seq<SpiTransfer>, rs: Seq<Option<Seq<u8>>>, start: u64, data: Seq<u8>, r: Result<T, String>) -> bool {
    &&& (r is Ok <==> (all_answered(h, rs) && asked(h) == data.len() && replied(rs) == data))
    &&& asked(h) <= data.len()
    &&& (r is Err ==> !all_answered(h, rs) || replied(rs) != data.take(replied(rs).len() as int))
    &&& match r {
        Err(e) => all_answered(h, rs) && replied(rs) != data.take(replied(rs).len() as int) ==> exists|k: int|
            #[trigger] first_difference(data, replied(rs), k) && e@ == crate::text::mismatch_text((start + k) as u64, data[k], replied(rs)[k]),
        Ok(_) => true,
    }
}

/// The replies `rs` are a chip's contents `mem`: the transfer `k` of `h`
/// got back the `h[k].read_len` bytes of `mem` from `start` plus what the
/// transfers before it asked for, all inside `mem`.
pub open spec fn answers_from(h: Seq<SpiTransfer>, rs: Seq<Option<Seq<u8>>>, start: int, mem: Seq<u8>) -> bool {
    &&& rs.len() == h.len()
    &&& 0 <= start && start + asked(h) <= mem.len()
    &&& forall|k: int| 0 <= k < h.len() ==> #[trigger] rs[k]
        == Some(mem.subrange(start + asked(h.take(k)), start + asked(h.take(k)) + h[k].read_len))
}

/// Replies that are a chip's contents answer every read, and together they
/// are the contents from `start` on.
pub proof fn lemma_replied_contents(h: Seq<SpiTransfer>, rs: Seq<Option<Seq<u8>>>, start: int, mem: Seq<u8>)
    requires
        answers_from(h, rs, start, mem),
    ensures
        all_answered(h, rs),
        replied(rs) == mem.subrange(start, start + asked(h)),
    decreases h.len(),
{
    if h.len() == 0 {
        assert(replied(rs) =~= mem.subrange(start, start + asked(h)));
    } else {
        let n = h.len() - 1;
        let hp = h.drop_last();
        let rp = rs.drop_last();
        assert(h.take(n) =~= hp);
        assert forall|k: int| 0 <= k < hp.len() implies #[trigger] rp[k]
            == Some(mem.subrange(start + asked(hp.take(k)), start + asked(hp.take(k)) + hp[k].read_len)) by {
            assert(hp.take(k) =~= h.take(k));
            assert(rp[k] == rs[k]);
        }
        lemma_replied_contents(hp, rp, start, mem);
        assert(rs[n] == rs.last());
        assert(rs.drop_last() == rp);
        assert(replied(rs) =~= mem.subrange(start, start + asked(h)));
        assert forall|k: int| 0 <= k < h.len() implies answered(#[trigger] rs[k], h[k].read_len) by {
            if k < n {
                assert(rs[k] == rp[k]);
            }
        }
    }
}

/// Reading the chip gives back what it holds: when every reply of a chunked
/// read is the chip's contents, the read succeeds with the contents of
/// `[start, start + total)`.
pub proof fn law_read_gives_contents(h: Seq<SpiTransfer>, rs: Seq<Option<Seq<u8>>>, start: u64, total: nat, mem: Seq<u8>,
    r: Result<Vec<u8>, String>)
    requires
        read_outcome(h, rs, total, r),
        answers_from(h, rs, start as int, mem),
    ensures
        r is Ok,
        r->Ok_0@ == mem.subrange(start as int, start + total),
{
    lemma_replied_contents(h, rs, start as int, mem);
}

/// Verify succeeds exactly when the contents match: when every reply of
/// the read-back is the chip's contents, the verify of `data` at `start`
/// succeeds if and only if the chip holds `data` there.
pub proof fn law_verify_iff_contents<T>(h: Seq<SpiTransfer>, rs: Seq<Option<Seq<u8>>>, start: u64, data: Seq<u8>, mem: Seq<u8>,
    r: Result<T, String>)
    requires
        verify_outcome(h, rs, start, data, r),
        answers_from(h, rs, start as int, mem),
        start + data.len() <= mem.len(),
    ensures
        r is Ok <==> mem.subrange(start as int, start + data.len()) == data,
{
    lemma_replied_contents(h, rs, start as int, mem);
    let got = replied(rs);
    if mem.subrange(start as int, start + data.len()) == data {
        assert(got =~= data.take(got.len() as int));
    } else if r is Ok {
        assert(false);
    }
}

/// Read `total` bytes at `start_addr` over a bus with `cmd` reads (4-byte
/// addresses when `four_byte`) of at most `chunk_max` bytes each. `what` names
/// the operation in errors.
fn bus_read<S: SpiBus, P: ByteProgress>(
    ser: &mut S,
    cmd: u8,
    four_byte: bool,
    chunk_max: u64,
    start_addr: u64,
    total: u64,
    what: &str,
    progress: &mut P,
) -> (r: Result<Vec<u8>, String>)
    requires
        chunk_max >= 1,
        total <= usize::MAX,
        start_addr + total <= u64::MAX,
    ensures
        r matches Ok(out) ==> out@.len() == total,
        total == 0 ==> (r matches Ok(out) && out@.len() == 0),
        read_run(old(ser).history(), final(ser).history(), old(ser).replies(), final(ser).replies(),
            cmd, start_addr, four_byte),
        read_outcome(gained(old(ser).history(), final(ser).history()), gained(old(ser).replies(), final(ser).replies()),
            total as nat, r),
        extends(old(progress).reports(), final(progress).reports()),
        gained(old(progress).reports(), final(progress).reports())
            == read_progress(gained(old(ser).history(), final(ser).history()), total).take(
                gained(old(progress).reports(), final(progress).reports()).len() as int),
        r is Ok ==> gained(old(progress).reports(), final(progress).reports())
            == read_progress(gained(old(ser).history(), final(ser).history()), total),
{
    let ghost p0 = progress.reports();
    let mut out: Vec<u8> = Vec::new();
    let mut offset: u64 = 0;
    let ghost h0 = ser.history();
    let ghost r0 = ser.replies();
    proof {
        assert(gained(h0, h0) =~= Seq::<SpiTransfer>::empty());
        assert(gained(r0, r0) =~= Seq::<Option<Seq<u8>>>::empty());
        assert(h0.subrange(0, h0.len() as int) =~= h0);
        assert(r0.subrange(0, r0.len() as int) =~= r0);
    }
    proof {
        assert(p0.subrange(0, p0.len() as int) =~= p0);
        assert(gained(p0, p0) =~= Seq::<(u64, u64)>::empty());
        assert(read_progress(Seq::<SpiTransfer>::empty(), total) =~= Seq::<(u64, u64)>::empty());
    }
    while offset < total
        invariant
            offset <= total,
            total <= usize::MAX,
            start_addr + total <= u64::MAX,
            chunk_max >= 1,
            out@.len() == offset,
            h0 == old(ser).history(),
            r0 == old(ser).replies(),
            read_run(h0, ser.history(), r0, ser.replies(), cmd, start_addr, four_byte),
            all_answered(gained(h0, ser.history()), gained(r0, ser.replies())),
            asked(gained(h0, ser.history())) == offset,
            out@ == replied(gained(r0, ser.replies())),
            p0 == old(progress).reports(),
            extends(p0, progress.reports()),
            gained(p0, progress.reports()) == read_progress(gained(h0, ser.history()), total),
        decreases total - offset,
    {
        let addr = start_addr + offset;
        let chunk: u64 = if total - offset < chunk_max { total - offset } else { chunk_max };
        let hdr = nor_header(cmd, addr, four_byte);
        let ghost hb = ser.history();
        let ghost rb = ser.replies();
        let res = ser.transact(hdr.as_slice(), chunk as usize);
        proof {
            lemma_read_progress_push(gained(h0, hb), transfer(hdr@, chunk as nat), total);
            lemma_run_push(h0, hb, r0, rb, cmd, start_addr, four_byte, transfer(hdr@, chunk as nat), reply_of(res));
            if !answered(reply_of(res), chunk as nat) {
                lemma_unanswered(gained(h0, hb), gained(r0, rb), transfer(hdr@, chunk as nat), reply_of(res));
            }
        }
        let data = match res {
            Ok(d) => d,
            Err(e) => {
                return Err(msg_at(what, addr, e.as_str()));
            },
        };
        if data.len() != chunk as usize {
            return Err(msg_len_at("serprog 读取长度不符", addr, chunk as usize, data.len()));
        }
        proof {
            lemma_answered_push(gained(h0, hb), gained(r0, rb), transfer(hdr@, chunk as nat), data@);
        }
        append(&mut out, &data);
        offset = offset + chunk;
        let ghost pb = progress.reports();
        progress.report(offset, total);
        proof {
            let pa = progress.reports();
            assert(pa.subrange(0, p0.len() as int) =~= pb.subrange(0, p0.len() as int));
            assert(gained(p0, pa) =~= gained(p0, pb).push((offset, total)));
            assert(gained(h0, ser.history()) == gained(h0, hb).push(transfer(hdr@, chunk as nat)));
            assert(gained(p0, pa) =~= read_progress(gained(h0, ser.history()), total));
        }
    }
    Ok(out)
}

/// Read `total` bytes at `start_addr` over serprog (`03h`, or `13h` with
/// 4-byte addresses when the chip is larger than 16 MiB), at most 4 KiB per
/// transaction. `what` names the operation in errors.
fn serprog_read<S: SpiBus, P: ByteProgress>(
    ser: &mut S,
    four_byte: bool,
    start_addr: u64,
    total: u64,
    what: &str,
    progress: &mut P,
) -> (r: Result<Vec<u8>, String>)
    requires
        total <= usize::MAX,
        start_addr + total <= u64::MAX,
    ensures
        r matches Ok(out) ==> out@.len() == total,
        total == 0 ==> (r matches Ok(out) && out@.len() == 0),
        read_run(old(ser).history(), final(ser).history(), old(ser).replies(), final(ser).replies(),
            if four_byte { 0x13u8 } else { 0x03u8 }, start_addr, four_byte),
        read_outcome(gained(old(ser).history(), final(ser).history()), gained(old(ser).replies(), final(ser).replies()),
            total as nat, r),
        extends(old(progress).reports(), final(progress).reports()),
        gained(old(progress).reports(), final(progress).reports())
            == read_progress(gained(old(ser).history(), final(ser).history()), total).take(
                gained(old(progress).reports(), final(progress).reports()).len() as int),
        r is Ok ==> gained(old(progress).reports(), final(progress).reports())
            == read_progress(gained(old(ser).history(), final(ser).history()), total),
{
    let cmd: u8 = if four_byte { 0x13 } else { 0x03 };
    let m = ser.max_read();
    let chunk_max: u64 = if m == 0 { 1 } else if m < 4096 { m as u64 } else { 4096 };
    bus_read(ser, cmd, four_byte, chunk_max, start_addr, total, what, progress)
}

// ──────────────────────────── chip operations ────────────────────────────

/// The detected chip's attributes have unique keys (the invariant of a chip
/// record built from the library).
pub open spec fn detected_wf<S: SpiBus + Clock>(state: AppState<S>) -> bool {
    state.detected matches Some(i) ==> keys_unique(pairs_view(i.attrs@))
}

/// The operations only use the serprog connection mutably; everything else
/// in the state is left as it was.
pub open spec fn config_kept<S: SpiBus + Clock>(a: AppState<S>, b: AppState<S>) -> bool {
    &&& a.ch34x == b.ch34x
    &&& a.detected == b.detected
    &&& a.lib == b.lib
    &&& a.connected_device == b.connected_device
    &&& a.sidecar_adapter == b.sidecar_adapter
    &&& a.sidecar_device == b.sidecar_device
    &&& a.operation_running == b.operation_running
    &&& a.last_serial_ports@ == b.last_serial_ports@
    &&& a.cached_serprog@ == b.cached_serprog@
    &&& a.serprog is Some == b.serprog is Some
}

/// The operation is routed to the selected sidecar adapter device.
pub open spec fn sidecar_routed<S: SpiBus + Clock>(state: AppState<S>, router_given: bool) -> bool {
    has_selection(state) && router_given
}

/// The serprog path: no CH34X programmer, a serprog connection.
pub open spec fn serprog_path<S: SpiBus + Clock>(state: AppState<S>) -> bool {
    state.ch34x is None && state.serprog is Some
}

/// The CH34X programmer may be opened: no routed sidecar device takes the
/// call, a CH34X programmer is configured and its detected protocol is supported.
pub open spec fn may_open<S: SpiBus + Clock>(state: AppState<S>, router_given: bool) -> bool {
    !sidecar_routed(state, router_given) && state.ch34x is Some && detected_family(state) != ProtocolFamily::Unsupported
}

/// Nothing was opened through the port, or, where `allowed`, exactly one open was added.
pub open spec fn opens_kept(before: Seq<DeviceMode>, after: Seq<DeviceMode>, allowed: bool) -> bool {
    after == before || (allowed && exists|m: DeviceMode| after == #[trigger] before.push(m))
}

/// The protocol family of the detected chip; SPI NOR when none is detected.
pub open spec fn detected_family<S: SpiBus + Clock>(state: AppState<S>) -> ProtocolFamily {
    match state.detected {
        Some(i) => spec_family(i.protocol@),
        None => ProtocolFamily::SpiNor,
    }
}

/// The family of the detected chip, SPI NOR when none is detected.
fn family_of(detected: &Option<ChipInfo>) -> (f: ProtocolFamily)
    ensures
        f == (match *detected {
            Some(i) => spec_family(i.protocol@),
            None => ProtocolFamily::SpiNor,
        }),
{
    match detected {
        Some(info) => protocol_family(info.protocol.as_str()),
        None => ProtocolFamily::SpiNor,
    }
}

fn unsupported(detected: &Option<ChipInfo>, suffix: &str) -> (r: String)
    ensures
        r@ == match detected {
            Some(info) => "协议 "@ + info.protocol@ + suffix@,
            None => suffix@,
        },
{
    match detected {
        Some(info) => crate::text::msg_join3("协议 ", info.protocol.as_str(), suffix),
        None => String::from_str(suffix),
    }
}

/// Read the chip: `size` bytes from `start_addr`.
///
/// - A selected sidecar device (with a router) reads `size` bytes from 0.
/// - Without a CH34X programmer but with serprog: `size - start_addr`
///   bytes, `13h` 4-byte reads above 16 MiB.
/// - A detected non-NOR chip is read by its family's driver (`size` bytes;
///   NAND from the array start, bad blocks handled as `bad_block_mode`
///   says); an unknown protocol is refused.
/// - Otherwise the CH34X reads `size - start_addr` bytes of SPI NOR, in
///   frames of the programmer's size, in 4-byte mode when the chip needs it.
pub fn read_chip<S: SpiBus + Clock, O: Ch34xOpener, C: AdapterClient, P: ByteProgress, B: BlockProgress>(
    state: &mut AppState<S>,
    port: &mut Ch34xPort<O>,
    size: u64,
    start_addr: u64,
    bad_block_mode: Option<&str>,
    progress: &mut P,
    bad_block_progress: &mut B,
    router: Option<&mut HalRouter<C>>,
) -> (r: Result<Vec<u8>, String>)
    requires
        size <= usize::MAX,
        start_addr + size <= u64::MAX,
        detected_wf(*old(state)),
    ensures
        config_kept(*old(state), *final(state)),
        opens_kept(old(port).opens(), final(port).opens(), may_open(*old(state), router is Some)),
        sidecar_routed(*old(state), router is Some) ==> !has_pair(final(router->Some_0).session_list(),
            old(state).sidecar_adapter->0@, old(state).sidecar_device->0@),
        sidecar_routed(*old(state), router is Some) && size > 0 && size <= 0x100_0000 ==> read_outcome(
            routed_sent(*old(router->Some_0), *final(router->Some_0)), routed_heard(*old(router->Some_0), *final(router->Some_0)), size as nat, r),
        sidecar_routed(*old(state), router is Some) ==> (r matches Ok(out) ==> out@.len() == size),
        !sidecar_routed(*old(state), router is Some) ==> {
            &&& serprog_path(*old(state)) ==> (r matches Ok(out) ==> out@.len() == span(size, start_addr))
            &&& serprog_path(*old(state)) && span(size, start_addr) == 0 ==> (r matches Ok(out) && out@.len() == 0)
            &&& serprog_path(*old(state)) ==> {
                &&& serprog_read_run(*old(state), *final(state), start_addr, size > 0x0100_0000)
                &&& read_outcome(serprog_sent(*old(state), *final(state)), serprog_heard(*old(state), *final(state)),
                    span(size, start_addr) as nat, r)
                &&& extends(old(progress).reports(), final(progress).reports())
                &&& gained(old(progress).reports(), final(progress).reports())
                    == read_progress(serprog_sent(*old(state), *final(state)), span(size, start_addr)).take(
                        gained(old(progress).reports(), final(progress).reports()).len() as int)
                &&& r is Ok ==> gained(old(progress).reports(), final(progress).reports())
                    == read_progress(serprog_sent(*old(state), *final(state)), span(size, start_addr))
            }
            &&& !serprog_path(*old(state)) ==> {
                &&& old(state).ch34x is None ==> r is Err
                &&& detected_family(*old(state)) == ProtocolFamily::Unsupported ==> r is Err
                &&& detected_family(*old(state)) == ProtocolFamily::SpiNor ==> (r matches Ok(out) ==> out@.len() == span(size, start_addr))
                &&& (r matches Ok(out) ==> out@.len() <= size)
                &&& (detected_family(*old(state)) == ProtocolFamily::SpiEeprom || detected_family(*old(state)) == ProtocolFamily::DataFlash
                    || detected_family(*old(state)) == ProtocolFamily::I2c) ==> (r matches Ok(out) ==> out@.len() == size)
            }
        },
{
    let selection = sidecar_selection(state);
    match router {
        Some(rt) => match selection {
            Some(sel) => {
                return sidecar_read_chip(rt, &sel, size, progress);
            },
            None => {},
        },
        None => {},
    }
    let total: u64 = if size > start_addr { size - start_addr } else { 0 };
    if state.ch34x.is_none() {
        match &mut state.serprog {
            Some(ser) => {
                return serprog_read(ser, size > 0x0100_0000, start_addr, total, "读取失败", progress);
            },
            None => {},
        }
    }
    let family = family_of(&state.detected);
    match family {
        ProtocolFamily::SpiNor => {},
        ProtocolFamily::Unsupported => {
            return Err(unsupported(&state.detected, " 暂未实现"));
        },
        _ => {
            match &state.detected {
                Some(info) => {
                    let dev = open_ch34x_mode(state, port, bus_mode_for_protocol(info.protocol.as_str()))?;
                    let mode = parse_nand_bad_block_mode(bad_block_mode);
                    return family_read(&dev, info, family, start_addr, size, mode, progress, bad_block_progress);
                },
                None => {},
            }
        },
    }
    let params = nor_params_or_default(&state.detected, size > 0x0100_0000);
    let dev = open_ch34x(state, port)?;
    let mut bus = Ch34xSpiBus::new(&dev);
    ch34x_nor_read(&mut bus, &params, start_addr, total, progress)
}

/// The SPI NOR program frame: `02h` + address, then `data[lo..hi]`.
fn program_frame_at(addr: u64, addr4b: bool, data: &[u8], lo: usize, hi: usize) -> (r: Vec<u8>)
    requires
        lo <= hi <= data@.len(),
    ensures
        r@ == spec_nor_header(0x02, addr, addr4b) + data@.subrange(lo as int, hi as int),
{
    let mut frame = nor_header(0x02, addr, addr4b);
    let body = slice_vec(data, lo, hi);
    append(&mut frame, &body);
    frame
}

/// Program `data` at `start_addr` of a CH34X SPI NOR chip, page by page;
/// refused while block protection is set.
fn ch34x_nor_write<H: ProgrammerHal + ?Sized, P: ByteProgress>(
    dev: &H,
    params: &NorParams,
    data: &[u8],
    start_addr: u64,
    progress: &mut P,
) -> Result<(), String>
    requires
        params.page >= 1,
        start_addr + data@.len() <= u64::MAX,
{
    spi_wait_ready(dev, 2000)?;
    let sr1 = spi_read_status(dev)?;
    if (sr1 & NOR_BP_MASK_SR1) != 0 {
        return Err(msg_hex2("SPI NOR 处于写保护状态（SR1=0x", sr1, "）。请先执行“解除 NOR 写保护”"));
    }
    if params.addr4b {
        spi_4byte_mode(dev, params.alg, true)?;
    }
    let total = data.len();
    let mut offset: usize = 0;
    while offset < total
        invariant
            offset <= total,
            total == data@.len(),
            params.page >= 1,
            start_addr + data@.len() <= u64::MAX,
        decreases total - offset,
    {
        let addr = start_addr + offset as u64;
        let chunk: usize = if params.page < total - offset { params.page } else { total - offset };
        spi_wait_ready(dev, 2000)?;
        spi_write_enable(dev)?;
        dev.cs_low()?;
        let frame = program_frame_at(addr, params.addr4b, data, offset, offset + chunk);
        match dev.spi_tx(frame.as_slice()) {
            Ok(()) => {},
            Err(e) => {
                return Err(msg_at("写入失败", addr, e.as_str()));
            },
        }
        dev.cs_high()?;
        spi_wait_ready(dev, 100)?;
        offset = offset + chunk;
        progress.report(offset as u64, total as u64);
    }
    if params.addr4b {
        spi_4byte_mode(dev, params.alg, false)?;
    }
    spi_write_disable(dev)?;
    Ok(())
}

/// A range of `n` bytes at `start` reaches past 16 MiB (4-byte addresses).
pub open spec fn past_16m(start: u64, n: nat) -> bool {
    start + n > 0x0100_0000
}

/// A status reply whose first byte has a block-protect bit (`SR1 & 1Ch`) set.
pub open spec fn sr1_protected(d: Seq<u8>) -> bool {
    &&& d.len() > 0
    &&& (d[0] & 0x1C) != 0
}

/// The text of the write refusal while block protection is set.
pub open spec fn wp_refusal_text(sr1: u8) -> Seq<char> {
    "SPI NOR 处于写保护状态（SR1=0x"@ + crate::text::hex_pad(sr1 as nat, 2, true) + "）。请先执行“解除 NOR 写保护”"@
}

/// `h[lo..hi)` programs `data[off..off + c)` at `start + off`: WREN, the
/// page program (`02h` + address + bytes), then status polls (`05h`).
pub open spec fn page_step(h: Seq<SpiTransfer>, lo: int, hi: int, data: Seq<u8>, start: u64, four_byte: bool, off: int, c: int) -> bool {
    &&& 0 <= lo && lo + 3 <= hi <= h.len()
    &&& 0 < c <= 256 && 0 <= off && off + c <= data.len()
    &&& h[lo] == transfer(seq![0x06u8], 0)
    &&& h[lo + 1] == transfer(spec_nor_header(0x02, (start + off) as u64, four_byte) + data.subrange(off, off + c), 0)
    &&& forall|i: int| lo + 2 <= i < hi ==> #[trigger] h[i] == transfer(seq![0x05u8], 1)
}

/// From `marks[0]` on, `h` programs `data[..offs.last())` page after page:
/// step `k` spans `h[marks[k]..marks[k + 1])` and programs
/// `data[offs[k]..offs[k + 1])`.
pub open spec fn pages_written(h: Seq<SpiTransfer>, data: Seq<u8>, start: u64, four_byte: bool, marks: Seq<int>, offs: Seq<int>) -> bool {
    &&& marks.len() == offs.len() && marks.len() >= 1
    &&& offs[0] == 0
    &&& marks.last() <= h.len()
    &&& forall|k: int| 0 <= k < marks.len() - 1 ==> #[trigger] page_step(h, marks[k], marks[k + 1], data, start, four_byte, offs[k], offs[k + 1] - offs[k])
}

/// A serprog page write: RDSR first; refused with the status byte while a
/// block-protect bit (`SR1 & 1Ch`) is set, with nothing sent after it; on
/// success the rest of the transfers program all of `data`, page by page.
pub open spec fn write_outcome<T>(h0: Seq<SpiTransfer>, h1: Seq<SpiTransfer>, r0: Seq<Option<Seq<u8>>>, r1: Seq<Option<Seq<u8>>>,
    data: Seq<u8>, start: u64, r: Result<T, String>) -> bool {
    &&& extends(h0, h1) && extends(r0, r1)
    &&& h1.len() > h0.len() && r1.len() > r0.len()
    &&& h1[h0.len() as int] == transfer(seq![0x05u8], 1)
    &&& r1[r0.len() as int] is Some && sr1_protected(r1[r0.len() as int]->Some_0) ==> {
        &&& h1.len() == h0.len() + 1
        &&& r is Err && r->Err_0@ == wp_refusal_text(r1[r0.len() as int]->Some_0[0])
    }
    &&& !(r1[r0.len() as int] is Some && r1[r0.len() as int]->Some_0.len() > 0) ==> h1.len() == h0.len() + 1 && r is Err
    &&& r is Ok ==> exists|marks: Seq<int>, offs: Seq<int>| {
        &&& #[trigger] pages_written(h1, data, start, past_16m(start, data.len()), marks, offs)
        &&& marks[0] == h0.len() + 1 && marks.last() == h1.len() && offs.last() == data.len()
    }
}

proof fn lemma_step_kept(h1: Seq<SpiTransfer>, h2: Seq<SpiTransfer>, lo: int, hi: int, data: Seq<u8>, start: u64, four_byte: bool, off: int, c: int)
    requires
        page_step(h1, lo, hi, data, start, four_byte, off, c),
        extends(h1, h2),
    ensures
        page_step(h2, lo, hi, data, start, four_byte, off, c),
{
    assert forall|i: int| lo <= i < hi implies h2[i] == h1[i] by {
        assert(h2.subrange(0, h1.len() as int)[i] == h2[i]);
    }
    assert forall|i: int| lo + 2 <= i < hi implies #[trigger] h2[i] == transfer(seq![0x05u8], 1) by {
        assert(h2[i] == h1[i]);
    }
}

proof fn lemma_pages_kept(h1: Seq<SpiTransfer>, h2: Seq<SpiTransfer>, data: Seq<u8>, start: u64, four_byte: bool, marks: Seq<int>, offs: Seq<int>)
    requires
        pages_written(h1, data, start, four_byte, marks, offs),
        extends(h1, h2),
    ensures
        pages_written(h2, data, start, four_byte, marks, offs),
{
    assert forall|k: int| 0 <= k < marks.len() - 1 implies #[trigger] page_step(h2, marks[k], marks[k + 1], data, start, four_byte, offs[k], offs[k + 1] - offs[k]) by {
        lemma_step_kept(h1, h2, marks[k], marks[k + 1], data, start, four_byte, offs[k], offs[k + 1] - offs[k]);
    }
}

proof fn lemma_pages_push(h: Seq<SpiTransfer>, data: Seq<u8>, start: u64, four_byte: bool, marks: Seq<int>, offs: Seq<int>, hi: int, c: int)
    requires
        pages_written(h, data, start, four_byte, marks, offs),
        page_step(h, marks.last(), hi, data, start, four_byte, offs.last(), c),
    ensures
        pages_written(h, data, start, four_byte, marks.push(hi), offs.push(offs.last() + c)),
{
    let m2 = marks.push(hi);
    let o2 = offs.push(offs.last() + c);
    assert forall|k: int| 0 <= k < m2.len() - 1 implies #[trigger] page_step(h, m2[k], m2[k + 1], data, start, four_byte, o2[k], o2[k + 1] - o2[k]) by {
        if k < marks.len() - 1 {
            assert(m2[k] == marks[k] && m2[k + 1] == marks[k + 1] && o2[k] == offs[k] && o2[k + 1] == offs[k + 1]);
        } else {
            assert(k == marks.len() - 1);
        }
    }
}

proof fn lemma_extends_trans<T>(a: Seq<T>, b: Seq<T>, c: Seq<T>)
    requires
        extends(a, b),
        extends(b, c),
    ensures
        extends(a, c),
{
    assert(c.subrange(0, a.len() as int) =~= b.subrange(0, a.len() as int));
}

proof fn lemma_extends_push<T>(a: Seq<T>, x: T, unused: int)
    ensures
        extends(a, a.push(x)),
{
    assert(a.push(x).subrange(0, a.len() as int) =~= a);
}

/// What the first status read fixed stays fixed as the transfers go on.
proof fn lemma_outcome_tail(h0: Seq<SpiTransfer>, h1: Seq<SpiTransfer>, h: Seq<SpiTransfer>,
    r0: Seq<Option<Seq<u8>>>, r1: Seq<Option<Seq<u8>>>, r: Seq<Option<Seq<u8>>>)
    requires
        extends(h0, h1) && extends(h1, h),
        extends(r0, r1) && extends(r1, r),
        h1.len() == h0.len() + 1,
        r1.len() == r0.len() + 1,
    ensures
        extends(h0, h) && extends(r0, r),
        h.len() > h0.len() && r.len() > r0.len(),
        h[h0.len() as int] == h1[h0.len() as int],
        r[r0.len() as int] == r1[r0.len() as int],
{
    lemma_extends_trans(h0, h1, h);
    lemma_extends_trans(r0, r1, r);
    assert(h.subrange(0, h1.len() as int)[h0.len() as int] == h[h0.len() as int]);
    assert(r.subrange(0, r1.len() as int)[r0.len() as int] == r[r0.len() as int]);
}

/// A chip's contents `mem` after the page programs of `data` at `start`
/// that `offs` delimits: page `k` programs `data[offs[k]..offs[k + 1])` at
/// `start + offs[k]`, and programming clears bits (each byte becomes the
/// old byte AND the new one).
pub open spec fn program_pages(mem: Seq<u8>, data: Seq<u8>, start: int, offs: Seq<int>) -> Seq<u8>
    decreases offs.len(),
{
    if offs.len() <= 1 {
        mem
    } else {
        let prev = program_pages(mem, data, start, offs.drop_last());
        let lo = offs[offs.len() - 2];
        let hi = offs.last();
        Seq::new(prev.len(), |i: int| if start + lo <= i < start + hi { prev[i] & data[i - start] } else { prev[i] })
    }
}

proof fn lemma_pages_prefix(h: Seq<SpiTransfer>, data: Seq<u8>, start: u64, four_byte: bool, marks: Seq<int>, offs: Seq<int>,
    mem: Seq<u8>, k: int)
    requires
        pages_written(h, data, start, four_byte, marks, offs),
        0 <= k < offs.len(),
        start + data.len() <= mem.len(),
        forall|j: int| start <= j < start + data.len() ==> mem[j] == 0xFF,
    ensures
        program_pages(mem, data, start as int, offs.take(k + 1)).len() == mem.len(),
        0 <= offs[k] <= data.len(),
        forall|i: int| start <= i < start + offs[k] ==> #[trigger] program_pages(mem, data, start as int, offs.take(k + 1))[i] == data[i - start],
        forall|i: int| 0 <= i < mem.len() && !(start <= i < start + offs[k])
            ==> #[trigger] program_pages(mem, data, start as int, offs.take(k + 1))[i] == mem[i],
    decreases k,
{
    if k == 0 {
        assert(offs.take(1).len() == 1);
    } else {
        lemma_pages_prefix(h, data, start, four_byte, marks, offs, mem, k - 1);
        assert(page_step(h, marks[k - 1], marks[k], data, start, four_byte, offs[k - 1], offs[k] - offs[k - 1]));
        let t = offs.take(k + 1);
        assert(t.drop_last() =~= offs.take(k));
        assert(t[t.len() - 2] == offs[k - 1]);
        assert(t.last() == offs[k]);
        let prev = program_pages(mem, data, start as int, offs.take(k));
        let p = program_pages(mem, data, start as int, t);
        assert forall|i: int| start + offs[k - 1] <= i < start + offs[k] implies #[trigger] p[i] == data[i - start] by {
            let d = data[i - start];
            assert(prev[i] == mem[i]);
            assert(prev[i] == 0xFF);
            assert(0xFFu8 & d == d) by (bit_vector);
        }
    }
}

/// What a write stores: when the written range was erased (all `0xFF`), a
/// chip that carries out the page programs of a successful write holds
/// `data` at `start` afterwards.
pub proof fn law_write_stores_data<T>(h0: Seq<SpiTransfer>, h1: Seq<SpiTransfer>, r0: Seq<Option<Seq<u8>>>, r1: Seq<Option<Seq<u8>>>,
    data: Seq<u8>, start: u64, r: Result<T, String>, mem: Seq<u8>)
    requires
        write_outcome(h0, h1, r0, r1, data, start, r),
        r is Ok,
        start + data.len() <= mem.len(),
        forall|j: int| start <= j < start + data.len() ==> mem[j] == 0xFF,
    ensures
        exists|marks: Seq<int>, offs: Seq<int>| {
            &&& #[trigger] pages_written(h1, data, start, past_16m(start, data.len()), marks, offs)
            &&& marks[0] == h0.len() + 1 && marks.last() == h1.len()
            &&& program_pages(mem, data, start as int, offs).subrange(start as int, start + data.len()) == data
        },
{
    let (marks, offs) = choose|marks: Seq<int>, offs: Seq<int>| {
        &&& #[trigger] pages_written(h1, data, start, past_16m(start, data.len()), marks, offs)
        &&& marks[0] == h0.len() + 1 && marks.last() == h1.len() && offs.last() == data.len()
    };
    let k = offs.len() - 1;
    lemma_pages_prefix(h1, data, start, past_16m(start, data.len()), marks, offs, mem, k);
    assert(offs.take(k + 1) =~= offs);
    assert(program_pages(mem, data, start as int, offs).subrange(start as int, start + data.len()) =~= data);
}

/// Reading gives back what was written: after a successful write of `data`
/// at `start` into an erased range, a read of that range whose replies are
/// the contents of the chip that carried out the write's page programs
/// succeeds with `data`.
pub proof fn law_read_after_write(data: Seq<u8>, start: u64, mem: Seq<u8>, after: Seq<u8>, h1: Seq<SpiTransfer>,
    rh: Seq<SpiTransfer>, rr: Seq<Option<Seq<u8>>>, rd: Result<Vec<u8>, String>)
    requires
        start + data.len() <= mem.len(),
        forall|j: int| start <= j < start + data.len() ==> mem[j] == 0xFF,
        exists|marks: Seq<int>, offs: Seq<int>| {
            &&& #[trigger] pages_written(h1, data, start, past_16m(start, data.len()), marks, offs)
            &&& offs.last() == data.len()
            &&& after == program_pages(mem, data, start as int, offs)
        },
        read_outcome(rh, rr, data.len(), rd),
        answers_from(rh, rr, start as int, after),
    ensures
        rd is Ok,
        rd->Ok_0@ == data,
{
    let (marks, offs) = choose|marks: Seq<int>, offs: Seq<int>| {
        &&& #[trigger] pages_written(h1, data, start, past_16m(start, data.len()), marks, offs)
        &&& offs.last() == data.len()
        &&& after == program_pages(mem, data, start as int, offs)
    };
    let k = offs.len() - 1;
    lemma_pages_prefix(h1, data, start, past_16m(start, data.len()), marks, offs, mem, k);
    assert(offs.take(k + 1) =~= offs);
    law_read_gives_contents(rh, rr, start, data.len(), after, rd);
    assert(after.subrange(start as int, start + data.len()) =~= data);
}

/// Program `data` at `start_addr` over serprog: WREN and one page program
/// (`02h`, 4-byte addresses past 16 MiB) per chunk of at most 256 bytes
/// that fits the programmer's write frame; refused while block protection
/// is set.
fn serprog_write<S: SpiBus + Clock, P: ByteProgress>(
    ser: &mut S,
    data: &[u8],
    start_addr: u64,
    progress: &mut P,
) -> (r: Result<(), String>)
    requires
        start_addr + data@.len() <= u64::MAX,
    ensures
        write_outcome(old(ser).history(), final(ser).history(), old(ser).replies(), final(ser).replies(), data@, start_addr, r),
        final(ser).history().len() == old(ser).history().len() + 1 ==> final(progress).reports() == old(progress).reports(),
{
    let ghost h0 = ser.history();
    let ghost r0 = ser.replies();
    let rdsr = [0x05u8];
    assert(rdsr@ =~= seq![0x05u8]);
    let res = ser.transact(&rdsr, 1);
    proof {
        assert(ser.history().subrange(0, h0.len() as int) =~= h0);
        assert(ser.replies().subrange(0, r0.len() as int) =~= r0);
    }
    let sr = match res {
        Ok(v) => v,
        Err(e) => {
            return Err(e);
        },
    };
    if sr.len() == 0 {
        return Err("状态寄存器读取无数据".to_string());
    }
    let sr1 = sr[0];
    if (sr1 & NOR_BP_MASK_SR1) != 0 {
        return Err(msg_hex2("SPI NOR 处于写保护状态（SR1=0x", sr1, "）。请先执行“解除 NOR 写保护”"));
    }
    let total = data.len();
    let use_4b = start_addr + total as u64 > 0x0100_0000;
    let hdr_len: usize = if use_4b { 5 } else { 4 };
    let mut offset: usize = 0;
    let ghost mut marks: Seq<int> = seq![h0.len() + 1int];
    let ghost mut offs: Seq<int> = seq![0int];
    let ghost h1 = ser.history();
    let ghost r1 = ser.replies();
    proof {
        assert(h1.subrange(0, h1.len() as int) =~= h1);
        assert(r1.subrange(0, r1.len() as int) =~= r1);
        assert(pages_written(h1, data@, start_addr, use_4b, marks, offs));
    }
    while offset < total
        invariant
            offset <= total,
            total == data@.len(),
            start_addr + data@.len() <= u64::MAX,
            use_4b == (start_addr + data@.len() > 0x0100_0000),
            h0 == old(ser).history(),
            r0 == old(ser).replies(),
            h1.len() == h0.len() + 1,
            extends(h0, h1) && extends(r0, r1),
            r1.len() == r0.len() + 1,
            h1[h0.len() as int] == transfer(seq![0x05u8], 1),
            r1[r0.len() as int] == reply_of(Ok::<Vec<u8>, String>(sr)),
            sr@.len() > 0,
            !sr1_protected(sr@),
            extends(h1, ser.history()) && extends(r1, ser.replies()),
            pages_written(ser.history(), data@, start_addr, use_4b, marks, offs),
            marks[0] == h0.len() + 1,
            marks.last() == ser.history().len(),
            offs.last() == offset,
            offset == 0 ==> progress.reports() == old(progress).reports(),
            offset > 0 ==> ser.history().len() >= h0.len() + 4,
        decreases total - offset,
    {
        let addr = start_addr + offset as u64;
        let mw = ser.max_write();
        let room: usize = if mw > hdr_len { mw - hdr_len } else { 1 };
        let rest = total - offset;
        let chunk: usize = if rest < 256 { rest } else { 256 };
        let chunk: usize = if room < chunk { room } else { chunk };
        let ghost hs = ser.history();
        let ghost rs = ser.replies();
        let wren = [0x06u8];
        assert(wren@ =~= seq![0x06u8]);
        let w = ser.transact(&wren, 0);
        proof {
            lemma_extends_push(hs, transfer(wren@, 0), 0);
            lemma_extends_trans(h1, hs, ser.history());
            lemma_extends_push(rs, reply_of(w), 0);
            lemma_extends_trans(r1, rs, ser.replies());
            lemma_outcome_tail(h0, h1, ser.history(), r0, r1, ser.replies());
        }
        match w {
            Ok(_) => {},
            Err(e) => {
                return Err(e);
            },
        }
        let ghost ha = ser.history();
        let ghost ra = ser.replies();
        let frame = program_frame_at(addr, use_4b, data, offset, offset + chunk);
        let p = ser.transact(frame.as_slice(), 0);
        let ghost hb = ser.history();
        proof {
            lemma_extends_push(ha, transfer(frame@, 0), 0);
            lemma_extends_trans(h1, ha, ser.history());
            lemma_extends_trans(hs, ha, ser.history());
            lemma_extends_push(ra, reply_of(p), 0);
            lemma_extends_trans(r1, ra, ser.replies());
            lemma_outcome_tail(h0, h1, ser.history(), r0, r1, ser.replies());
        }
        match p {
            Ok(_) => {},
            Err(e) => {
                return Err(e);
            },
        }
        let ghost rb = ser.replies();
        let waited = serprog_wait_ready(ser, 100);
        let ghost hc = ser.history();
        proof {
            lemma_extends_trans(h1, hb, hc);
            lemma_extends_trans(hs, hb, hc);
            lemma_extends_trans(r1, rb, ser.replies());
            lemma_outcome_tail(h0, h1, ser.history(), r0, r1, ser.replies());
        }
        match waited {
            Ok(()) => {},
            Err(e) => {
                return Err(e);
            },
        }
        proof {
            lemma_pages_kept(hs, hc, data@, start_addr, use_4b, marks, offs);
            assert(hc[hs.len() as int] == hb[hs.len() as int]) by {
                assert(hc.subrange(0, hb.len() as int)[hs.len() as int] == hc[hs.len() as int]);
            }
            assert(hc[hs.len() + 1int] == hb[hs.len() + 1int]) by {
                assert(hc.subrange(0, hb.len() as int)[hs.len() + 1int] == hc[hs.len() + 1int]);
            }
            assert(frame@ == spec_nor_header(0x02, (start_addr + offs.last()) as u64, use_4b)
                + data@.subrange(offs.last(), offs.last() + chunk));
            lemma_pages_push(hc, data@, start_addr, use_4b, marks, offs, hc.len() as int, chunk as int);
            marks = marks.push(hc.len() as int);
            offs = offs.push(offset + chunk);
        }
        offset = offset + chunk;
        progress.report(offset as u64, total as u64);
    }
    proof {
        lemma_outcome_tail(h0, h1, ser.history(), r0, r1, ser.replies());
        assert(use_4b == past_16m(start_addr, data@.len()));
        assert(pages_written(ser.history(), data@, start_addr, past_16m(start_addr, data@.len()), marks, offs));
    }
    Ok(())
}

/// Write `data` at `start_addr` with the driver of `family` (not SPI NOR).
fn family_write<H: ProgrammerHal + ?Sized, P: ByteProgress, B: BlockProgress>(
    dev: &H,
    info: &ChipInfo,
    family: ProtocolFamily,
    data: &[u8],
    start_addr: u64,
    mode: NandBadBlockMode,
    force_segmented: bool,
    progress: &mut P,
    bad_block_progress: &mut B,
) -> (r: Result<String, String>)
    requires
        keys_unique(pairs_view(info.attrs@)),
        start_addr + data@.len() <= u64::MAX,
    ensures
        family == ProtocolFamily::SpiNor || family == ProtocolFamily::Unsupported ==> r is Err,
        data@.len() == 0 && (family == ProtocolFamily::I2c || (family == ProtocolFamily::SpiNand && mode == NandBadBlockMode::Ignore))
            ==> r is Ok,
{
    let params = ChipParams::from_info(info);
    let total = data.len();
    match family {
        ProtocolFamily::SpiEeprom => {
            let mut bus = Ch34xSpiBus::new(dev);
            crate::protocols::s95_write(&mut bus, &params, data, start_addr, progress)?;
        },
        ProtocolFamily::DataFlash => {
            let mut bus = Ch34xSpiBus::new(dev);
            crate::protocols::at45_write(&mut bus, &params, data, start_addr, progress)?;
        },
        ProtocolFamily::SpiNand => {
            let (skip, found, links) = nand_bad_blocks_for_mode(dev, &params, info.size, mode, bad_block_progress)?;
            nand_write(dev, &params, data, info.size, skip.as_slice(), mode, force_segmented, progress)?;
            if links > 0 {
                return Ok(crate::text::msg_usize2("写入完成，共 ", total, " 字节（已写入 ", links, " 条 BBM 坏块映射）"));
            }
            if found > 0 {
                return Ok(crate::text::msg_usize2("写入完成，共 ", total, " 字节（发现 ", found, " 个坏块，已跳过）"));
            }
        },
        ProtocolFamily::I2c => {
            let mut link = crate::protocols::I2cLink::new(dev);
            crate::protocols::i2c_write(&mut link, &params, data, start_addr, progress)?;
        },
        ProtocolFamily::Microwire => {
            check_mw_algorithm(&params)?;
            if total == usize::MAX {
                return Err("写入数据过长".to_string());
            }
            crate::protocols::mw_write(dev, &params, data, start_addr, progress)?;
        },
        _ => {
            return Err("该协议不走此写入路径".to_string());
        },
    }
    Ok(msg_usize("写入完成，共 ", total, " 字节"))
}

/// Write `data` at `start_addr`.
///
/// - A selected sidecar device (with a router) programs full pages.
/// - Without a CH34X programmer but with serprog: refused while SR1 has
///   block-protect bits; page programs of at most 256 bytes.
/// - A detected non-NOR chip is written by its family's driver (NAND with
///   the bad blocks handled as `bad_block_mode` says, segmented cache loads
///   when `force_segmented`); an unknown protocol is refused.
/// - Otherwise the CH34X programs SPI NOR pages, refused while SR1 has
///   block-protect bits.
pub fn write_chip<S: SpiBus + Clock, O: Ch34xOpener, C: AdapterClient, P: ByteProgress, B: BlockProgress>(
    state: &mut AppState<S>,
    port: &mut Ch34xPort<O>,
    data: &[u8],
    start_addr: u64,
    force_segmented: Option<bool>,
    bad_block_mode: Option<&str>,
    progress: &mut P,
    bad_block_progress: &mut B,
    router: Option<&mut HalRouter<C>>,
) -> (r: Result<String, String>)
    requires
        start_addr + data@.len() <= usize::MAX,
        detected_wf(*old(state)),
    ensures
        config_kept(*old(state), *final(state)),
        opens_kept(old(port).opens(), final(port).opens(), may_open(*old(state), router is Some)),
        sidecar_routed(*old(state), router is Some) ==> !has_pair(final(router->Some_0).session_list(),
            old(state).sidecar_adapter->0@, old(state).sidecar_device->0@),
        sidecar_routed(*old(state), router is Some) ==> routed_sent(*old(router->Some_0), *final(router->Some_0))
            == page_plan(data@, start_addr).take(routed_sent(*old(router->Some_0), *final(router->Some_0)).len() as int),
        sidecar_routed(*old(state), router is Some) && data@.len() > 0 && start_addr + data@.len() <= 0x100_0000 ==> (r is Ok <==>
            routed_sent(*old(router->Some_0), *final(router->Some_0)) == page_plan(data@, start_addr) && all_some(routed_heard(*old(router->Some_0), *final(router->Some_0)))),
        !sidecar_routed(*old(state), router is Some) && serprog_path(*old(state)) ==> {
            &&& write_outcome(old(state).serprog->0.history(), final(state).serprog->0.history(),
                old(state).serprog->0.replies(), final(state).serprog->0.replies(), data@, start_addr, r)
            &&& final(state).serprog->0.history().len() == old(state).serprog->0.history().len() + 1
                ==> final(progress).reports() == old(progress).reports()
            &&& r matches Ok(m) ==> m@ == "写入完成，共 "@ + crate::devcore::decimal(data@.len()) + " 字节"@
        },
        !sidecar_routed(*old(state), router is Some) && !serprog_path(*old(state)) ==> {
            &&& old(state).ch34x is None ==> r is Err
            &&& detected_family(*old(state)) == ProtocolFamily::Unsupported ==> r is Err
        },
{
    let selection = sidecar_selection(state);
    match router {
        Some(rt) => match selection {
            Some(sel) => {
                return sidecar_write_chip(rt, &sel, data, start_addr, progress);
            },
            None => {},
        },
        None => {},
    }
    let total = data.len();
    if state.ch34x.is_none() {
        match &mut state.serprog {
            Some(ser) => {
                return match serprog_write(ser, data, start_addr, progress) {
                    Ok(()) => Ok(msg_usize("写入完成，共 ", total, " 字节")),
                    Err(e) => Err(e),
                };
            },
            None => {},
        }
    }
    let family = family_of(&state.detected);
    match family {
        ProtocolFamily::SpiNor => {},
        ProtocolFamily::Unsupported => {
            return Err(unsupported(&state.detected, " 暂未实现"));
        },
        _ => {
            match &state.detected {
                Some(info) => {
                    let dev = open_ch34x_mode(state, port, bus_mode_for_protocol(info.protocol.as_str()))?;
                    let mode = parse_nand_bad_block_mode(bad_block_mode);
                    let segmented = match force_segmented {
                        Some(b) => b,
                        None => false,
                    };
                    return family_write(&dev, info, family, data, start_addr, mode, segmented, progress, bad_block_progress);
                },
                None => {},
            }
        },
    }
    let dev = open_ch34x(state, port)?;
    let params = nor_params_or_default(&state.detected, start_addr + total as u64 > 0x0100_0000);
    ch34x_nor_write(&dev, &params, data, start_addr, progress)?;
    Ok(msg_usize("写入完成，共 ", total, " 字节"))
}

/// Compare a read-back buffer with the expected data in 4 KiB blocks,
/// reporting progress after each block; the error names the first
/// differing address.
fn compare_blocks<P: ByteProgress>(data: &[u8], buf: &[u8], start_addr: u64, progress: &mut P) -> (r: Result<(), String>)
    requires
        buf@.len() == data@.len(),
        start_addr + data@.len() <= u64::MAX,
    ensures
        r is Ok <==> buf@ == data@,
{
    let n = buf.len();
    let mut offset: usize = 0;
    while offset < n
        invariant
            offset <= n,
            n == buf@.len(),
            n == data@.len(),
            start_addr + data@.len() <= u64::MAX,
            forall|j: int| 0 <= j < offset ==> buf@[j] == data@[j],
        decreases n - offset,
    {
        let end: usize = if n - offset < 4096 { n } else { offset + 4096 };
        let mut i: usize = offset;
        while i < end
            invariant
                offset <= i <= end,
                end <= n,
                n == buf@.len(),
                n == data@.len(),
                start_addr + data@.len() <= u64::MAX,
                forall|j: int| 0 <= j < i ==> buf@[j] == data@[j],
            decreases end - i,
        {
            if buf[i] != data[i] {
                return Err(msg_mismatch(start_addr + i as u64, data[i], buf[i]));
            }
            i = i + 1;
        }
        offset = end;
        progress.report(offset as u64, n as u64);
    }
    assert(buf@ =~= data@);
    Ok(())
}

/// Read back `data.len()` bytes at `start_addr` of a CH34X SPI NOR chip
/// frame by frame and compare.
fn ch34x_nor_verify<'a, H: ProgrammerHal + ?Sized, P: ByteProgress>(
    bus: &mut Ch34xSpiBus<'a, H>,
    params: &NorParams,
    data: &[u8],
    start_addr: u64,
    progress: &mut P,
) -> (r: Result<(), String>)
    requires
        start_addr + data@.len() <= u64::MAX,
    ensures
        read_run(old(bus).history(), final(bus).history(), old(bus).replies(), final(bus).replies(), 0x03u8, start_addr, params.addr4b),
        r is Ok ==> {
            let h = gained(old(bus).history(), final(bus).history());
            let rs = gained(old(bus).replies(), final(bus).replies());
            all_answered(h, rs) && asked(h) == data@.len() && replied(rs) == data@
        },
        ({
            let h = gained(old(bus).history(), final(bus).history());
            let rs = gained(old(bus).replies(), final(bus).replies());
            all_answered(h, rs) && replied(rs) != data@.take(replied(rs).len() as int)
        }) ==> r is Err && exists|k: int| #[trigger] first_difference(data@, replied(gained(old(bus).replies(), final(bus).replies())), k)
            && r->Err_0@ == crate::text::mismatch_text((start_addr + k) as u64, data@[k],
                replied(gained(old(bus).replies(), final(bus).replies()))[k]),
{
    proof {
        lemma_bus_start(*bus, 0x03u8, start_addr, params.addr4b);
        assert(data@.take(0) =~= Seq::<u8>::empty());
    }
    spi_wait_ready(bus.dev, 1000)?;
    if params.addr4b {
        spi_4byte_mode(bus.dev, params.alg, true)?;
    }
    let budget = nor_read_budget(bus.dev, params.addr4b)?;
    bus_verify(bus, 0x03, params.addr4b, budget, data, start_addr, progress)?;
    assert(data@.take(data@.len() as int) =~= data@);
    if params.addr4b {
        spi_4byte_mode(bus.dev, params.alg, false)?;
    }
    Ok(())
}

/// A chunk read back equal to `data` at `offset` extends the matching prefix.
proof fn lemma_chunk_same(data: Seq<u8>, buf: Seq<u8>, got: Seq<u8>, offset: int)
    requires
        0 <= offset,
        offset + buf.len() <= data.len(),
        got == data.take(offset) + buf,
        forall|i: int| 0 <= i < buf.len() ==> buf[i] == data[offset + i],
    ensures
        got == data.take(offset + buf.len()),
{
    assert(got =~= data.take(offset + buf.len()));
}

/// The first difference of a chunk read back at `offset` is the first
/// difference of everything read back so far.
proof fn lemma_chunk_differs(data: Seq<u8>, buf: Seq<u8>, got: Seq<u8>, offset: int, i: int)
    requires
        0 <= offset,
        offset + buf.len() <= data.len(),
        got == data.take(offset) + buf,
        0 <= i < buf.len(),
        buf[i] != data[offset + i],
        forall|j: int| 0 <= j < i ==> buf[j] == data[offset + j],
    ensures
        first_difference(data, got, offset + i),
        got[offset + i] == buf[i],
        got != data,
        got != data.take(got.len() as int),
{
    assert(got[offset + i] == buf[i]);
    assert forall|j: int| 0 <= j < offset + i implies data[j] == got[j] by {
        if j < offset {
            assert(got[j] == data.take(offset)[j]);
        } else {
            assert(got[j] == buf[j - offset]);
        }
    }
    assert(data.take(got.len() as int)[offset + i] == data[offset + i]);
}

/// Read back `data.len()` bytes at `start_addr` over a bus with `cmd` reads of
/// at most `chunk_max` bytes, and compare.
#[verifier::spinoff_prover]
#[verifier::rlimit(40)]
fn bus_verify<S: SpiBus, P: ByteProgress>(
    ser: &mut S,
    cmd: u8,
    four_byte: bool,
    chunk_max: u64,
    data: &[u8],
    start_addr: u64,
    progress: &mut P,
) -> (r: Result<(), String>)
    requires
        chunk_max >= 1,
        start_addr + data@.len() <= u64::MAX,
    ensures
        data@.len() == 0 ==> r is Ok,
        read_run(old(ser).history(), final(ser).history(), old(ser).replies(), final(ser).replies(),
            cmd, start_addr, four_byte),
        verify_outcome(gained(old(ser).history(), final(ser).history()), gained(old(ser).replies(), final(ser).replies()),
            start_addr, data@, r),
{
    let total = data.len() as u64;
    let mut offset: u64 = 0;
    let ghost h0 = ser.history();
    let ghost r0 = ser.replies();
    proof {
        assert(gained(h0, h0) =~= Seq::<SpiTransfer>::empty());
        assert(gained(r0, r0) =~= Seq::<Option<Seq<u8>>>::empty());
        assert(h0.subrange(0, h0.len() as int) =~= h0);
        assert(r0.subrange(0, r0.len() as int) =~= r0);
        assert(data@.take(0) =~= Seq::<u8>::empty());
    }
    while offset < total
        invariant
            offset <= total,
            total == data@.len(),
            total <= usize::MAX,
            start_addr + data@.len() <= u64::MAX,
            chunk_max >= 1,
            h0 == old(ser).history(),
            r0 == old(ser).replies(),
            read_run(h0, ser.history(), r0, ser.replies(), cmd, start_addr, four_byte),
            all_answered(gained(h0, ser.history()), gained(r0, ser.replies())),
            asked(gained(h0, ser.history())) == offset,
            replied(gained(r0, ser.replies())) == data@.take(offset as int),
        decreases total - offset,
    {
        let addr = start_addr + offset;
        let chunk: u64 = if total - offset < chunk_max { total - offset } else { chunk_max };
        let hdr = nor_header(cmd, addr, four_byte);
        let ghost hb = ser.history();
        let ghost rb = ser.replies();
        assert(chunk <= total);
        let len: usize = chunk as usize;
        let res = ser.transact(hdr.as_slice(), len);
        proof {
            lemma_run_push(h0, hb, r0, rb, cmd, start_addr, four_byte, transfer(hdr@, chunk as nat), reply_of(res));
            if !answered(reply_of(res), chunk as nat) {
                lemma_unanswered(gained(h0, hb), gained(r0, rb), transfer(hdr@, chunk as nat), reply_of(res));
            }
        }
        let buf = match res {
            Ok(d) => d,
            Err(e) => {
                return Err(msg_at("校验读取失败", addr, e.as_str()));
            },
        };
        if buf.len() != chunk as usize {
            return Err(msg_len_at("serprog 读取长度不符", addr, chunk as usize, buf.len()));
        }
        proof {
            lemma_answered_push(gained(h0, hb), gained(r0, rb), transfer(hdr@, chunk as nat), buf@);
        }
        let same = compare_at(data, offset as usize, buf.as_slice(), addr);
        proof {
            let got = replied(gained(r0, ser.replies()));
            assert(got == data@.take(offset as int) + buf@);
            if same is Err {
                let i = choose|i: int| 0 <= i < buf@.len() && buf@[i] != data@[offset + i]
                    && (forall|j: int| 0 <= j < i ==> buf@[j] == data@[offset + j])
                    && same->Err_0@ == crate::text::mismatch_text((addr + i) as u64, data@[offset + i], buf@[i]);
                lemma_chunk_differs(data@, buf@, got, offset as int, i);
            } else {
                lemma_chunk_same(data@, buf@, got, offset as int);
            }
        }
        same?;
        offset = offset + chunk;
        progress.report(offset, total);
    }
    assert(data@.take(total as int) =~= data@);
    Ok(())
}

/// Read back `data.len()` bytes at `start_addr` over serprog and compare.
fn serprog_verify<S: SpiBus, P: ByteProgress>(
    ser: &mut S,
    data: &[u8],
    start_addr: u64,
    progress: &mut P,
) -> (r: Result<(), String>)
    requires
        start_addr + data@.len() <= u64::MAX,
    ensures
        data@.len() == 0 ==> r is Ok,
        read_run(old(ser).history(), final(ser).history(), old(ser).replies(), final(ser).replies(),
            if start_addr + data@.len() > 0x0100_0000 { 0x13u8 } else { 0x03u8 }, start_addr, start_addr + data@.len() > 0x0100_0000),
        verify_outcome(gained(old(ser).history(), final(ser).history()), gained(old(ser).replies(), final(ser).replies()),
            start_addr, data@, r),
{
    let four_byte = start_addr + data.len() as u64 > 0x0100_0000;
    let cmd: u8 = if four_byte { 0x13 } else { 0x03 };
    let m = ser.max_read();
    let chunk_max: u64 = if m == 0 { 1 } else if m < 4096 { m as u64 } else { 4096 };
    bus_verify(ser, cmd, four_byte, chunk_max, data, start_addr, progress)
}

/// Verify the chip against `data` at `start_addr`.
///
/// - A selected sidecar device (with a router) reads back and compares.
/// - Without a CH34X programmer but with serprog: read back and compare.
/// - A detected non-NOR chip is read back by its family's driver and
///   compared (a length mismatch is an error); an empty read-back falls
///   through to the SPI NOR path. An unknown protocol is refused.
/// - Otherwise the CH34X reads SPI NOR back frame by frame and compares.
///
/// The error of a mismatch names the first differing address.
pub fn verify_chip<S: SpiBus + Clock, O: Ch34xOpener, C: AdapterClient, P: ByteProgress, B: BlockProgress>(
    state: &mut AppState<S>,
    port: &mut Ch34xPort<O>,
    data: &[u8],
    start_addr: u64,
    bad_block_mode: Option<&str>,
    progress: &mut P,
    bad_block_progress: &mut B,
    router: Option<&mut HalRouter<C>>,
) -> (r: Result<String, String>)
    requires
        start_addr + data@.len() <= usize::MAX,
        detected_wf(*old(state)),
    ensures
        config_kept(*old(state), *final(state)),
        !may_open(*old(state), router is Some) ==> final(port).opens() == old(port).opens(),
        sidecar_routed(*old(state), router is Some) ==> !has_pair(final(router->Some_0).session_list(),
            old(state).sidecar_adapter->0@, old(state).sidecar_device->0@),
        sidecar_routed(*old(state), router is Some) && data@.len() > 0 && start_addr + data@.len() <= 0x100_0000 ==> verify_outcome(
            routed_sent(*old(router->Some_0), *final(router->Some_0)), routed_heard(*old(router->Some_0), *final(router->Some_0)), start_addr, data@, r),
        sidecar_routed(*old(state), router is Some) ==> (r matches Ok(m) ==> m@ == "校验通过（sidecar）"@),
        !sidecar_routed(*old(state), router is Some) ==> {
            &&& (r matches Ok(m) ==> m@ == "校验通过"@)
            &&& serprog_path(*old(state)) && data@.len() == 0 ==> r is Ok
            &&& serprog_path(*old(state)) ==> {
                &&& serprog_read_run(*old(state), *final(state), start_addr, start_addr + data@.len() > 0x0100_0000)
                &&& verify_outcome(serprog_sent(*old(state), *final(state)), serprog_heard(*old(state), *final(state)),
                    start_addr, data@, r)
            }
            &&& !serprog_path(*old(state)) && old(state).ch34x is None ==> r is Err
            &&& !serprog_path(*old(state)) && detected_family(*old(state)) == ProtocolFamily::Unsupported ==> r is Err
        },
{
    let selection = sidecar_selection(state);
    match router {
        Some(rt) => match selection {
            Some(sel) => {
                return sidecar_verify_chip(rt, &sel, data, start_addr, progress);
            },
            None => {},
        },
        None => {},
    }
    let total = data.len() as u64;
    if state.ch34x.is_none() {
        match &mut state.serprog {
            Some(ser) => {
                return match serprog_verify(ser, data, start_addr, progress) {
                    Ok(()) => Ok(String::from_str("校验通过")),
                    Err(e) => Err(e),
                };
            },
            None => {},
        }
    }
    let family = family_of(&state.detected);
    match family {
        ProtocolFamily::SpiNor => {},
        ProtocolFamily::Unsupported => {
            return Err(unsupported(&state.detected, " 暂未实现"));
        },
        _ => {
            match &state.detected {
                Some(info) => {
                    let dev = open_ch34x_mode(state, port, bus_mode_for_protocol(info.protocol.as_str()))?;
                    let mode = parse_nand_bad_block_mode(bad_block_mode);
                    let mut quiet = NoProgress::new();
                    let buf = family_read(&dev, info, family, start_addr, total, mode, &mut quiet, bad_block_progress)?;
                    if buf.len() > 0 {
                        if buf.len() != data.len() {
                            return Err(msg_usize2("校验读取长度不符: 预期 ", data.len(), " 实际 ", buf.len(), ""));
                        }
                        compare_blocks(data, buf.as_slice(), start_addr, progress)?;
                        return Ok(String::from_str("校验通过"));
                    }
                },
                None => {},
            }
        },
    }
    let dev = open_ch34x(state, port)?;
    let params = nor_params_or_default(&state.detected, start_addr + total > 0x0100_0000);
    let mut bus = Ch34xSpiBus::new(&dev);
    ch34x_nor_verify(&mut bus, &params, data, start_addr, progress)?;
    Ok(String::from_str("校验通过"))
}

/// The blank-check result of a buffer read from `start_addr`.
fn blank_of(data: &[u8], start_addr: u64) -> (b: BlankCheckResult)
    requires
        start_addr + data@.len() <= u64::MAX,
    ensures
        blank_result_ok(b, start_addr),
        b.blank ==> b.checked == data@.len(),
        b.blank <==> forall|j: int| 0 <= j < data@.len() ==> data@[j] == 0xFF,
        !b.blank ==> first_non_ff_at(data@, b.checked as int),
{
    match first_non_blank_byte(data, start_addr) {
        Some(pos) => BlankCheckResult { blank: false, checked: pos - start_addr, first_non_blank: Some(pos) },
        None => BlankCheckResult { blank: true, checked: data.len() as u64, first_non_blank: None },
    }
}

/// `k` is the first position of `got` that does not hold `0xFF`.
pub open spec fn first_non_ff_at(got: Seq<u8>, k: int) -> bool {
    &&& 0 <= k < got.len()
    &&& got[k] != 0xFF
    &&& forall|j: int| 0 <= j < k ==> got[j] == 0xFF
}

/// What a streamed blank check over a bus found: a result exactly when every
/// read came back whole; blank when all `total` bytes read back are `0xFF`,
/// else the first byte that is not, with the count checked before it.
pub open spec fn blank_outcome(h: Seq<SpiTransfer>, rs: Seq<Option<Seq<u8>>>, start: u64, total: u64,
    r: Result<BlankCheckResult, String>) -> bool {
    &&& (r is Ok <==> all_answered(h, rs))
    &&& r matches Ok(b) ==> blank_found(h, rs, start, total, b)
}

/// What a blank check found in the replies `rs` of the reads `h`: blank
/// when all `total` bytes read back are `0xFF`, else the first byte that is
/// not, with the count checked before it.
pub open spec fn blank_found(h: Seq<SpiTransfer>, rs: Seq<Option<Seq<u8>>>, start: u64, total: u64, b: BlankCheckResult) -> bool {
    &&& all_answered(h, rs)
    &&& blank_result_ok(b, start)
    &&& asked(h) <= total
    &&& b.blank ==> {
        &&& asked(h) == total && b.checked == total
        &&& replied(rs).len() == total
        &&& forall|j: int| 0 <= j < replied(rs).len() ==> replied(rs)[j] == 0xFF
    }
    &&& !b.blank ==> first_non_ff_at(replied(rs), b.checked as int)
}

/// A blank check reports what the chip holds: when every reply is the
/// chip's contents, the check succeeds; it is blank exactly when all of
/// `[start, start + total)` is `0xFF`, and otherwise reports the first
/// address there that is not.
pub proof fn law_blank_from_contents(h: Seq<SpiTransfer>, rs: Seq<Option<Seq<u8>>>, start: u64, total: u64, mem: Seq<u8>,
    r: Result<BlankCheckResult, String>)
    requires
        blank_outcome(h, rs, start, total, r),
        answers_from(h, rs, start as int, mem),
        start + total <= mem.len(),
    ensures
        r is Ok,
        r->Ok_0.blank <==> forall|j: int| start <= j < start + total ==> mem[j] == 0xFF,
        !r->Ok_0.blank ==> (r->Ok_0.first_non_blank matches Some(p) && start <= p < start + total && mem[p as int] != 0xFF
            && forall|j: int| start <= j < p ==> mem[j] == 0xFF),
{
    lemma_replied_contents(h, rs, start as int, mem);
    let got = replied(rs);
    let b = r->Ok_0;
    assert forall|j: int| 0 <= j < got.len() implies got[j] == mem[start + j] by {}
    if b.blank {
        assert forall|j: int| start <= j < start + total implies mem[j] == 0xFF by {
            assert(got[j - start] == mem[j]);
        }
    } else {
        let k = b.checked as int;
        assert(got[k] == mem[start + k]);
        assert forall|j: int| start <= j < start + k implies mem[j] == 0xFF by {
            assert(got[j - start] == mem[j]);
        }
    }
}

/// Stream a blank check of `total` bytes at `start_addr` over a bus with
/// `cmd` reads of at most `chunk_max` bytes, stopping at the first non-`0xFF` byte.
#[verifier::spinoff_prover]
#[verifier::rlimit(40)]
fn bus_blank_check<S: SpiBus, P: ByteProgress>(
    ser: &mut S,
    cmd: u8,
    four_byte: bool,
    chunk_max: u64,
    start_addr: u64,
    total: u64,
    progress: &mut P,
) -> (r: Result<BlankCheckResult, String>)
    requires
        chunk_max >= 1,
        start_addr + total <= u64::MAX,
        total <= usize::MAX,
    ensures
        r matches Ok(b) ==> blank_result_ok(b, start_addr) && b.checked <= total && (b.blank ==> b.checked == total),
        total == 0 ==> (r matches Ok(b) && b.blank && b.checked == 0),
        read_run(old(ser).history(), final(ser).history(), old(ser).replies(), final(ser).replies(),
            cmd, start_addr, four_byte),
        blank_outcome(gained(old(ser).history(), final(ser).history()), gained(old(ser).replies(), final(ser).replies()),
            start_addr, total, r),
{
    let mut offset: u64 = 0;
    let ghost h0 = ser.history();
    let ghost r0 = ser.replies();
    proof {
        assert(gained(h0, h0) =~= Seq::<SpiTransfer>::empty());
        assert(gained(r0, r0) =~= Seq::<Option<Seq<u8>>>::empty());
        assert(h0.subrange(0, h0.len() as int) =~= h0);
        assert(r0.subrange(0, r0.len() as int) =~= r0);
    }
    while offset < total
        invariant
            offset <= total,
            total <= usize::MAX,
            start_addr + total <= u64::MAX,
            chunk_max >= 1,
            h0 == old(ser).history(),
            r0 == old(ser).replies(),
            read_run(h0, ser.history(), r0, ser.replies(), cmd, start_addr, four_byte),
            all_answered(gained(h0, ser.history()), gained(r0, ser.replies())),
            asked(gained(h0, ser.history())) == offset,
            replied(gained(r0, ser.replies())).len() == offset,
            forall|j: int| 0 <= j < offset ==> #[trigger] replied(gained(r0, ser.replies()))[j] == 0xFF,
        decreases total - offset,
    {
        let addr = start_addr + offset;
        let chunk: u64 = if total - offset < chunk_max { total - offset } else { chunk_max };
        let hdr = nor_header(cmd, addr, four_byte);
        let ghost hb = ser.history();
        let ghost rb = ser.replies();
        let res = ser.transact(hdr.as_slice(), chunk as usize);
        proof {
            lemma_run_push(h0, hb, r0, rb, cmd, start_addr, four_byte, transfer(hdr@, chunk as nat), reply_of(res));
            if !answered(reply_of(res), chunk as nat) {
                lemma_unanswered(gained(h0, hb), gained(r0, rb), transfer(hdr@, chunk as nat), reply_of(res));
            }
        }
        let data = match res {
            Ok(d) => d,
            Err(e) => {
                return Err(msg_at("查空读取失败", addr, e.as_str()));
            },
        };
        if data.len() != chunk as usize {
            return Err(msg_len_at("查空读取长度不符", addr, chunk as usize, data.len()));
        }
        proof {
            lemma_answered_push(gained(h0, hb), gained(r0, rb), transfer(hdr@, chunk as nat), data@);
        }
        let ghost prev = replied(gained(r0, rb));
        let ghost got = replied(gained(r0, ser.replies()));
        assert(got == prev + data@);
        match first_non_blank_byte(data.as_slice(), addr) {
            Some(pos) => {
                proof {
                    let k = offset + (pos - addr);
                    assert(got[k] == data@[pos - addr]);
                    assert forall|j: int| 0 <= j < k implies got[j] == 0xFF by {
                        if j < offset {
                            assert(got[j] == prev[j]);
                        } else {
                            assert(got[j] == data@[j - offset]);
                        }
                    }
                }
                return Ok(BlankCheckResult { blank: false, checked: offset + (pos - addr), first_non_blank: Some(pos) });
            },
            None => {
                proof {
                    assert forall|j: int| 0 <= j < offset + chunk implies #[trigger] got[j] == 0xFF by {
                        if j < offset {
                            assert(got[j] == prev[j]);
                        } else {
                            assert(got[j] == data@[j - offset]);
                        }
                    }
                }
            },
        }
        offset = offset + chunk;
        progress.report(offset, total);
    }
    Ok(BlankCheckResult { blank: true, checked: total, first_non_blank: None })
}

/// Stream a blank check of `total` bytes at `start_addr` over serprog,
/// stopping at the first non-`0xFF` byte.
fn serprog_blank_check<S: SpiBus, P: ByteProgress>(
    ser: &mut S,
    four_byte: bool,
    start_addr: u64,
    total: u64,
    progress: &mut P,
) -> (r: Result<BlankCheckResult, String>)
    requires
        start_addr + total <= u64::MAX,
        total <= usize::MAX,
    ensures
        r matches Ok(b) ==> blank_result_ok(b, start_addr) && b.checked <= total && (b.blank ==> b.checked == total),
        total == 0 ==> (r matches Ok(b) && b.blank && b.checked == 0),
        read_run(old(ser).history(), final(ser).history(), old(ser).replies(), final(ser).replies(),
            if four_byte { 0x13u8 } else { 0x03u8 }, start_addr, four_byte),
        blank_outcome(gained(old(ser).history(), final(ser).history()), gained(old(ser).replies(), final(ser).replies()),
            start_addr, total, r),
{
    let cmd: u8 = if four_byte { 0x13 } else { 0x03 };
    let m = ser.max_read();
    let chunk_max: u64 = if m == 0 { 1 } else if m < 4096 { m as u64 } else { 4096 };
    bus_blank_check(ser, cmd, four_byte, chunk_max, start_addr, total, progress)
}

/// Stream a blank check of `total` bytes at `start_addr` of a CH34X SPI NOR
/// chip frame by frame, stopping at the first non-`0xFF` byte; 4-byte mode
/// is left again on either exit.
fn ch34x_nor_blank_check<'a, H: ProgrammerHal + ?Sized, P: ByteProgress>(
    bus: &mut Ch34xSpiBus<'a, H>,
    params: &NorParams,
    start_addr: u64,
    total: u64,
    progress: &mut P,
) -> (r: Result<BlankCheckResult, String>)
    requires
        start_addr + total <= u64::MAX,
        total <= usize::MAX,
    ensures
        r matches Ok(b) ==> blank_result_ok(b, start_addr) && b.checked <= total && (b.blank ==> b.checked == total),
        read_run(old(bus).history(), final(bus).history(), old(bus).replies(), final(bus).replies(), 0x03u8, start_addr, params.addr4b),
        r matches Ok(b) ==> blank_found(gained(old(bus).history(), final(bus).history()), gained(old(bus).replies(), final(bus).replies()),
            start_addr, total, b),
{
    proof { lemma_bus_start(*bus, 0x03u8, start_addr, params.addr4b); }
    spi_wait_ready(bus.dev, 1000)?;
    if params.addr4b {
        spi_4byte_mode(bus.dev, params.alg, true)?;
    }
    let budget = nor_read_budget(bus.dev, params.addr4b)?;
    let b = bus_blank_check(bus, 0x03, params.addr4b, budget, start_addr, total, progress)?;
    if params.addr4b {
        spi_4byte_mode(bus.dev, params.alg, false)?;
    }
    Ok(b)
}

/// Blank-check the chip from `start_addr` up to `size`: find the first byte
/// that is not `0xFF`.
///
/// - A selected sidecar device (with a router) reads `[start_addr, size)`
///   and scans it.
/// - Nothing to check (`size <= start_addr`) is blank.
/// - Serprog and CH34X SPI NOR stream the range and stop at the first
///   non-blank byte.
/// - A detected non-NOR chip (up to 256 MiB) is read by its family's driver
///   and scanned; an unknown protocol is refused.
pub fn blank_check<S: SpiBus + Clock, O: Ch34xOpener, C: AdapterClient, P: ByteProgress, B: BlockProgress>(
    state: &mut AppState<S>,
    port: &mut Ch34xPort<O>,
    size: u64,
    start_addr: u64,
    bad_block_mode: Option<&str>,
    progress: &mut P,
    bad_block_progress: &mut B,
    router: Option<&mut HalRouter<C>>,
) -> (r: Result<BlankCheckResult, String>)
    requires
        size <= usize::MAX,
        start_addr + size <= u64::MAX,
        detected_wf(*old(state)),
    ensures
        config_kept(*old(state), *final(state)),
        opens_kept(old(port).opens(), final(port).opens(), may_open(*old(state), router is Some)),
        r matches Ok(b) ==> blank_result_ok(b, start_addr),
        sidecar_routed(*old(state), router is Some) && size > start_addr && size <= 0x100_0000 ==> blank_outcome(
            routed_sent(*old(router->Some_0), *final(router->Some_0)), routed_heard(*old(router->Some_0), *final(router->Some_0)),
            start_addr, span(size, start_addr), r),
        !sidecar_routed(*old(state), router is Some) ==> {
            &&& size <= start_addr ==> (r matches Ok(b) && b.blank && b.checked == 0)
            &&& serprog_path(*old(state)) && size > start_addr ==> {
                &&& serprog_read_run(*old(state), *final(state), start_addr, size > 0x0100_0000)
                &&& blank_outcome(serprog_sent(*old(state), *final(state)), serprog_heard(*old(state), *final(state)),
                    start_addr, span(size, start_addr), r)
            }
            &&& (serprog_path(*old(state)) || detected_family(*old(state)) == ProtocolFamily::SpiNor)
                ==> (r matches Ok(b) ==> (b.blank ==> b.checked == span(size, start_addr)))
            &&& size > start_addr && !serprog_path(*old(state)) && old(state).ch34x is None ==> r is Err
            &&& size > start_addr && !serprog_path(*old(state)) && detected_family(*old(state)) == ProtocolFamily::Unsupported ==> r is Err
        },
{
    let selection = sidecar_selection(state);
    match router {
        Some(rt) => match selection {
            Some(sel) => {
                let total: u64 = if size > start_addr { size - start_addr } else { 0 };
                let data = sidecar_read_range(rt, &sel, start_addr, total, progress)?;
                return Ok(blank_of(data.as_slice(), start_addr));
            },
            None => {},
        },
        None => {},
    }
    let total: u64 = if size > start_addr { size - start_addr } else { 0 };
    if total == 0 {
        return Ok(BlankCheckResult { blank: true, checked: 0, first_non_blank: None });
    }
    if state.ch34x.is_none() {
        match &mut state.serprog {
            Some(ser) => {
                return serprog_blank_check(ser, size > 0x0100_0000, start_addr, total, progress);
            },
            None => {},
        }
    }
    let family = family_of(&state.detected);
    match family {
        ProtocolFamily::SpiNor => {},
        _ => {
            match &state.detected {
                Some(info) => {
                    if size > 256 * 1024 * 1024 {
                        return Err(crate::text::msg_join3("", info.protocol.as_str(), " 协议查空暂不支持超过 256 MiB"));
                    }
                    if family == ProtocolFamily::Unsupported {
                        return Err(unsupported(&state.detected, " 暂未实现查空"));
                    }
                    let dev = open_ch34x_mode(state, port, bus_mode_for_protocol(info.protocol.as_str()))?;
                    let mode = parse_nand_bad_block_mode(bad_block_mode);
                    let data = family_read(&dev, info, family, start_addr, size, mode, progress, bad_block_progress)?;
                    return Ok(blank_of(data.as_slice(), start_addr));
                },
                None => {},
            }
        },
    }
    let params = nor_params_or_default(&state.detected, size > 0x0100_0000);
    let dev = open_ch34x(state, port)?;
    let mut bus = Ch34xSpiBus::new(&dev);
    ch34x_nor_blank_check(&mut bus, &params, start_addr, total, progress)
}

/// Forwards NAND block-erase progress as erase reports.
struct NandEraseReport<'a, E: EraseSink> {
    sink: &'a mut E,
    seen: Ghost<Seq<(u32, u32)>>,
}

impl<'a, E: EraseSink> BlockProgress for NandEraseReport<'a, E> {
    closed spec fn block_reports(&self) -> Seq<(u32, u32)> {
        self.seen@
    }

    fn report(&mut self, done: u32, total: u32) {
        proof {
            self.seen@ = self.seen@.push((done, total));
        }
        self.sink.report(EraseProgress {
            done: done as u64,
            total: total as u64,
            phase: String::from_str("erase"),
            message: msg_fraction("SPI NAND 块擦除 ", done as u64, total as u64, ""),
            elapsed_ms: None,
        });
    }
}

/// Forwards I2C byte progress as erase reports.
struct I2cEraseReport<'a, E: EraseSink> {
    sink: &'a mut E,
    seen: Ghost<Seq<(u64, u64)>>,
}

impl<'a, E: EraseSink> ByteProgress for I2cEraseReport<'a, E> {
    closed spec fn reports(&self) -> Seq<(u64, u64)> {
        self.seen@
    }

    fn report(&mut self, done: u64, total: u64) {
        proof {
            self.seen@ = self.seen@.push((done, total));
        }
        self.sink.report(EraseProgress {
            done,
            total,
            phase: String::from_str("erase"),
            message: msg_fraction("I2C 擦除 ", done, total, " 字节"),
            elapsed_ms: None,
        });
    }
}

/// Full-chip erase of a CH34X SPI NOR chip: wait, WREN, clear block
/// protection, WREN, `C7h`, then wait (up to two minutes, reporting the
/// elapsed time) and WRDI.
fn ch34x_nor_erase<H: ProgrammerHal + ?Sized, E: EraseSink>(dev: &H, sink: &mut E) -> Result<(), String> {
    report_step(sink, 0, 0, "prepare", "等待芯片就绪...");
    spi_wait_ready(dev, 2000)?;
    report_step(sink, 0, 0, "prepare", "写使能 (WREN)...");
    spi_write_enable(dev)?;
    report_step(sink, 0, 0, "prepare", "解除写保护...");
    spi_unprotect(dev)?;
    report_step(sink, 0, 0, "prepare", "再次写使能 (WREN)...");
    spi_write_enable(dev)?;
    report_step(sink, 0, 0, "erase", "已发送全片擦除命令 (C7h)，芯片内部擦除中...");
    dev.cs_low()?;
    dev.spi_tx(&[0xC7])?;
    dev.cs_high()?;
    wait_ready_reporting(dev, 120_000, "erase", "全片擦除中", sink)?;
    spi_write_disable(dev)?;
    report_done(sink);
    Ok(())
}

/// Erase a chip of `family` (not SPI NOR) with its family's driver.
fn family_erase<H: ProgrammerHal + ?Sized, E: EraseSink, B: BlockProgress>(
    dev: &H,
    info: &ChipInfo,
    family: ProtocolFamily,
    mode: NandBadBlockMode,
    sink: &mut E,
    bad_block_progress: &mut B,
) -> (r: Result<String, String>)
    requires
        keys_unique(pairs_view(info.attrs@)),
    ensures
        family == ProtocolFamily::SpiNor || family == ProtocolFamily::Unsupported ==> r is Err,
        family != ProtocolFamily::SpiNand ==> (r matches Ok(m) ==> m@ == "全片擦除完成"@),
        info.size == 0 && (family == ProtocolFamily::I2c || (family == ProtocolFamily::SpiNand && mode == NandBadBlockMode::Ignore))
            ==> r is Ok,
{
    let params = ChipParams::from_info(info);
    match family {
        ProtocolFamily::SpiEeprom => {
            report_step(sink, 0, 0, "erase", "EEPROM 全片擦除中...");
            crate::protocols::s95_erase(dev)?;
        },
        ProtocolFamily::DataFlash => {
            report_step(sink, 0, 0, "erase", "DataFlash 全片擦除中...");
            crate::protocols::at45_erase(dev)?;
        },
        ProtocolFamily::SpiNand => {
            report_step(sink, 0, 0, "bad_block", "正在扫描坏块...");
            let (skip, _found, links) = nand_bad_blocks_for_mode(dev, &params, info.size, mode, bad_block_progress)?;
            let mut rep = NandEraseReport { sink: &mut *sink, seen: Ghost(Seq::empty()) };
            nand_erase(dev, &params, info.size, skip.as_slice(), &mut rep)?;
            report_done(sink);
            if links > 0 {
                return Ok(msg_usize("全片擦除完成（已写入 ", links, " 条 BBM 坏块映射）"));
            }
            return Ok(String::from_str("全片擦除完成"));
        },
        ProtocolFamily::I2c => {
            report_step(sink, 0, 0, "erase", "I2C 芯片擦除中（写 0xFF）...");
            if info.size as u128 > usize::MAX as u128 {
                return Err("芯片容量超出可寻址范围".to_string());
            }
            let mut rep = I2cEraseReport { sink: &mut *sink, seen: Ghost(Seq::empty()) };
            let mut link = crate::protocols::I2cLink::new(dev);
            crate::protocols::i2c_erase(&mut link, &params, info.size, &mut rep)?;
        },
        ProtocolFamily::Microwire => {
            report_step(sink, 0, 0, "erase", "Microwire 全片擦除中...");
            check_mw_algorithm(&params)?;
            crate::protocols::mw_erase(dev, &params)?;
        },
        _ => {
            return Err("该协议不走此擦除路径".to_string());
        },
    }
    report_done(sink);
    Ok(String::from_str("全片擦除完成"))
}

/// The erase reports of a serprog chip erase: preparing WREN, the erase
/// command sent, done.
pub open spec fn erase_phases(before: Seq<EraseProgress>, after: Seq<EraseProgress>) -> bool {
    let g = gained(before, after);
    &&& extends(before, after)
    &&& g.len() == 3
    &&& erase_step(g[0], 0, 0, "prepare"@, "写使能 (WREN)..."@)
    &&& erase_step(g[1], 0, 0, "erase"@, "已发送全片擦除命令 (C7h)，芯片内部擦除中..."@)
    &&& erase_step(g[2], 1, 1, "done"@, "全片擦除完成"@)
}

/// The transfers of a serprog chip erase, as far as they went: WREN, then
/// `C7h`, then status polls (`05h`).
pub open spec fn erase_shape(g: Seq<SpiTransfer>) -> bool {
    &&& g.len() >= 1
    &&& g[0] == transfer(seq![0x06u8], 0)
    &&& g.len() >= 2 ==> g[1] == transfer(seq![0xC7u8], 0)
    &&& forall|i: int| 2 <= i < g.len() ==> #[trigger] g[i] == transfer(seq![0x05u8], 1)
}

/// Erase the whole chip over serprog: WREN, `C7h`, then wait up to two
/// minutes for the chip to finish.
fn serprog_erase<S: SpiBus + Clock, E: EraseSink>(ser: &mut S, erase_progress: &mut E) -> (r: Result<String, String>)
    ensures
        extends(old(ser).history(), final(ser).history()),
        erase_shape(gained(old(ser).history(), final(ser).history())),
        r is Ok ==> gained(old(ser).history(), final(ser).history()).len() >= 3,
        r matches Ok(m) ==> m@ == "全片擦除完成"@,
        r is Ok ==> erase_phases(old(erase_progress).erase_reports(), final(erase_progress).erase_reports()),
{
    let ghost e0 = erase_progress.erase_reports();
    let ghost h0 = ser.history();
    report_step(erase_progress, 0, 0, "prepare", "写使能 (WREN)...");
    let wren = [0x06u8];
    assert(wren@ =~= seq![0x06u8]);
    let w = ser.transact(&wren, 0);
    let ghost h1 = ser.history();
    proof {
        lemma_extends_push(h0, transfer(wren@, 0), 0);
        assert(gained(h0, h1) =~= seq![transfer(seq![0x06u8], 0)]);
    }
    match w {
        Ok(_) => {},
        Err(e) => {
            return Err(e);
        },
    }
    report_step(erase_progress, 0, 0, "erase", "已发送全片擦除命令 (C7h)，芯片内部擦除中...");
    let ce = [0xC7u8];
    assert(ce@ =~= seq![0xC7u8]);
    let c = ser.transact(&ce, 0);
    let ghost h2 = ser.history();
    proof {
        lemma_extends_push(h1, transfer(ce@, 0), 0);
        lemma_extends_trans(h0, h1, h2);
        assert(gained(h0, h2) =~= seq![transfer(seq![0x06u8], 0), transfer(seq![0xC7u8], 0)]);
    }
    match c {
        Ok(_) => {},
        Err(e) => {
            return Err(e);
        },
    }
    let waited = serprog_wait_ready(ser, 120_000);
    let ghost h3 = ser.history();
    proof {
        lemma_extends_trans(h0, h2, h3);
        let g = gained(h0, h3);
        assert forall|i: int| 0 <= i < 2 implies g[i] == gained(h0, h2)[i] by {
            assert(h3.subrange(0, h2.len() as int)[h0.len() + i] == h3[h0.len() + i]);
        }
        assert forall|i: int| 2 <= i < g.len() implies #[trigger] g[i] == transfer(seq![0x05u8], 1) by {
            assert(g[i] == h3[h0.len() + i]);
        }
    }
    match waited {
        Ok(()) => {},
        Err(e) => {
            return Err(e);
        },
    }
    report_done(erase_progress);
    proof {
        let g = gained(e0, erase_progress.erase_reports());
        assert(erase_progress.erase_reports().subrange(0, e0.len() as int) =~= e0);
        assert(g.len() == 3);
        assert(g[0] == erase_progress.erase_reports()[e0.len() as int]);
    }
    Ok(String::from_str("全片擦除完成"))
}

/// Erase the whole chip.
///
/// - A selected sidecar device (with a router) gets a chip erase.
/// - With a CH34X programmer: SPI NOR (also when nothing is detected) is
///   erased with `C7h` after clearing block protection; other detected
///   families use their driver (NAND erases every good block, bad blocks
///   handled as `bad_block_mode` says); an unknown protocol is refused.
/// - Otherwise serprog sends WREN and `C7h` and waits up to two minutes.
/// - Without any programmer the erase is refused.
pub fn chip_erase<S: SpiBus + Clock, O: Ch34xOpener, C: AdapterClient, E: EraseSink, B: BlockProgress>(
    state: &mut AppState<S>,
    port: &mut Ch34xPort<O>,
    bad_block_mode: Option<&str>,
    erase_progress: &mut E,
    bad_block_progress: &mut B,
    router: Option<&mut HalRouter<C>>,
) -> (r: Result<String, String>)
    requires
        detected_wf(*old(state)),
    ensures
        config_kept(*old(state), *final(state)),
        opens_kept(old(port).opens(), final(port).opens(), may_open(*old(state), router is Some)),
        sidecar_routed(*old(state), router is Some) ==> !has_pair(final(router->Some_0).session_list(),
            old(state).sidecar_adapter->0@, old(state).sidecar_device->0@),
        sidecar_routed(*old(state), router is Some) ==> {
            let g = routed_sent(*old(router->Some_0), *final(router->Some_0));
            &&& g.len() >= 1 && g.len() <= 2 && g[0] == transfer(seq![0x06u8], 0)
            &&& g.len() == 2 ==> g[1] == transfer(seq![0xC7u8], 0)
            &&& r is Ok <==> g.len() == 2 && all_some(routed_heard(*old(router->Some_0), *final(router->Some_0)))
        },
        sidecar_routed(*old(state), router is Some) ==> (r matches Ok(m) ==> m@ == "全片擦除完成（sidecar）"@),
        !sidecar_routed(*old(state), router is Some) ==> {
            &&& old(state).ch34x is None && old(state).serprog is None
                ==> r is Err && r->Err_0@ == "没有可用的编程器，请先初始化"@ && *final(state) == *old(state)
                    && final(erase_progress).erase_reports() == old(erase_progress).erase_reports()
                    && final(bad_block_progress).block_reports() == old(bad_block_progress).block_reports()
            &&& old(state).ch34x is Some && detected_family(*old(state)) == ProtocolFamily::Unsupported
                ==> r is Err && r->Err_0@ == "协议 "@ + old(state).detected->0.protocol@ + " 暂未实现"@
                    && *final(state) == *old(state)
                    && final(erase_progress).erase_reports() == old(erase_progress).erase_reports()
                    && final(bad_block_progress).block_reports() == old(bad_block_progress).block_reports()
            &&& serprog_path(*old(state)) && r is Ok ==> erase_phases(old(erase_progress).erase_reports(),
                final(erase_progress).erase_reports())
            &&& !(old(state).ch34x is Some && detected_family(*old(state)) == ProtocolFamily::SpiNand)
                ==> (r matches Ok(m) ==> m@ == "全片擦除完成"@)
            &&& serprog_path(*old(state)) ==> {
                &&& extends(old(state).serprog->0.history(), final(state).serprog->0.history())
                &&& erase_shape(serprog_sent(*old(state), *final(state)))
                &&& r is Ok ==> serprog_sent(*old(state), *final(state)).len() >= 3
            }
        },
{
    let selection = sidecar_selection(state);
    match router {
        Some(rt) => match selection {
            Some(sel) => {
                return sidecar_erase_chip(rt, &sel);
            },
            None => {},
        },
        None => {},
    }
    if state.ch34x.is_some() {
        let family = family_of(&state.detected);
        match &state.detected {
            None => {
                let dev = open_ch34x(state, port)?;
                ch34x_nor_erase(&dev, erase_progress)?;
                Ok(String::from_str("全片擦除完成"))
            },
            Some(info) => {
                if family == ProtocolFamily::Unsupported {
                    return Err(unsupported(&state.detected, " 暂未实现"));
                }
                let dev = open_ch34x_mode(state, port, bus_mode_for_protocol(info.protocol.as_str()))?;
                match family {
                    ProtocolFamily::SpiNor => {
                        ch34x_nor_erase(&dev, erase_progress)?;
                        Ok(String::from_str("全片擦除完成"))
                    },
                    ProtocolFamily::Unsupported => Err(unsupported(&state.detected, " 暂未实现")),
                    _ => {
                        let mode = parse_nand_bad_block_mode(bad_block_mode);
                        family_erase(&dev, info, family, mode, erase_progress, bad_block_progress)
                    },
                }
            },
        }
    } else {
        match &mut state.serprog {
            Some(ser) => serprog_erase(ser, erase_progress),
            None => Err("没有可用的编程器，请先初始化".to_string()),
        }
    }
}

} // verus!
