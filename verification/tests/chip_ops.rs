use uniprog::ch34x::{Ch34xSettings, DeviceMode, ProgrammerHal};
use uniprog::devcore::{AppState, Ch34xOpener, Ch34xPort};
use uniprog::hal_router::{AdapterClient, HalRouter};
use uniprog::operations::{blank_check, chip_erase, read_chip, verify_chip, write_chip, EraseProgress, EraseSink};
use uniprog::progress::{BlockProgress, ByteProgress, Clock};
use uniprog::spi_bus::{SpiBus, SpiTransfer};

/// An SPI NOR chip on a serprog-style bus: READ (`03h`) answers from
/// `mem`, RDSR (`05h`) answers `sr1`, WREN sets WEL, page program (`02h`)
/// ANDs bytes into `mem`, chip erase (`C7h`) fills `mem` with `FFh`.
struct ChipBus {
    mem: Vec<u8>,
    sr1: u8,
    wel: bool,
    sent: Vec<(Vec<u8>, usize)>,
}

impl ChipBus {
    fn new(mem: Vec<u8>) -> Self {
        ChipBus { mem, sr1: 0x00, wel: false, sent: Vec::new() }
    }
}

impl SpiBus for ChipBus {
    // The record of transfers and replies exists for the proofs only and is
    // never asked for at run time.
    fn history(&self) -> vstd::seq::Seq<SpiTransfer> {
        unreachable!()
    }

    fn replies(&self) -> vstd::seq::Seq<Option<vstd::seq::Seq<u8>>> {
        unreachable!()
    }

    fn transact(&mut self, write: &[u8], read_len: usize) -> Result<Vec<u8>, String> {
        self.sent.push((write.to_vec(), read_len));
        match write[0] {
            0x03 => {
                let a = (write[1] as usize) << 16 | (write[2] as usize) << 8 | write[3] as usize;
                Ok(self.mem[a..a + read_len].to_vec())
            }
            0x05 => Ok(vec![self.sr1 | if self.wel { 0x02 } else { 0x00 }; read_len.min(1)]),
            0x06 => {
                self.wel = true;
                Ok(Vec::new())
            }
            0x02 => {
                let a = (write[1] as usize) << 16 | (write[2] as usize) << 8 | write[3] as usize;
                if self.wel {
                    for (i, b) in write[4..].iter().enumerate() {
                        self.mem[a + i] &= *b;
                    }
                }
                self.wel = false;
                Ok(Vec::new())
            }
            0xC7 => {
                if self.wel {
                    for b in self.mem.iter_mut() {
                        *b = 0xFF;
                    }
                }
                self.wel = false;
                Ok(Vec::new())
            }
            _ => Err("unknown opcode".to_string()),
        }
    }

    fn max_write(&self) -> usize {
        300
    }

    fn max_read(&self) -> usize {
        64
    }
}

impl Clock for ChipBus {
    fn now_ms(&self) -> u64 {
        0
    }

    fn sleep_ms(&self, _ms: u64) {}
}

/// No CH34X programmer is attached.
struct NoDevice;

impl ProgrammerHal for NoDevice {
    fn cs_low(&self) -> Result<(), String> {
        Err("absent".to_string())
    }
    fn cs_high(&self) -> Result<(), String> {
        Err("absent".to_string())
    }
    fn spi_tx(&self, _data: &[u8]) -> Result<(), String> {
        Err("absent".to_string())
    }
    fn spi_rx(&self, _data: &mut [u8]) -> Result<(), String> {
        Err("absent".to_string())
    }
    fn i2c_write(&self, _data: &[u8]) -> Result<(), String> {
        Err("absent".to_string())
    }
    fn i2c_read(&self, _data: &mut [u8]) -> Result<usize, String> {
        Err("absent".to_string())
    }
    fn gpio_setbits(&self, _bits: u8) -> Result<(), String> {
        Err("absent".to_string())
    }
    fn gpio_getbits(&self) -> Result<u8, String> {
        Err("absent".to_string())
    }
    fn spi_frame_limit(&self) -> usize {
        64
    }
    fn is_ch347(&self) -> bool {
        false
    }
    fn delay_ms(&self, _ms: u64) {}
    fn now_ms(&self) -> u64 {
        0
    }
}

struct NoUsb;

impl Ch34xOpener for NoUsb {
    type Device = NoDevice;

    fn open_with_mode(&self, _settings: &Ch34xSettings, _mode: DeviceMode) -> Result<NoDevice, String> {
        Err("absent".to_string())
    }
}

struct NoAdapter;

impl AdapterClient for NoAdapter {
    fn open(&mut self, _device_id: &str) -> Result<String, String> {
        Err("absent".to_string())
    }
    fn close(&mut self, _session_id: &str) -> Result<(), String> {
        Err("absent".to_string())
    }
    fn spi_transact(&mut self, _session_id: &str, _write: &[u8], _read_len: usize) -> Result<Vec<u8>, String> {
        Err("absent".to_string())
    }
}

// The report records in `reports`, `block_reports` and `erase_reports`
// exist for the proofs only and are never asked for at run time.

/// Records every `(done, total)` report.
struct Reports(Vec<(u64, u64)>);

impl ByteProgress for Reports {
    fn reports(&self) -> vstd::seq::Seq<(u64, u64)> {
        unreachable!()
    }

    fn report(&mut self, done: u64, total: u64) {
        self.0.push((done, total));
    }
}

struct Quiet;

impl BlockProgress for Quiet {
    fn block_reports(&self) -> vstd::seq::Seq<(u32, u32)> {
        unreachable!()
    }

    fn report(&mut self, _done: u32, _total: u32) {}
}

struct Phases(Vec<String>);

impl EraseSink for Phases {
    fn erase_reports(&self) -> vstd::seq::Seq<EraseProgress> {
        unreachable!()
    }

    fn report(&mut self, progress: EraseProgress) {
        self.0.push(progress.phase);
    }
}

fn state_with(bus: Option<ChipBus>) -> AppState<ChipBus> {
    AppState {
        ch34x: None,
        serprog: bus,
        lib: None,
        connected_device: None,
        detected: None,
        last_serial_ports: vec!["COM3".to_string()],
        cached_serprog: Vec::new(),
        operation_running: false,
        sidecar_adapter: None,
        sidecar_device: None,
    }
}

fn no_router() -> Option<&'static mut HalRouter<NoAdapter>> {
    None
}

fn pattern(n: usize) -> Vec<u8> {
    (0..n).map(|i| (i * 7 + 3) as u8).collect()
}

#[test]
fn serprog_read_returns_the_chip_contents() {
    let mem = pattern(300);
    let mut state = state_with(Some(ChipBus::new(mem.clone())));
    let mut reports = Reports(Vec::new());
    let out = read_chip(&mut state, &mut Ch34xPort::new(&NoUsb), 250, 10, None, &mut reports, &mut Quiet, no_router()).unwrap();
    assert_eq!(out, mem[10..250].to_vec());
    // 64-byte reads at 10, 74, 138, 202 (the last one 48 bytes)
    let sent = &state.serprog.as_ref().unwrap().sent;
    assert_eq!(sent.len(), 4);
    assert_eq!(sent[0], (vec![0x03, 0x00, 0x00, 10], 64));
    assert_eq!(sent[3], (vec![0x03, 0x00, 0x00, 202], 48));
    assert_eq!(reports.0, vec![(64, 240), (128, 240), (192, 240), (240, 240)]);
    assert_eq!(state.last_serial_ports, vec!["COM3".to_string()]);
}

#[test]
fn serprog_verify_succeeds_exactly_on_equal_contents() {
    let mem = pattern(200);
    let mut state = state_with(Some(ChipBus::new(mem.clone())));
    let mut reports = Reports(Vec::new());
    let ok = verify_chip(&mut state, &mut Ch34xPort::new(&NoUsb), &mem[20..180], 20, None, &mut reports, &mut Quiet, no_router());
    assert_eq!(ok, Ok("校验通过".to_string()));
    let mut other = mem[20..180].to_vec();
    other[100] ^= 0x5A;
    other[150] ^= 0x01;
    let bad = verify_chip(&mut state, &mut Ch34xPort::new(&NoUsb), &other, 20, None, &mut reports, &mut Quiet, no_router());
    assert_eq!(
        bad,
        Err(format!("校验失败 @ 0x{:08X}: 期望 0x{:02X}, 读到 0x{:02X}", 120, other[100], mem[120]))
    );
}

#[test]
fn serprog_blank_check_reports_the_first_programmed_byte() {
    let mut mem = vec![0xFF; 256];
    mem[77] = 0x00;
    mem[200] = 0x12;
    let mut state = state_with(Some(ChipBus::new(mem)));
    let mut reports = Reports(Vec::new());
    let r = blank_check(&mut state, &mut Ch34xPort::new(&NoUsb), 256, 8, None, &mut reports, &mut Quiet, no_router()).unwrap();
    assert!(!r.blank);
    assert_eq!(r.first_non_blank, Some(77));
    assert_eq!(r.checked, 69);
    let r = blank_check(&mut state, &mut Ch34xPort::new(&NoUsb), 77, 0, None, &mut reports, &mut Quiet, no_router()).unwrap();
    assert!(r.blank);
    assert_eq!(r.checked, 77);
    assert_eq!(r.first_non_blank, None);
}

#[test]
fn serprog_write_then_read_gives_the_data_back() {
    let mut state = state_with(Some(ChipBus::new(vec![0xFF; 1024])));
    let data = pattern(600);
    let mut reports = Reports(Vec::new());
    let msg = write_chip(&mut state, &mut Ch34xPort::new(&NoUsb), &data, 100, None, None, &mut reports, &mut Quiet, no_router());
    assert_eq!(msg, Ok("写入完成，共 600 字节".to_string()));
    let back = read_chip(&mut state, &mut Ch34xPort::new(&NoUsb), 700, 100, None, &mut reports, &mut Quiet, no_router()).unwrap();
    assert_eq!(back, data);
    let ok = verify_chip(&mut state, &mut Ch34xPort::new(&NoUsb), &data, 100, None, &mut reports, &mut Quiet, no_router());
    assert_eq!(ok, Ok("校验通过".to_string()));
    // RDSR first, then WREN and a page program per page of at most 256 bytes
    let sent = &state.serprog.as_ref().unwrap().sent;
    assert_eq!(sent[0], (vec![0x05], 1));
    assert_eq!(sent[1], (vec![0x06], 0));
    assert_eq!(sent[2].0[..4], [0x02, 0x00, 0x00, 100]);
    assert_eq!(sent[2].0.len(), 4 + 256);
}

#[test]
fn serprog_write_refused_while_block_protected() {
    let mut bus = ChipBus::new(vec![0xFF; 64]);
    bus.sr1 = 0x1C;
    let mut state = state_with(Some(bus));
    let mut reports = Reports(Vec::new());
    let r = write_chip(&mut state, &mut Ch34xPort::new(&NoUsb), &[1, 2, 3], 0, None, None, &mut reports, &mut Quiet, no_router());
    assert_eq!(r, Err("SPI NOR 处于写保护状态（SR1=0x1C）。请先执行“解除 NOR 写保护”".to_string()));
    let bus = state.serprog.as_ref().unwrap();
    assert_eq!(bus.sent, vec![(vec![0x05], 1)]);
    assert_eq!(bus.mem, vec![0xFF; 64]);
    assert!(reports.0.is_empty());
}

#[test]
fn serprog_erase_sends_wren_then_c7_then_polls() {
    let mut state = state_with(Some(ChipBus::new(pattern(128))));
    let mut phases = Phases(Vec::new());
    let r = chip_erase(&mut state, &mut Ch34xPort::new(&NoUsb), None, &mut phases, &mut Quiet, no_router());
    assert_eq!(r, Ok("全片擦除完成".to_string()));
    let bus = state.serprog.as_ref().unwrap();
    assert_eq!(bus.sent[0], (vec![0x06], 0));
    assert_eq!(bus.sent[1], (vec![0xC7], 0));
    assert!(bus.sent[2..].iter().all(|t| *t == (vec![0x05], 1)));
    assert_eq!(bus.mem, vec![0xFF; 128]);
    assert_eq!(phases.0, vec!["prepare".to_string(), "erase".to_string(), "done".to_string()]);
}

#[test]
fn erase_without_any_programmer_is_refused() {
    let mut state = state_with(None);
    let mut phases = Phases(Vec::new());
    let r = chip_erase(&mut state, &mut Ch34xPort::new(&NoUsb), None, &mut phases, &mut Quiet, no_router());
    assert_eq!(r, Err("没有可用的编程器，请先初始化".to_string()));
    assert!(phases.0.is_empty());
}

struct CountingUsb(std::cell::Cell<u32>);

impl Ch34xOpener for CountingUsb {
    type Device = NoDevice;

    fn open_with_mode(&self, _settings: &Ch34xSettings, _mode: DeviceMode) -> Result<NoDevice, String> {
        self.0.set(self.0.get() + 1);
        Err("absent".to_string())
    }
}

#[test]
fn erase_of_unsupported_protocol_opens_nothing() {
    let mut state = state_with(None);
    state.ch34x = Some(Ch34xSettings::default());
    state.detected = Some(uniprog::chipdb::ChipInfo {
        id: "x".to_string(),
        vendor: "v".to_string(),
        model: "m".to_string(),
        protocol: "SPI_FRAM".to_string(),
        size: 1024,
        page: 256,
        attrs: Vec::new(),
    });
    let usb = CountingUsb(std::cell::Cell::new(0));
    let mut phases = Phases(Vec::new());
    let r = chip_erase(&mut state, &mut Ch34xPort::new(&usb), None, &mut phases, &mut Quiet, no_router());
    assert_eq!(r, Err("协议 SPI_FRAM 暂未实现".to_string()));
    assert_eq!(usb.0.get(), 0);
    assert!(phases.0.is_empty());
}
