use std::cell::RefCell;
use std::rc::Rc;
use uniprog::hal_router::{AdapterClient, HalRouter, LoadedAdapter, SidecarDevice, SidecarSelection};
use uniprog::operations::{sidecar_erase_chip, sidecar_read_chip, sidecar_verify_chip, sidecar_write_chip};
use uniprog::progress::ByteProgress;

/// What the mock chip saw: each transfer, and its memory.
struct Chip {
    mem: Vec<u8>,
    wel: bool,
    sent: Vec<(Vec<u8>, usize)>,
}

/// An adapter with one SPI NOR device `nor-0`.
struct MockAdapter {
    chip: Rc<RefCell<Chip>>,
    open: bool,
}

impl AdapterClient for MockAdapter {
    fn open(&mut self, device_id: &str) -> Result<String, String> {
        if device_id != "nor-0" {
            return Err(format!("no device {device_id}"));
        }
        self.open = true;
        Ok("s1".to_string())
    }

    fn close(&mut self, _session_id: &str) -> Result<(), String> {
        self.open = false;
        Ok(())
    }

    fn spi_transact(&mut self, _session_id: &str, write: &[u8], read_len: usize) -> Result<Vec<u8>, String> {
        assert!(self.open);
        let mut chip = self.chip.borrow_mut();
        chip.sent.push((write.to_vec(), read_len));
        let addr = |w: &[u8]| (w[1] as usize) << 16 | (w[2] as usize) << 8 | w[3] as usize;
        match write[0] {
            0x03 => {
                let a = addr(write);
                Ok(chip.mem[a..a + read_len].to_vec())
            }
            0x06 => {
                chip.wel = true;
                Ok(Vec::new())
            }
            0x02 => {
                let a = addr(write);
                if chip.wel {
                    for (i, b) in write[4..].iter().enumerate() {
                        if a + i < chip.mem.len() {
                            chip.mem[a + i] &= *b;
                        }
                    }
                }
                chip.wel = false;
                Ok(Vec::new())
            }
            0xC7 => {
                if chip.wel {
                    chip.mem.iter_mut().for_each(|b| *b = 0xFF);
                }
                chip.wel = false;
                Ok(Vec::new())
            }
            _ => Err("unknown opcode".to_string()),
        }
    }
}

// The report record in `reports` exists for the proofs only and is never
// asked for at run time.
struct Reports(Vec<(u64, u64)>);

impl ByteProgress for Reports {
    fn reports(&self) -> vstd::seq::Seq<(u64, u64)> {
        unreachable!()
    }

    fn report(&mut self, done: u64, total: u64) {
        self.0.push((done, total));
    }
}

fn router_with(mem: Vec<u8>) -> (HalRouter<MockAdapter>, Rc<RefCell<Chip>>) {
    let chip = Rc::new(RefCell::new(Chip { mem, wel: false, sent: Vec::new() }));
    let adapter = LoadedAdapter {
        name: "vnd.test.mock".to_string(),
        path: "mock".to_string(),
        client: MockAdapter { chip: chip.clone(), open: false },
        devices: vec![SidecarDevice { id: "nor-0".to_string(), kind: "spi".to_string(), detail: String::new() }],
    };
    (HalRouter::from_adapters(vec![adapter], Vec::new()), chip)
}

fn selection() -> SidecarSelection {
    SidecarSelection { adapter: "vnd.test.mock".to_string(), device_id: "nor-0".to_string() }
}

#[test]
fn sidecar_erase_sends_wren_then_c7_and_closes_the_session() {
    let (mut router, chip) = router_with(vec![0x00; 64]);
    let r = sidecar_erase_chip(&mut router, &selection());
    assert_eq!(r, Ok("全片擦除完成（sidecar）".to_string()));
    assert_eq!(chip.borrow().sent, vec![(vec![0x06], 0), (vec![0xC7], 0)]);
    assert_eq!(chip.borrow().mem, vec![0xFF; 64]);
    assert!(!router.has_session("vnd.test.mock", "nor-0"));
}

#[test]
fn sidecar_write_pads_pages_and_reads_back() {
    let (mut router, chip) = router_with(vec![0xFF; 1024]);
    let data: Vec<u8> = (0..300).map(|i| (i * 3 + 1) as u8).collect();
    let mut reports = Reports(Vec::new());
    let w = sidecar_write_chip(&mut router, &selection(), &data, 16, &mut reports);
    assert_eq!(w, Ok("写入完成（sidecar），共 300 字节".to_string()));
    assert_eq!(reports.0, vec![(256, 300), (300, 300)]);
    {
        let c = chip.borrow();
        assert_eq!(c.sent.len(), 4);
        assert_eq!(c.sent[0], (vec![0x06], 0));
        assert_eq!(c.sent[1].0[..4], [0x02, 0x00, 0x00, 16]);
        assert_eq!(c.sent[3].0[..4], [0x02, 0x00, 0x01, 16]);
        assert_eq!(c.sent[3].0.len(), 4 + 256);
        assert!(c.sent[3].0[4 + 44..].iter().all(|b| *b == 0xFF));
    }
    let mut reports = Reports(Vec::new());
    let back = sidecar_read_chip(&mut router, &selection(), 1024, &mut reports).unwrap();
    assert_eq!(&back[16..316], &data[..]);
    assert_eq!(reports.0, vec![(1024, 1024)]);
    let ok = sidecar_verify_chip(&mut router, &selection(), &data, 16, &mut reports);
    assert_eq!(ok, Ok("校验通过（sidecar）".to_string()));
    let mut other = data.clone();
    other[10] ^= 0xFF;
    let bad = sidecar_verify_chip(&mut router, &selection(), &other, 16, &mut reports);
    assert_eq!(bad, Err(format!("校验失败 @ 0x{:08X}: 期望 0x{:02X}, 读到 0x{:02X}", 26, other[10], data[10])));
    assert!(!router.has_session("vnd.test.mock", "nor-0"));
}

#[test]
fn sidecar_unknown_device_is_refused() {
    let (mut router, chip) = router_with(vec![0xFF; 16]);
    let sel = SidecarSelection { adapter: "vnd.test.mock".to_string(), device_id: "nor-9".to_string() };
    assert_eq!(sidecar_erase_chip(&mut router, &sel), Err("no device nor-9".to_string()));
    assert!(chip.borrow().sent.is_empty());
}
