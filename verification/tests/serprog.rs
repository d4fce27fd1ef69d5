use std::collections::VecDeque;
use uniprog::serprog::{spiop_request, SerialLink, Serprog};
use uniprog::spi_bus::SpiBus;

/// A serprog firmware answered in place: each command is answered as it is
/// written.
struct MockFirmware {
    bustype: u32,
    serbuf: u16,
    opbuf: u16,
    max_read: Option<u32>,
    silent: bool,
    pending: VecDeque<u8>,
    frames: Vec<Vec<u8>>,
}

impl MockFirmware {
    fn new() -> Self {
        MockFirmware {
            bustype: 0x08,
            serbuf: 64,
            opbuf: 300,
            max_read: None,
            silent: false,
            pending: VecDeque::new(),
            frames: Vec::new(),
        }
    }

    fn answer(&mut self, frame: &[u8]) {
        if self.silent {
            self.pending.push_back(0x15);
            return;
        }
        let ack = 0x06u8;
        match frame[0] {
            0x00 | 0x10 | 0x13 => self.pending.push_back(ack),
            0x01 => self.pending.extend([ack, 0x01, 0x00]),
            0x02 => {
                self.pending.push_back(ack);
                self.pending.extend([0xFFu8; 32]);
            }
            0x03 => {
                self.pending.push_back(ack);
                let mut name = b"pico-serprog".to_vec();
                name.resize(16, 0);
                self.pending.extend(name);
            }
            0x04 => {
                self.pending.push_back(ack);
                self.pending.extend(self.serbuf.to_le_bytes());
            }
            0x05 => {
                self.pending.push_back(ack);
                self.pending.extend(self.bustype.to_le_bytes());
            }
            0x07 => {
                self.pending.push_back(ack);
                self.pending.extend(self.opbuf.to_le_bytes());
            }
            0x0F => match self.max_read {
                Some(m) => {
                    self.pending.push_back(ack);
                    self.pending.extend(m.to_le_bytes());
                }
                None => self.pending.push_back(0x15),
            },
            0x12 => {
                self.pending.push_back(ack);
                self.pending.extend(frame[1..5].iter().copied());
            }
            0x11 => {
                let rlen = frame[4] as usize | (frame[5] as usize) << 8 | (frame[6] as usize) << 16;
                self.pending.push_back(ack);
                let reply: Vec<u8> = if frame.len() > 7 && frame[7] == 0x9F {
                    vec![0xEF, 0x40, 0x18]
                } else {
                    vec![0xFF; rlen]
                };
                self.pending.extend(reply.into_iter().take(rlen));
            }
            _ => self.pending.push_back(0x15),
        }
    }
}

impl SerialLink for MockFirmware {
    fn write_all(&mut self, data: &[u8]) -> Result<(), String> {
        self.frames.push(data.to_vec());
        self.answer(data);
        Ok(())
    }

    fn flush(&mut self) -> Result<(), String> {
        Ok(())
    }

    fn read_exact(&mut self, len: usize) -> Result<Vec<u8>, String> {
        if self.pending.len() < len {
            return Err("timed out".to_string());
        }
        Ok(self.pending.drain(..len).collect())
    }

    fn reset_and_clear(&mut self) {
        self.pending.clear();
    }

    fn sleep_ms(&mut self, _ms: u64) {}
}

#[test]
fn serprog_open_reads_firmware_limits() {
    let dev = Serprog::open(MockFirmware::new()).unwrap();
    assert_eq!(dev.interface_version(), 1);
    assert_eq!(dev.bustypes(), 0x08);
    assert_eq!(dev.max_write_len(), 293);
    // no read limit announced: the serial buffer bounds the read
    assert_eq!(dev.max_read_len(), 64);
}

#[test]
fn serprog_read_limit_is_the_smaller_of_both() {
    let mut fw = MockFirmware::new();
    fw.serbuf = 4096;
    fw.max_read = Some(512);
    let dev = Serprog::open(fw).unwrap();
    assert_eq!(dev.max_read_len(), 512);
}

#[test]
fn serprog_small_opbuf_allows_one_byte() {
    let mut fw = MockFirmware::new();
    fw.opbuf = 4;
    let dev = Serprog::open(fw).unwrap();
    assert_eq!(dev.max_write_len(), 1);
}

#[test]
fn serprog_spi_command_reads_jedec_id() {
    let mut dev = Serprog::open(MockFirmware::new()).unwrap();
    let id = dev.spi_command(&[0x9F], 3).unwrap();
    assert_eq!(id, vec![0xEF, 0x40, 0x18]);
}

#[test]
fn serprog_empty_operation_is_ok_and_empty() {
    let mut dev = Serprog::open(MockFirmware::new()).unwrap();
    assert_eq!(dev.spi_command(&[], 0).unwrap(), Vec::<u8>::new());
}

#[test]
fn serprog_refuses_oversized_transfers() {
    let mut dev = Serprog::open(MockFirmware::new()).unwrap();
    let long = vec![0u8; 294];
    let err = dev.spi_command(&long, 0).unwrap_err();
    assert!(err.contains("SPI 写长度 294"), "{err}");
    let err = dev.spi_command(&[0x03, 0, 0, 0], 65).unwrap_err();
    assert!(err.contains("SPI 读长度 65"), "{err}");
}

#[test]
fn serprog_bus_trait_goes_through_spi_command() {
    let mut dev = Serprog::open(MockFirmware::new()).unwrap();
    assert_eq!(dev.transact(&[0x9F], 3).unwrap(), vec![0xEF, 0x40, 0x18]);
    assert_eq!(SpiBus::max_write(&dev), 293);
    assert_eq!(SpiBus::max_read(&dev), 64);
}

#[test]
fn serprog_refuses_firmware_without_spi() {
    let mut fw = MockFirmware::new();
    fw.bustype = 0x01;
    let err = Serprog::open(fw).err().unwrap();
    assert!(err.contains("bustype=0x00000001"), "{err}");
}

#[test]
fn serprog_silent_firmware_is_reported() {
    let mut fw = MockFirmware::new();
    fw.silent = true;
    let err = Serprog::open(fw).err().unwrap();
    assert_eq!(err, "serprog 设备无响应，请检查固件和连线");
}

#[test]
fn serprog_program_name_stops_at_nul() {
    let mut dev = Serprog::open(MockFirmware::new()).unwrap();
    assert_eq!(dev.program_name().unwrap(), "pico-serprog");
    assert_eq!(dev.command_map().unwrap().len(), 32);
    assert_eq!(dev.set_spi_freq(8_000_000).unwrap(), 8_000_000);
    assert!(dev.nop().is_ok());
    assert!(dev.set_pin_state(2, true).is_ok());
}

#[test]
fn serprog_spiop_request_layout() {
    assert_eq!(spiop_request(&[0x9F], 3), vec![1, 0, 0, 3, 0, 0, 0x9F]);
    assert_eq!(spiop_request(&[0x03, 1, 2, 3], 0x012345), vec![4, 0, 0, 0x45, 0x23, 0x01, 0x03, 1, 2, 3]);
}
