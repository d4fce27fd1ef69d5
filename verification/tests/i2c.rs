use std::cell::RefCell;
use uniprog::ch34x::ProgrammerHal;
use uniprog::progress::NoProgress;
use uniprog::protocols::{i2c_erase, i2c_read, i2c_write, ChipParams, I2cLink};

/// A 24xx EEPROM behind a CH341 answering I2C stream reads.
struct Eeprom {
    mem: Vec<u8>,
    pending: RefCell<Option<(usize, usize)>>,
    packets: RefCell<Vec<Vec<u8>>>,
    short: bool,
}

impl Eeprom {
    fn new(short: bool) -> Eeprom {
        Eeprom {
            mem: (0..256).map(|i| (i * 5 + 1) as u8).collect(),
            pending: RefCell::new(None),
            packets: RefCell::new(Vec::new()),
            short,
        }
    }
}

impl ProgrammerHal for Eeprom {
    fn cs_low(&self) -> Result<(), String> {
        Ok(())
    }
    fn cs_high(&self) -> Result<(), String> {
        Ok(())
    }
    fn spi_tx(&self, _data: &[u8]) -> Result<(), String> {
        Ok(())
    }
    fn spi_rx(&self, _data: &mut [u8]) -> Result<(), String> {
        Ok(())
    }
    fn i2c_write(&self, data: &[u8]) -> Result<(), String> {
        self.packets.borrow_mut().push(data.to_vec());
        let addr = data[4] as usize;
        let chunk = (data[8] & 0x3F) as usize + 1;
        *self.pending.borrow_mut() = Some((addr, chunk));
        Ok(())
    }
    fn i2c_read(&self, data: &mut [u8]) -> Result<usize, String> {
        let (addr, chunk) = self.pending.borrow_mut().take().expect("a read packet first");
        data[..chunk].copy_from_slice(&self.mem[addr..addr + chunk]);
        Ok(if self.short { chunk - 1 } else { chunk })
    }
    fn gpio_setbits(&self, _bits: u8) -> Result<(), String> {
        Ok(())
    }
    fn gpio_getbits(&self) -> Result<u8, String> {
        Ok(0)
    }
    fn spi_frame_limit(&self) -> usize {
        64
    }
    fn is_ch347(&self) -> bool {
        false
    }
    fn delay_ms(&self, _ms: u64) {}
    fn now_ms(&self) -> u64 {
        0
    }
}

fn params() -> ChipParams {
    ChipParams {
        protocol: "I2C".to_string(),
        page: 16,
        sector: 0,
        block: 0,
        algorithm: 0x01,
        addr4bit: 0,
        spare: 0,
    }
}

#[test]
fn i2c_read_gathers_chunks_of_sixteen_on_the_ch341() {
    let chip = Eeprom::new(false);
    let mut link = I2cLink::new(&chip);
    let out = i2c_read(&mut link, &params(), 10, 40, &mut NoProgress::new()).unwrap();
    assert_eq!(out, chip.mem[10..50].to_vec());
    let packets = chip.packets.borrow();
    assert_eq!(packets.len(), 3);
    assert_eq!(packets[0], vec![0xAA, 0x74, 0x82, 0xA0, 10, 0x74, 0x81, 0xA1, 0xCF, 0xC0, 0x75, 0x00]);
    assert_eq!(packets[1][4], 26);
    assert_eq!(packets[2][4], 42);
    assert_eq!(packets[2][8], 0xC7);
}

#[test]
fn i2c_read_refuses_a_short_response() {
    let chip = Eeprom::new(true);
    let mut link = I2cLink::new(&chip);
    let r = i2c_read(&mut link, &params(), 0, 8, &mut NoProgress::new());
    assert_eq!(r, Err("I2C 读取长度不符: 需要 8 字节".to_string()));
    assert_eq!(chip.packets.borrow().len(), 1);
}

#[test]
fn i2c_read_of_an_unknown_address_algorithm_sends_nothing() {
    let chip = Eeprom::new(false);
    let mut link = I2cLink::new(&chip);
    let mut p = params();
    p.algorithm = 0x05;
    assert!(i2c_read(&mut link, &p, 0, 8, &mut NoProgress::new()).is_err());
    assert!(chip.packets.borrow().is_empty());
}

#[test]
fn i2c_write_sends_one_packet_per_page() {
    let chip = Eeprom::new(false);
    let mut link = I2cLink::new(&chip);
    let mut p = params();
    p.sector = 16;
    let data: Vec<u8> = (0..20).map(|i| i as u8 + 100).collect();
    assert!(i2c_write(&mut link, &p, &data, 0x10, &mut NoProgress::new()).is_ok());
    let packets = chip.packets.borrow();
    assert_eq!(packets.len(), 2);
    let mut first = vec![0xAA, 0x74, 0x82, 0xA0, 0x10, 0x90];
    first.extend_from_slice(&data[..16]);
    first.extend_from_slice(&[0x75, 0x00]);
    assert_eq!(packets[0], first);
    let mut second = vec![0xAA, 0x74, 0x82, 0xA0, 0x20, 0x84];
    second.extend_from_slice(&data[16..]);
    second.extend_from_slice(&[0x75, 0x00]);
    assert_eq!(packets[1], second);
}

#[test]
fn i2c_erase_writes_ff_everywhere() {
    let chip = Eeprom::new(false);
    let mut link = I2cLink::new(&chip);
    let mut p = params();
    p.sector = 8;
    assert!(i2c_erase(&mut link, &p, 12, &mut NoProgress::new()).is_ok());
    let packets = chip.packets.borrow();
    assert_eq!(packets.len(), 2);
    assert_eq!(packets[0], vec![0xAA, 0x74, 0x82, 0xA0, 0x00, 0x88, 0xFF, 0xFF, 0xFF, 0xFF, 0xFF, 0xFF, 0xFF, 0xFF, 0x75, 0x00]);
    assert_eq!(packets[1], vec![0xAA, 0x74, 0x82, 0xA0, 0x08, 0x84, 0xFF, 0xFF, 0xFF, 0xFF, 0x75, 0x00]);
}
