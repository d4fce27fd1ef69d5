//! The serprog protocol (flashrom's serial programmer protocol): command
//! framing with ACK/NAK answers, the capability queries made when a
//! programmer is opened, and SPI operations within the firmware's buffer
//! limits.
use vstd::prelude::*;
use crate::spi_bus::{reply_of, transfer, SpiBus, SpiTransfer};
use crate::text::{msg_hex2, msg_hex8, msg_join, msg_usize2};

verus! {

pub const S_ACK: u8 = 0x06;
pub const S_NAK: u8 = 0x15;
pub const S_CMD_NOP: u8 = 0x00;
pub const S_CMD_Q_IFACE: u8 = 0x01;
pub const S_CMD_Q_CMDMAP: u8 = 0x02;
pub const S_CMD_Q_PGMNAME: u8 = 0x03;
pub const S_CMD_Q_SERBUF: u8 = 0x04;
pub const S_CMD_Q_BUSTYPE: u8 = 0x05;
pub const S_CMD_Q_OPBUF: u8 = 0x07;
pub const S_CMD_Q_RDNMAXLEN: u8 = 0x0F;
pub const S_CMD_S_BUSTYPE: u8 = 0x10;
pub const S_CMD_O_SPIOP: u8 = 0x11;
pub const S_CMD_S_SPI_FREQ: u8 = 0x12;
pub const S_CMD_S_PIN_STATE: u8 = 0x13;

/// The SPI bit of the bus type mask.
pub const BUS_SPI: u8 = 0x08;

/// The serial link to a serprog programmer (115200 baud, 8N1, no flow
/// control).
pub trait SerialLink {
    fn write_all(&mut self, data: &[u8]) -> Result<(), String>;

    fn flush(&mut self) -> Result<(), String>;

    /// Read `len` bytes (fewer only on error).
    fn read_exact(&mut self, len: usize) -> Result<Vec<u8>, String>;

    /// Pulse DTR, the reset of Arduino-style boards (ignored where the
    /// platform lacks it), then discard whatever is buffered.
    fn reset_and_clear(&mut self);

    /// Wait at least `ms` milliseconds.
    fn sleep_ms(&mut self, ms: u64);
}

/// The request of an SPI operation: 24-bit write and read lengths (little
/// endian) followed by the bytes to write.
pub open spec fn spiop_params(write: Seq<u8>, read_len: nat) -> Seq<u8> {
    seq![
        (write.len() % 256) as u8, ((write.len() / 256) % 256) as u8, ((write.len() / 65536) % 256) as u8,
        (read_len % 256) as u8, ((read_len / 256) % 256) as u8, ((read_len / 65536) % 256) as u8,
    ] + write
}

/// See [`spiop_params`].
pub fn spiop_request(write: &[u8], read_len: usize) -> (r: Vec<u8>)
    ensures
        r@ == spiop_params(write@, read_len as nat),
{
    let n = write.len();
    let mut p: Vec<u8> = Vec::new();
    p.push((n % 256) as u8);
    p.push(((n / 256) % 256) as u8);
    p.push(((n / 65536) % 256) as u8);
    p.push((read_len % 256) as u8);
    p.push(((read_len / 256) % 256) as u8);
    p.push(((read_len / 65536) % 256) as u8);
    let ghost head = p@;
    let mut i: usize = 0;
    while i < n
        invariant
            n == write@.len(),
            i <= n,
            p@ == head + write@.take(i as int),
        decreases n - i,
    {
        p.push(write[i]);
        assert(write@.take(i + 1) =~= write@.take(i as int).push(write@[i as int]));
        i = i + 1;
    }
    assert(write@.take(n as int) =~= write@);
    p
}

/// A little-endian 16-bit value.
pub open spec fn le16v(d: Seq<u8>) -> int {
    d[0] + d[1] * 256
}

/// A little-endian 32-bit value.
pub open spec fn le32v(d: Seq<u8>) -> int {
    d[0] + d[1] * 256 + d[2] * 65536 + d[3] * 16777216
}

/// The largest write of one SPI operation: the operation buffer less the
/// opcode and the six length bytes, at least 1.
pub open spec fn spec_max_write(opbuf: int) -> int {
    if opbuf - 7 >= 1 { opbuf - 7 } else { 1 }
}

/// The largest read of one SPI operation: the smaller of the announced
/// read limit and the serial buffer, at least 1.
pub open spec fn spec_max_read(max_read: int, serbuf: int) -> int {
    let m = if max_read < serbuf { max_read } else { serbuf };
    if m >= 1 { m } else { 1 }
}

/// A serprog programmer on a serial link.
pub struct Serprog<L: SerialLink> {
    link: L,
    interface_version: u16,
    bustypes: u32,
    serbuf: usize,
    opbuf: usize,
    max_read_len: usize,
    log: Ghost<Seq<SpiTransfer>>,
    answers: Ghost<Seq<Option<Seq<u8>>>>,
}

impl<L: SerialLink> Serprog<L> {
    /// The buffer sizes come from 16-bit answers (or the defaults).
    pub closed spec fn wf(&self) -> bool {
        &&& self.serbuf <= 0xFFFF
        &&& self.opbuf <= 0xFFFF
        &&& self.max_read_len >= 1
        &&& self.bustypes == 0 || self.bustypes & 0x08 != 0
    }

    pub closed spec fn opbuf_view(&self) -> int {
        self.opbuf as int
    }

    pub closed spec fn serbuf_view(&self) -> int {
        self.serbuf as int
    }

    pub closed spec fn max_read_view(&self) -> int {
        self.max_read_len as int
    }

    /// The interface version the programmer reported.
    pub fn interface_version(&self) -> u16 {
        self.interface_version
    }

    /// The bus types the programmer reported (0 when it did not say).
    pub fn bustypes(&self) -> u32 {
        self.bustypes
    }

    /// Send one command (opcode and parameters) and read the answer: ACK and
    /// `resp_len` bytes of data, or NAK.
    fn command(&mut self, op: u8, params: &[u8], resp_len: usize) -> (r: Result<Vec<u8>, String>)
        ensures
            r matches Ok(d) ==> d@.len() == resp_len,
            final(self).serbuf == old(self).serbuf,
            final(self).opbuf == old(self).opbuf,
            final(self).max_read_len == old(self).max_read_len,
            final(self).bustypes == old(self).bustypes,
            final(self).interface_version == old(self).interface_version,
            final(self).log == old(self).log,
            final(self).answers == old(self).answers,
    {
        let mut frame: Vec<u8> = Vec::new();
        frame.push(op);
        let mut i: usize = 0;
        while i < params.len()
            invariant
                i <= params@.len(),
            decreases params@.len() - i,
        {
            frame.push(params[i]);
            i = i + 1;
        }
        match self.link.write_all(frame.as_slice()) {
            Ok(()) => {},
            Err(e) => {
                return Err(msg_join("serprog 写入错误: ", e.as_str()));
            },
        }
        match self.link.flush() {
            Ok(()) => {},
            Err(e) => {
                return Err(msg_join("serprog 刷新错误: ", e.as_str()));
            },
        }
        let ack = match self.link.read_exact(1) {
            Ok(a) => a,
            Err(e) => {
                return Err(msg_join("serprog 读取应答错误: ", e.as_str()));
            },
        };
        if ack.len() != 1 {
            return Err(String::from_str("serprog 读取应答错误: short read"));
        }
        if ack[0] == S_NAK {
            return Err(msg_hex2("serprog 命令 0x", op, " 被设备拒绝 (NAK)"));
        }
        if ack[0] != S_ACK {
            return Err(msg_join(msg_hex2("serprog 命令 0x", op, " 应答异常: ").as_str(), msg_hex2("0x", ack[0], "").as_str()));
        }
        if resp_len == 0 {
            return Ok(Vec::new());
        }
        let data = match self.link.read_exact(resp_len) {
            Ok(d) => d,
            Err(e) => {
                return Err(msg_join("serprog 读取数据错误: ", e.as_str()));
            },
        };
        if data.len() != resp_len {
            return Err(String::from_str("serprog 读取数据错误: short read"));
        }
        Ok(data)
    }

    /// Open a programmer: reset the link, synchronise (up to five interface
    /// queries), query its buffers and read limit (keeping conservative
    /// defaults where the firmware does not answer), require the SPI bus
    /// when bus types are announced, and select it. The SPI clock
    /// (1 MHz) and the command map are requested on a best-effort basis.
    pub fn open(link: L) -> (r: Result<Serprog<L>, String>)
        ensures
            r matches Ok(dev) ==> dev.wf() && dev.history() == Seq::<SpiTransfer>::empty(),
    {
        let mut dev = Serprog {
            link,
            interface_version: 0,
            bustypes: 0,
            serbuf: 16,
            opbuf: 300,
            max_read_len: 4096,
            log: Ghost(Seq::empty()),
            answers: Ghost(Seq::empty()),
        };
        dev.link.reset_and_clear();
        let _ = dev.command(S_CMD_NOP, &[], 0);
        let mut synced = false;
        let mut tries: u32 = 0;
        while tries < 5 && !synced
            invariant
                tries <= 5,
                dev.serbuf == 16 && dev.opbuf == 300 && dev.max_read_len == 4096 && dev.bustypes == 0,
                dev.log@ == Seq::<SpiTransfer>::empty(),
            decreases 5 - tries,
        {
            match dev.command(S_CMD_Q_IFACE, &[], 2) {
                Ok(ver) => {
                    dev.interface_version = ver[0] as u16 + ver[1] as u16 * 256;
                    synced = true;
                },
                Err(_) => {
                    dev.link.sleep_ms(100);
                },
            }
            tries = tries + 1;
        }
        if !synced {
            return Err(String::from_str("serprog 设备无响应，请检查固件和连线"));
        }
        if let Ok(d) = dev.command(S_CMD_Q_BUSTYPE, &[], 4) {
            dev.bustypes = d[0] as u32 + d[1] as u32 * 256 + d[2] as u32 * 65536 + d[3] as u32 * 16777216;
        }
        if let Ok(d) = dev.command(S_CMD_Q_SERBUF, &[], 2) {
            dev.serbuf = d[0] as usize + d[1] as usize * 256;
        }
        if let Ok(d) = dev.command(S_CMD_Q_OPBUF, &[], 2) {
            dev.opbuf = d[0] as usize + d[1] as usize * 256;
        }
        if let Ok(d) = dev.command(S_CMD_Q_RDNMAXLEN, &[], 4) {
            let max = d[0] as u64 + d[1] as u64 * 256 + d[2] as u64 * 65536 + d[3] as u64 * 16777216;
            if max > 0 && max <= usize::MAX as u64 {
                dev.max_read_len = max as usize;
            }
        }
        if dev.bustypes != 0 && (dev.bustypes & 0x08) == 0 {
            return Err(msg_hex8("serprog 固件不支持 SPI 总线（bustype=0x", dev.bustypes, "）"));
        }
        match dev.command(S_CMD_S_BUSTYPE, &[BUS_SPI], 0) {
            Ok(_) => {},
            Err(e) => {
                return Err(msg_join("设置 SPI 总线失败: ", e.as_str()));
            },
        }
        let _ = dev.set_spi_freq(1_000_000);
        let _ = dev.command_map();
        let _ = dev.program_name();
        Ok(dev)
    }

    /// The largest write of one SPI operation (see [`spec_max_write`]).
    pub fn max_write_len(&self) -> (r: usize)
        ensures
            r == spec_max_write(self.opbuf_view()),
    {
        if self.opbuf >= 8 { self.opbuf - 7 } else { 1 }
    }

    /// The largest read of one SPI operation (see [`spec_max_read`]).
    pub fn max_read_len(&self) -> (r: usize)
        ensures
            r == spec_max_read(self.max_read_view(), self.serbuf_view()),
    {
        let m = if self.max_read_len < self.serbuf { self.max_read_len } else { self.serbuf };
        if m >= 1 { m } else { 1 }
    }

    /// One SPI operation: write `write` (opcode and address), then read
    /// `read_len` bytes (flashrom's write-then-read, not full duplex).
    /// Nothing is sent for an empty operation; lengths above the firmware's
    /// limits are refused.
    pub fn spi_command(&mut self, write: &[u8], read_len: usize) -> (r: Result<Vec<u8>, String>)
        ensures
            final(self).wf() == old(self).wf(),
            final(self).opbuf_view() == old(self).opbuf_view(),
            final(self).serbuf_view() == old(self).serbuf_view(),
            final(self).max_read_view() == old(self).max_read_view(),
            final(self).history() == old(self).history(),
            final(self).replies() == old(self).replies(),
            write@.len() == 0 && read_len == 0 ==> (r matches Ok(v) && v@.len() == 0),
            !(write@.len() == 0 && read_len == 0) && (write@.len() > spec_max_write(old(self).opbuf_view())
                || read_len > spec_max_read(old(self).max_read_view(), old(self).serbuf_view())) ==> r is Err,
            r matches Ok(v) ==> v@.len() == read_len,
    {
        if write.len() == 0 && read_len == 0 {
            return Ok(Vec::new());
        }
        let mw = self.max_write_len();
        if write.len() > mw {
            return Err(msg_usize2("SPI 写长度 ", write.len(), " 超过固件 opbuf 上限 ", mw, ""));
        }
        let mr = self.max_read_len();
        if read_len > mr {
            return Err(msg_usize2("SPI 读长度 ", read_len, " 超过固件 serbuf 上限 ", mr, ""));
        }
        let params = spiop_request(write, read_len);
        self.command(S_CMD_O_SPIOP, params.as_slice(), read_len)
    }

    /// Set the SPI clock; returns the frequency the firmware settled on.
    pub fn set_spi_freq(&mut self, freq_hz: u32) -> (r: Result<u32, String>)
        requires
            old(self).wf(),
        ensures
            final(self).wf(),
            final(self).opbuf_view() == old(self).opbuf_view(),
            final(self).serbuf_view() == old(self).serbuf_view(),
            final(self).max_read_view() == old(self).max_read_view(),
            final(self).history() == old(self).history(),
    {
        let p = [(freq_hz % 256) as u8, ((freq_hz / 256) % 256) as u8, ((freq_hz / 65536) % 256) as u8, (freq_hz / 16777216) as u8];
        let d = self.command(S_CMD_S_SPI_FREQ, &p, 4)?;
        Ok(d[0] as u32 + d[1] as u32 * 256 + d[2] as u32 * 65536 + d[3] as u32 * 16777216)
    }

    /// Set a GPIO pin of the programmer (a firmware debugging aid).
    pub fn set_pin_state(&mut self, pin: u8, val: bool) -> (r: Result<(), String>)
        requires
            old(self).wf(),
        ensures
            final(self).wf(),
            final(self).history() == old(self).history(),
    {
        let v: u8 = if val { 1 } else { 0 };
        self.command(S_CMD_S_PIN_STATE, &[pin, v], 0)?;
        Ok(())
    }

    /// The firmware name: the 16-byte answer up to its first NUL.
    pub fn program_name(&mut self) -> (r: Option<String>)
        requires
            old(self).wf(),
        ensures
            final(self).wf(),
            final(self).history() == old(self).history(),
            r matches Some(s) ==> exists|d: Seq<u8>| d.len() == 16
                && s@ == crate::chipdb::utf8_lossy(d.take(crate::chipdb::find_byte(d, 0u8, 0))),
    {
        let d = match self.command(S_CMD_Q_PGMNAME, &[], 16) {
            Ok(d) => d,
            Err(_) => {
                return None;
            },
        };
        let mut end: usize = 0;
        while end < d.len() && d[end] != 0
            invariant
                end <= d@.len(),
                crate::chipdb::find_byte(d@, 0u8, 0) == crate::chipdb::find_byte(d@, 0u8, end as int),
            decreases d@.len() - end,
        {
            end = end + 1;
        }
        let mut head: Vec<u8> = Vec::new();
        let mut i: usize = 0;
        while i < end
            invariant
                i <= end,
                end <= d@.len(),
                head@ == d@.take(i as int),
            decreases end - i,
        {
            head.push(d[i]);
            assert(d@.take(i + 1) =~= d@.take(i as int).push(d@[i as int]));
            i = i + 1;
        }
        Some(crate::chipdb::lossy_string(head.as_slice()))
    }

    /// The 32-byte command map (a debugging aid).
    pub fn command_map(&mut self) -> (r: Option<Vec<u8>>)
        requires
            old(self).wf(),
        ensures
            final(self).wf(),
            final(self).history() == old(self).history(),
            r matches Some(m) ==> m@.len() == 32,
    {
        self.command(S_CMD_Q_CMDMAP, &[], 32).ok()
    }

    /// The no-operation command every firmware must support.
    pub fn nop(&mut self) -> (r: Result<(), String>)
        requires
            old(self).wf(),
        ensures
            final(self).wf(),
            final(self).history() == old(self).history(),
    {
        self.command(S_CMD_NOP, &[], 0)?;
        Ok(())
    }
}

impl<L: SerialLink> SpiBus for Serprog<L> {
    closed spec fn history(&self) -> Seq<SpiTransfer> {
        self.log@
    }

    closed spec fn replies(&self) -> Seq<Option<Seq<u8>>> {
        self.answers@
    }

    fn transact(&mut self, write: &[u8], read_len: usize) -> (r: Result<Vec<u8>, String>) {
        let r = self.spi_command(write, read_len);
        proof {
            self.log@ = self.log@.push(transfer(write@, read_len as nat));
            self.answers@ = self.answers@.push(reply_of(r));
        }
        r
    }

    fn max_write(&self) -> usize {
        self.max_write_len()
    }

    fn max_read(&self) -> usize {
        self.max_read_len()
    }
}

} // verus!
