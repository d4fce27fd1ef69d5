//! CH34X programmer model: device kinds, settings, the hardware abstraction
//! the protocol drivers target, and the wire framing of the CH341A and CH347.
//!
//! The CH341 shifts LSB first, so every SPI byte is bit-reversed on the wire.
//! A CH341 command stream starts with a 32-byte zero block and then carries
//! 32-byte USB packets: one `0xA8` marker followed by up to 31 SPI bytes.
//! The CH347 frames every command as `[cmd, len_lo, len_hi] + payload`.
use vstd::prelude::*;

verus! {

/// CH34X chip variants.
#[derive(Clone, Copy, Debug, PartialEq, Eq)]
pub enum ChipKind {
    Ch341A,
    Ch347T,
    Ch347F,
}

/// Bus mode the device is opened in (the CH34x is initialised differently
/// per chip type).
#[derive(Clone, Copy, Debug, PartialEq, Eq)]
pub enum DeviceMode {
    Spi,
    I2c,
    Microwire,
}

/// User-selectable programmer settings.
#[derive(Clone, Debug)]
pub struct Ch34xSettings {
    pub kind: ChipKind,
    /// SPI mode 0..=3.
    pub spi_mode: u8,
    /// Requested SPI clock in kHz (CH347 only; the CH341 ignores it).
    pub freq_khz: u32,
    /// Target rail voltage in mV (1200 / 1800 / 2500 / 3300).
    pub io_level_mv: u32,
    /// Vendor DLL device index (0 = first device).
    pub device_index: u32,
    /// libusb backend: select a device by bus/address; `None` = first match.
    pub usb_bus: Option<u8>,
    pub usb_address: Option<u8>,
}

/// The default settings: CH341A, SPI mode 3, 15 MHz, 3.3 V, first device.
pub open spec fn default_settings(s: Ch34xSettings) -> bool {
    s.kind == ChipKind::Ch341A && s.spi_mode == 3 && s.freq_khz == 15_000 && s.io_level_mv == 3300
        && s.device_index == 0 && s.usb_bus is None && s.usb_address is None
}

impl Default for Ch34xSettings {
    fn default() -> (s: Self)
        ensures
            default_settings(s),
    {
        Ch34xSettings {
            kind: ChipKind::Ch341A,
            spi_mode: 3,
            freq_khz: 15_000,
            io_level_mv: 3300,
            device_index: 0,
            usb_bus: None,
            usb_address: None,
        }
    }
}

/// Hardware abstraction of a programmer.
///
/// The protocol drivers only depend on this interface, not on whether the
/// device is reached through a vendor DLL or libusb. `delay_ms` and `now_ms`
/// let the drivers pace and time out their status polling.
pub trait ProgrammerHal {
    fn cs_low(&self) -> Result<(), String>;

    fn cs_high(&self) -> Result<(), String>;

    fn spi_tx(&self, data: &[u8]) -> Result<(), String>;

    /// Clock `data.len()` bytes in; the buffer keeps its length.
    fn spi_rx(&self, data: &mut [u8]) -> (r: Result<(), String>)
        ensures
            final(data)@.len() == old(data)@.len(),
    ;

    fn i2c_write(&self, data: &[u8]) -> Result<(), String>;

    /// Read an I2C stream response; returns the number of bytes received.
    fn i2c_read(&self, data: &mut [u8]) -> (r: Result<usize, String>)
        ensures
            final(data)@.len() == old(data)@.len(),
    ;

    fn gpio_setbits(&self, bits: u8) -> Result<(), String>;

    fn gpio_getbits(&self) -> Result<u8, String>;

    /// Largest SPI frame the backend moves in one transfer.
    fn spi_frame_limit(&self) -> usize;

    fn is_ch347(&self) -> bool;

    /// Wait at least `ms` milliseconds.
    fn delay_ms(&self, ms: u64);

    /// A monotonic clock in milliseconds.
    fn now_ms(&self) -> u64;
}

/// USB packet length of the CH341 bulk endpoint.
pub const CH341_PACKET_LEN: usize = 32;

/// SPI data packet marker.
pub const CH341_CMD_SPI_STREAM: u8 = 0xA8;

/// Bit `i` (0 = least significant) of `x`.
pub open spec fn bit(x: u8, i: u8) -> bool {
    (x >> i) & 1u8 == 1u8
}

/// The bit-reversed byte of `x` (swap adjacent bits, then pairs, then nibbles).
pub open spec fn spec_swap(x: u8) -> u8 {
    let a = ((x >> 1u8) & 0x55u8) | ((x << 1u8) & 0xAAu8);
    let b = ((a >> 2u8) & 0x33u8) | ((a << 2u8) & 0xCCu8);
    ((b >> 4u8) & 0x0Fu8) | ((b << 4u8) & 0xF0u8)
}

/// `spec_swap` reverses the bit order: bit `i` of the result is bit `7 - i` of `x`.
pub proof fn lemma_swap_reverses_bits(x: u8)
    ensures
        forall|i: u8| i < 8 ==> #[trigger] bit(spec_swap(x), i) == bit(x, (7 - i) as u8),
{
    let a = ((x >> 1u8) & 0x55u8) | ((x << 1u8) & 0xAAu8);
    let b = ((a >> 2u8) & 0x33u8) | ((a << 2u8) & 0xCCu8);
    let r = ((b >> 4u8) & 0x0Fu8) | ((b << 4u8) & 0xF0u8);
    assert(r == spec_swap(x));
    assert(forall|i: u8| i < 8 ==> ((r >> i) & 1u8 == 1u8) == ((x >> (7 - i) as u8) & 1u8 == 1u8))
        by (bit_vector)
        requires
            a == ((x >> 1u8) & 0x55u8) | ((x << 1u8) & 0xAAu8),
            b == ((a >> 2u8) & 0x33u8) | ((a << 2u8) & 0xCCu8),
            r == ((b >> 4u8) & 0x0Fu8) | ((b << 4u8) & 0xF0u8),
    ;
}

/// Reversing the bit order twice gives the byte back.
pub proof fn lemma_swap_involutive(x: u8)
    ensures
        spec_swap(spec_swap(x)) == x,
{
    let a = ((x >> 1u8) & 0x55u8) | ((x << 1u8) & 0xAAu8);
    let b = ((a >> 2u8) & 0x33u8) | ((a << 2u8) & 0xCCu8);
    let y = ((b >> 4u8) & 0x0Fu8) | ((b << 4u8) & 0xF0u8);
    let c = ((y >> 1u8) & 0x55u8) | ((y << 1u8) & 0xAAu8);
    let d = ((c >> 2u8) & 0x33u8) | ((c << 2u8) & 0xCCu8);
    let z = ((d >> 4u8) & 0x0Fu8) | ((d << 4u8) & 0xF0u8);
    assert(y == spec_swap(x));
    assert(z == spec_swap(y));
    assert(z == x) by (bit_vector)
        requires
            a == ((x >> 1u8) & 0x55u8) | ((x << 1u8) & 0xAAu8),
            b == ((a >> 2u8) & 0x33u8) | ((a << 2u8) & 0xCCu8),
            y == ((b >> 4u8) & 0x0Fu8) | ((b << 4u8) & 0xF0u8),
            c == ((y >> 1u8) & 0x55u8) | ((y << 1u8) & 0xAAu8),
            d == ((c >> 2u8) & 0x33u8) | ((c << 2u8) & 0xCCu8),
            z == ((d >> 4u8) & 0x0Fu8) | ((d << 4u8) & 0xF0u8),
    ;
}

/// Reverse the bit order of one byte (the CH341 is LSB-first on the wire).
pub fn swap_byte(x: u8) -> (r: u8)
    ensures
        r == spec_swap(x),
        forall|i: u8| i < 8 ==> #[trigger] bit(r, i) == bit(x, (7 - i) as u8),
{
    proof {
        lemma_swap_reverses_bits(x);
    }
    let a = ((x >> 1u8) & 0x55u8) | ((x << 1u8) & 0xAAu8);
    let b = ((a >> 2u8) & 0x33u8) | ((a << 2u8) & 0xCCu8);
    let r = ((b >> 4u8) & 0x0Fu8) | ((b << 4u8) & 0xF0u8);
    assert(r == spec_swap(x));
    r
}

/// The SPI byte stream of one command: the bit-reversed write bytes followed
/// by `read_len` placeholder `0xFF` bytes that are clocked during the read phase.
pub open spec fn stream_payload(write: Seq<u8>, read_len: nat) -> Seq<u8> {
    write.map_values(|b: u8| spec_swap(b)) + Seq::new(read_len, |i: int| 0xFFu8)
}

/// Split a byte stream into USB packets: each packet is `0xA8` followed by up
/// to 31 bytes.
pub open spec fn packetize(s: Seq<u8>) -> Seq<u8>
    decreases s.len(),
{
    if s.len() == 0 {
        Seq::empty()
    } else if s.len() <= 31 {
        seq![0xA8u8] + s
    } else {
        seq![0xA8u8] + s.take(31) + packetize(s.skip(31))
    }
}

/// The complete CH341 command stream: 32 zero bytes, then the packets.
pub open spec fn spec_ch341_stream(write: Seq<u8>, read_len: nat) -> Seq<u8> {
    Seq::new(32, |i: int| 0u8) + packetize(stream_payload(write, read_len))
}

/// Packetizing can be split at any packet boundary.
pub proof fn lemma_packetize_split(s: Seq<u8>, k: int)
    requires
        0 <= k <= s.len(),
        k % 31 == 0,
    ensures
        packetize(s) == packetize(s.take(k)) + packetize(s.skip(k)),
    decreases k,
{
    if k == 0 {
        assert(s.take(0) =~= Seq::<u8>::empty());
        assert(s.skip(0) =~= s);
        assert(packetize(s.take(0)) =~= Seq::<u8>::empty());
        assert(packetize(s) =~= packetize(s.take(k)) + packetize(s.skip(k)));
    } else if s.len() <= 31 {
        assert(k == 31 && s.len() == 31);
        assert(s.take(k) =~= s);
        assert(s.skip(k) =~= Seq::<u8>::empty());
        assert(packetize(s) =~= packetize(s.take(k)) + packetize(s.skip(k)));
    } else {
        let t = s.skip(31);
        lemma_packetize_split(t, k - 31);
        let sk = s.take(k);
        if k == 31 {
            assert(sk =~= s.take(31));
            assert(s.skip(k) =~= t);
            assert(packetize(t.take(0)) =~= Seq::<u8>::empty());
            assert(t.take(0) =~= Seq::<u8>::empty());
            assert(t.skip(0) =~= t);
            assert(packetize(s) =~= packetize(s.take(k)) + packetize(s.skip(k)));
        } else {
            assert(sk.take(31) =~= s.take(31));
            assert(sk.skip(31) =~= t.take(k - 31));
            assert(t.skip(k - 31) =~= s.skip(k));
            assert(packetize(sk) == seq![0xA8u8] + sk.take(31) + packetize(sk.skip(31)));
            assert(packetize(s) =~= packetize(s.take(k)) + packetize(s.skip(k)));
        }
    }
}

/// Build the CH341 StreamSPI4 command stream for `write` followed by a read
/// phase of `read_len` bytes.
pub fn ch341_build_stream(write: &[u8], read_len: usize) -> (out: Vec<u8>)
    requires
        write@.len() + read_len + (write@.len() + read_len) / 31 + 64 <= usize::MAX,
    ensures
        out@ == spec_ch341_stream(write@, read_len as nat),
{
    let total = write.len() + read_len;
    let ghost pl = stream_payload(write@, read_len as nat);
    let mut out: Vec<u8> = Vec::new();
    let mut z: usize = 0;
    while z < CH341_PACKET_LEN
        invariant
            z <= 32,
            out@ == Seq::new(z as nat, |i: int| 0u8),
        decreases 32 - z,
    {
        out.push(0);
        z = z + 1;
        assert(out@ =~= Seq::new(z as nat, |i: int| 0u8));
    }
    assert(pl.take(0) =~= Seq::<u8>::empty());
    assert(out@ =~= Seq::new(32, |i: int| 0u8) + packetize(pl.take(0)));
    let mut k: usize = 0;
    while k < total
        invariant
            pl == stream_payload(write@, read_len as nat),
            pl.len() == total,
            total == write@.len() + read_len,
            total + total / 31 + 64 <= usize::MAX,
            k <= total,
            k % 31 == 0 || k == total,
            out@ == Seq::new(32, |i: int| 0u8) + packetize(pl.take(k as int)),
        decreases total - k,
    {
        let end = if total - k > 31 { k + 31 } else { total };
        let ghost before = out@;
        out.push(CH341_CMD_SPI_STREAM);
        let mut j: usize = k;
        while j < end
            invariant
                pl == stream_payload(write@, read_len as nat),
                pl.len() == total,
                total == write@.len() + read_len,
                total + total / 31 + 64 <= usize::MAX,
                k <= j <= end <= total,
                end <= k + 31,
                out@ == before + seq![0xA8u8] + pl.subrange(k as int, j as int),
            decreases end - j,
        {
            let b = if j < write.len() {
                swap_byte(write[j])
            } else {
                0xFF
            };
            assert(pl[j as int] == b);
            out.push(b);
            j = j + 1;
            assert(out@ =~= before + seq![0xA8u8] + pl.subrange(k as int, j as int));
        }
        proof {
            let s = pl.take(end as int);
            lemma_packetize_split(s, k as int);
            assert(s.take(k as int) =~= pl.take(k as int));
            assert(s.skip(k as int) =~= pl.subrange(k as int, end as int));
            assert(packetize(s.skip(k as int)) =~= seq![0xA8u8] + pl.subrange(k as int, end as int));
            assert(out@ =~= Seq::new(32, |i: int| 0u8) + packetize(pl.take(end as int)));
        }
        k = end;
    }
    assert(pl.take(total as int) =~= pl);
    out
}

/// The read phase of a CH341 response: the bytes after the `write_len` echo
/// bytes, bit-reversed back.
pub open spec fn spec_extract_read(write_len: nat, read_len: nat, response: Seq<u8>) -> Seq<u8> {
    Seq::new(read_len, |i: int| spec_swap(response[write_len + i]))
}

/// Extract the read phase from a CH341 response buffer into `read`.
pub fn ch341_extract_read(write_len: usize, read: &mut [u8], response: &[u8])
    requires
        response@.len() >= write_len + old(read)@.len(),
    ensures
        final(read)@ == spec_extract_read(write_len as nat, old(read)@.len(), response@),
{
    let n = read.len();
    let rl = response.len();
    let mut i: usize = 0;
    while i < n
        invariant
            rl == response@.len(),
            n == read@.len(),
            n == old(read)@.len(),
            response@.len() >= write_len + n,
            i <= n,
            forall|j: int| 0 <= j < i ==> read@[j] == spec_swap(response@[write_len + j]),
        decreases n - i,
    {
        let idx: usize = write_len + i;
        read[i] = swap_byte(response[idx]);
        i = i + 1;
    }
    assert(read@ =~= spec_extract_read(write_len as nat, old(read)@.len(), response@));
}

// ───────────────────────────── CH347 ─────────────────────────────

/// Largest payload of one CH347 packet.
pub const CH347_MAX_TRX: usize = 507;

pub const CH347_CMD_SPI_INIT: u8 = 0xC0;
pub const CH347_CMD_SPI_CONTROL: u8 = 0xC1;
pub const CH347_CMD_SPI_BLCK_RD: u8 = 0xC3;
pub const CH347_CMD_SPI_BLCK_WR: u8 = 0xC4;

/// The first USB transfer of a CH347 packet: `[cmd, len_lo, len_hi]` and up
/// to 507 payload bytes (the rest follows as a raw transfer).
pub open spec fn spec_ch347_packet(cmd: u8, data: Seq<u8>) -> Seq<u8> {
    let first = if data.len() < CH347_MAX_TRX { data.len() as int } else { CH347_MAX_TRX as int };
    seq![cmd, (data.len() % 256) as u8, ((data.len() / 256) % 256) as u8] + data.take(first)
}

/// Build the first USB transfer of a CH347 packet.
pub fn ch347_packet(cmd: u8, data: &[u8]) -> (r: Vec<u8>)
    ensures
        r@ == spec_ch347_packet(cmd, data@),
{
    let n = data.len();
    let first = if n < CH347_MAX_TRX { n } else { CH347_MAX_TRX };
    let mut buf: Vec<u8> = Vec::new();
    buf.push(cmd);
    buf.push((n % 256) as u8);
    buf.push(((n / 256) % 256) as u8);
    let mut i: usize = 0;
    while i < first
        invariant
            first <= data@.len(),
            i <= first,
            buf@ == seq![cmd, (n % 256) as u8, ((n / 256) % 256) as u8] + data@.take(i as int),
            n == data@.len(),
        decreases first - i,
    {
        buf.push(data[i]);
        i = i + 1;
        assert(buf@ =~= seq![cmd, (n % 256) as u8, ((n / 256) % 256) as u8] + data@.take(i as int));
    }
    buf
}

/// Prescaler index for a requested SPI clock: 60 MHz halved per step, at
/// most 7 steps, stopping at the first clock not above the request.
pub open spec fn spec_ch347_prescaler(freq_khz: int, step: int) -> int
    decreases 7 - step,
{
    if step >= 7 || 60_000int / pow2(step) <= freq_khz {
        step
    } else {
        spec_ch347_prescaler(freq_khz, step + 1)
    }
}

pub open spec fn pow2(n: int) -> int
    decreases n,
{
    if n <= 0 {
        1
    } else {
        2 * pow2(n - 1)
    }
}

/// The CH347 baud prescaler field (`x * 8`, x = 0 is 60 MHz) for a clock.
pub fn ch347_prescaler(freq_khz: u32) -> (r: u16)
    ensures
        r as int == spec_ch347_prescaler(freq_khz as int, 0) * 8,
        r <= 56,
{
    let mut freq: u32 = 60_000;
    let mut prescaler: u16 = 0;
    while prescaler < 7 && freq > freq_khz
        invariant
            prescaler <= 7,
            freq as int == 60_000int / pow2(prescaler as int),
            spec_ch347_prescaler(freq_khz as int, 0) == spec_ch347_prescaler(freq_khz as int, prescaler as int),
        decreases 7 - prescaler,
    {
        assert(60_000int / pow2(prescaler as int) / 2 == 60_000int / pow2(prescaler + 1)) by {
            assert(pow2(prescaler + 1) == 2 * pow2(prescaler as int));
            assert(pow2(prescaler as int) > 0) by {
                lemma_pow2_pos(prescaler as int);
            }
            vstd::arithmetic::div_mod::lemma_div_denominator(60_000, pow2(prescaler as int), 2);
        }
        freq = freq / 2;
        prescaler = prescaler + 1;
    }
    prescaler * 8
}

pub proof fn lemma_pow2_pos(n: int)
    ensures
        pow2(n) > 0,
    decreases n,
{
    if n > 0 {
        lemma_pow2_pos(n - 1);
    }
}

/// SPI-mode fields of the CH347 configuration block: full duplex, master,
/// 8 bit, clock polarity/phase from `spi_mode`, software chip select, MSB
/// first, zero interval, MOSI idle 0, both chip selects active low. The
/// prescaler, CRC polynomial and I2C bits are left as they were.
pub open spec fn spec_ch347_spi_config(cfg: Seq<u8>, spi_mode: u8) -> Seq<u8> {
    let mode = spi_mode % 4;
    let cpol: u8 = if mode >= 2 { 2 } else { 0 };
    let cpha: u8 = if mode % 2 == 1 { 1 } else { 0 };
    Seq::new(cfg.len(), |i: int|
        if i == 0 || i == 1 { 0u8 }
        else if i == 2 { 0x04u8 }
        else if i == 3 { 0x01u8 }
        else if i == 4 || i == 5 { 0u8 }
        else if i == 6 { cpol }
        else if i == 7 { 0u8 }
        else if i == 8 { cpha }
        else if i == 9 || i == 10 { 0u8 }
        else if i == 11 { 0x02u8 }
        else if i == 14 || i == 15 || i == 18 || i == 19 || i == 20 { 0u8 }
        else if i == 21 { (cfg[21] % 64) as u8 }
        else { cfg[i] })
}

/// Apply the SPI-mode fields to a CH347 configuration block.
pub fn ch347_spi_config(cfg: &mut [u8; 40], spi_mode: u8)
    ensures
        final(cfg)@ == spec_ch347_spi_config(old(cfg)@, spi_mode),
{
    let mode = spi_mode & 0x03;
    assert(mode == spi_mode % 4) by (bit_vector)
        requires mode == spi_mode & 0x03;
    let cpol: u8 = if mode & 2 != 0 { 2 } else { 0 };
    let cpha: u8 = if mode & 1 != 0 { 1 } else { 0 };
    assert((mode & 2 != 0) == (mode >= 2) && (mode & 1 != 0) == (mode % 2 == 1)) by (bit_vector)
        requires mode < 4;
    let ghost before = cfg@;
    cfg[0] = 0;
    cfg[1] = 0;
    cfg[2] = 0x04;
    cfg[3] = 0x01;
    cfg[4] = 0;
    cfg[5] = 0;
    cfg[6] = cpol;
    cfg[7] = 0;
    cfg[8] = cpha;
    cfg[9] = 0;
    cfg[10] = 0;
    cfg[11] = 0x02;
    cfg[14] = 0;
    cfg[15] = 0;
    cfg[18] = 0;
    cfg[19] = 0;
    cfg[20] = 0;
    let c21 = cfg[21];
    let b = c21 & 0x3F;
    assert(b == c21 % 64) by (bit_vector)
        requires b == c21 & 0x3F;
    cfg[21] = b;
    assert(cfg@ =~= spec_ch347_spi_config(before, spi_mode));
}

/// The SPI chip-select control payload: chip select `cs` (0 or other)
/// driven high (`val`) or low.
pub fn ch347_cs_payload(cs: u8, val: bool) -> (r: [u8; 10])
    ensures
        forall|i: int| 0 <= i < 10 ==> #[trigger] r@[i] == (if (cs == 0 && i == 0) || (cs != 0 && i == 5) {
            if val { 0xC0u8 } else { 0x80u8 }
        } else {
            0u8
        }),
{
    let pkt_val: u8 = if val { 0xC0 } else { 0x80 };
    let mut buf = [0u8; 10];
    if cs == 0 {
        buf[0] = pkt_val;
    } else {
        buf[5] = pkt_val;
    }
    buf
}

/// Vendor-DLL clock index: 0 = 60 MHz and each step halves the clock; the
/// highest clock not above the request (7 below 937 kHz).
pub fn freq_to_clock_index(freq_khz: u32) -> (r: u8)
    ensures
        r == (if freq_khz >= 60_000 { 0u8 } else if freq_khz >= 30_000 { 1u8 } else if freq_khz
            >= 15_000 { 2u8 } else if freq_khz >= 7_500 { 3u8 } else if freq_khz >= 3_750 { 4u8 }
        else if freq_khz >= 1_875 { 5u8 } else if freq_khz >= 937 { 6u8 } else { 7u8 }),
{
    if freq_khz >= 60_000 {
        0
    } else if freq_khz >= 30_000 {
        1
    } else if freq_khz >= 15_000 {
        2
    } else if freq_khz >= 7_500 {
        3
    } else if freq_khz >= 3_750 {
        4
    } else if freq_khz >= 1_875 {
        5
    } else if freq_khz >= 937 {
        6
    } else {
        7
    }
}

/// The CH341 stream configuration packet (`AAh`, `60h | speed`, end):
/// speed 3 selects the SPI stream, 0..3 the I2C speeds.
pub fn ch341_config_stream_packet(speed: u8) -> (r: [u8; 3])
    ensures
        r@ == seq![0xAAu8, (0x60 + speed % 8) as u8, 0x00u8],
{
    let s = speed & 0x07;
    assert(s == speed % 8) by (bit_vector)
        requires s == speed & 0x07;
    [0xAA, 0x60 + s, 0x00]
}

/// The CH341 UIO packet that drives CS high five times, then low, and sets
/// the pin directions: all outputs when `enable` (chip selected), all
/// inputs otherwise (chip released).
pub fn ch341_pins_packet(enable: bool) -> (r: [u8; 9])
    ensures
        r@ == seq![0xABu8, 0xB7u8, 0xB7u8, 0xB7u8, 0xB7u8, 0xB7u8, 0xB6u8, if enable { 0x7Fu8 } else { 0x40u8 }, 0x20u8],
{
    [0xAB, 0xB7, 0xB7, 0xB7, 0xB7, 0xB7, 0xB6, if enable { 0x7F } else { 0x40 }, 0x20]
}

/// The CH341 UIO packet that sets the GPIO outputs to `bits`.
pub fn ch341_gpio_set_packet(bits: u8) -> (r: [u8; 3])
    ensures
        r@ == seq![0xABu8, bits | 0x80u8, 0x20u8],
{
    [0xAB, bits | 0x80, 0x20]
}

/// The CH341 UIO packet that makes the six GPIO pins outputs.
pub fn ch341_gpio_dir_packet() -> (r: [u8; 3])
    ensures
        r@ == seq![0xABu8, 0x7Fu8, 0x20u8],
{
    [0xAB, 0x7F, 0x20]
}

/// The CH341 UIO packet that samples the GPIO pins (one byte answers).
pub fn ch341_gpio_get_packet() -> (r: [u8; 3])
    ensures
        r@ == seq![0xABu8, 0x00u8, 0x20u8],
{
    [0xAB, 0x00, 0x20]
}

/// The payload length a CH347 response header declares, checked: the
/// transfer carries the header of `cmd` and the payload fits `capacity`.
pub open spec fn spec_ch347_response_len(cmd: u8, head: Seq<u8>, capacity: nat) -> Option<nat> {
    if head.len() < 3 || head[0] != cmd {
        None
    } else {
        let n = (head[1] + head[2] * 256) as nat;
        if n > capacity { None } else { Some(n) }
    }
}

/// See [`spec_ch347_response_len`]; `head` is what the first read returned.
pub fn ch347_response_len(cmd: u8, head: &[u8], capacity: usize) -> (r: Result<usize, String>)
    ensures
        match r {
            Ok(n) => spec_ch347_response_len(cmd, head@, capacity as nat) == Some(n as nat),
            Err(_) => spec_ch347_response_len(cmd, head@, capacity as nat) is None,
        },
{
    if head.len() < 3 || head[0] != cmd {
        return Err(crate::text::msg_join(crate::text::msg_hex2("CH347 响应头错误: 期望命令 0x", cmd, ", ").as_str(),
            crate::text::msg_usize("收到 ", head.len(), " 字节").as_str()));
    }
    let n = head[1] as usize + head[2] as usize * 256;
    if n > capacity {
        return Err(crate::text::msg_usize2("CH347 响应过长: 声明 ", n, " 字节, 缓冲区 ", capacity, " 字节"));
    }
    Ok(n)
}


proof fn lemma_prescaler_from(freq_khz: int, step: int)
    requires
        0 <= step <= 7,
    ensures
        step <= spec_ch347_prescaler(freq_khz, step) <= 7,
        spec_ch347_prescaler(freq_khz, step) < 7 ==> 60_000int / pow2(spec_ch347_prescaler(freq_khz, step)) <= freq_khz,
        forall|j: int| step <= j < spec_ch347_prescaler(freq_khz, step) ==> 60_000int / #[trigger] pow2(j) > freq_khz,
    decreases 7 - step,
{
    if !(step >= 7 || 60_000int / pow2(step) <= freq_khz) {
        lemma_prescaler_from(freq_khz, step + 1);
    }
}

/// The CH347 clock is the first of 60 MHz, 30 MHz, ... (halving, at most
/// seven times) that does not exceed the requested clock: the chosen step
/// gives a clock at or below the request (unless the slowest step is
/// reached), and every faster step would exceed it.
pub proof fn law_ch347_prescaler_first_fit(freq_khz: int)
    ensures
        0 <= spec_ch347_prescaler(freq_khz, 0) <= 7,
        spec_ch347_prescaler(freq_khz, 0) < 7 ==> 60_000int / pow2(spec_ch347_prescaler(freq_khz, 0)) <= freq_khz,
        forall|j: int| 0 <= j < spec_ch347_prescaler(freq_khz, 0) ==> 60_000int / #[trigger] pow2(j) > freq_khz,
{
    lemma_prescaler_from(freq_khz, 0);
}

} // verus!
