//! Firmware image decoding.
//!
//! The programmer accepts the image formats people actually use for SPI
//! flash work: raw images, Intel HEX, Motorola S-record and Microsoft UF2.
//! Parsed formats are expanded into one flat image; gaps are filled with
//! `0xFF` (the erased state of flash) and the expanded image is capped at
//! [`MAX_PARSED_IMAGE`] bytes so a malformed record cannot request an absurd
//! allocation.
use vstd::prelude::*;
use crate::sfdp::{le32, read_u32_le};
use crate::text::{msg_usize, msg_u64, str_eq};

verus! {

/// Hard cap for images expanded from Intel HEX / S-record / UF2 (256 MiB).
pub const MAX_PARSED_IMAGE: usize = 268435456;

pub const UF2_MAGIC_START0: u32 = 0x0A32_4655;
pub const UF2_MAGIC_START1: u32 = 0x9E5D_5157;
pub const UF2_MAGIC_END: u32 = 0x0AB1_6F30;
pub const UF2_BLOCK_SIZE: usize = 512;
pub const UF2_PAYLOAD_SIZE: usize = 476;

// ───────────────────────────── text helpers ─────────────────────────────

/// ASCII whitespace as `u8::is_ascii_whitespace` defines it.
pub open spec fn is_ws(b: u8) -> bool {
    b == 0x20u8 || b == 0x09u8 || b == 0x0Au8 || b == 0x0Cu8 || b == 0x0Du8
}

/// Index of the first non-whitespace byte at or after `i` (or `s.len()`).
pub open spec fn first_non_ws(s: Seq<u8>, i: int) -> int
    decreases s.len() - i,
{
    if i >= s.len() || i < 0 {
        s.len() as int
    } else if !is_ws(s[i]) {
        i
    } else {
        first_non_ws(s, i + 1)
    }
}

/// One past the last non-whitespace byte before `j` (or 0).
pub open spec fn end_non_ws(s: Seq<u8>, j: int) -> int
    decreases j,
{
    if j <= 0 || j > s.len() {
        0
    } else if !is_ws(s[j - 1]) {
        j
    } else {
        end_non_ws(s, j - 1)
    }
}

/// `s` without leading and trailing ASCII whitespace.
pub open spec fn trim(s: Seq<u8>) -> Seq<u8> {
    let a = first_non_ws(s, 0);
    if a >= s.len() {
        Seq::empty()
    } else {
        s.subrange(a, end_non_ws(s, s.len() as int))
    }
}

pub proof fn lemma_first_non_ws(s: Seq<u8>, i: int)
    requires
        0 <= i <= s.len(),
    ensures
        i <= first_non_ws(s, i) <= s.len(),
        first_non_ws(s, i) < s.len() ==> !is_ws(s[first_non_ws(s, i)]),
    decreases s.len() - i,
{
    if i < s.len() && is_ws(s[i]) {
        lemma_first_non_ws(s, i + 1);
    }
}

/// Bounds of the trimmed part of `s`: `trim(s) == s[a..b]`.
fn trim_bounds(s: &[u8]) -> (r: (usize, usize))
    ensures
        r.0 <= r.1 <= s@.len(),
        s@.subrange(r.0 as int, r.1 as int) == trim(s@),
        trim(s@).len() == r.1 - r.0,
{
    let n = s.len();
    let mut a: usize = 0;
    while a < n && (s[a] == 0x20 || s[a] == 0x09 || s[a] == 0x0A || s[a] == 0x0C || s[a] == 0x0D)
        invariant
            n == s@.len(),
            a <= n,
            first_non_ws(s@, 0) == first_non_ws(s@, a as int),
        decreases n - a,
    {
        a = a + 1;
    }
    if a == n {
        assert(s@.subrange(n as int, n as int) =~= trim(s@));
        return (n, n);
    }
    let mut b: usize = n;
    while b > 0 && (s[b - 1] == 0x20 || s[b - 1] == 0x09 || s[b - 1] == 0x0A || s[b - 1] == 0x0C
        || s[b - 1] == 0x0D)
        invariant
            n == s@.len(),
            a < n,
            !is_ws(s@[a as int]),
            a < b <= n,
            end_non_ws(s@, n as int) == end_non_ws(s@, b as int),
        decreases b,
    {
        b = b - 1;
    }
    (a, b)
}

/// Value of an ASCII hex digit, or -1.
pub open spec fn hex_val(c: u8) -> int {
    if 0x30 <= c <= 0x39 {
        c - 0x30
    } else if 0x61 <= c <= 0x66 {
        c - 0x61 + 10
    } else if 0x41 <= c <= 0x46 {
        c - 0x41 + 10
    } else {
        -1
    }
}

pub open spec fn is_hex(c: u8) -> bool {
    hex_val(c) >= 0
}

/// `s[start .. start + 2n]` consists of hex digits only.
pub open spec fn hex_pairs_ok(s: Seq<u8>, start: int, n: int) -> bool {
    forall|i: int| 0 <= i < 2 * n ==> #[trigger] is_hex(s[start + i])
}

/// The `n` bytes spelled by the hex digit pairs of `s` from `start`.
pub open spec fn hex_pairs(s: Seq<u8>, start: int, n: int) -> Seq<u8> {
    Seq::new(n as nat, |i: int| (hex_val(s[start + 2 * i]) * 16 + hex_val(s[start + 2 * i + 1])) as u8)
}

/// Decode one ASCII hex digit.
pub fn hex_digit(c: u8) -> (r: Option<u8>)
    ensures
        match r {
            Some(v) => is_hex(c) && v as int == hex_val(c) && v < 16,
            None => !is_hex(c),
        },
{
    if 0x30 <= c && c <= 0x39 {
        Some(c - 0x30)
    } else if 0x61 <= c && c <= 0x66 {
        Some(c - 0x61 + 10)
    } else if 0x41 <= c && c <= 0x46 {
        Some(c - 0x41 + 10)
    } else {
        None
    }
}

/// Decode the byte spelled by two ASCII hex digits.
pub fn hex_byte(hi: u8, lo: u8) -> (r: Option<u8>)
    ensures
        match r {
            Some(v) => is_hex(hi) && is_hex(lo) && v as int == hex_val(hi) * 16 + hex_val(lo),
            None => !(is_hex(hi) && is_hex(lo)),
        },
{
    match hex_digit(hi) {
        None => None,
        Some(h) => match hex_digit(lo) {
            None => None,
            Some(l) => Some(h * 16 + l),
        },
    }
}

/// Sum of the bytes of `s`.
pub open spec fn byte_sum(s: Seq<u8>) -> int
    decreases s.len(),
{
    if s.len() == 0 {
        0
    } else {
        byte_sum(s.drop_last()) + s.last()
    }
}

/// Decode `n` hex pairs of `s` starting at `start`, with the sum of the bytes.
fn decode_pairs(s: &[u8], start: usize, n: usize) -> (r: Option<(Vec<u8>, u32)>)
    requires
        start + 2 * n <= s@.len(),
        n <= 0x10000,
    ensures
        match r {
            Some((v, sum)) => hex_pairs_ok(s@, start as int, n as int) && v@ == hex_pairs(
                s@,
                start as int,
                n as int,
            ) && sum as int == byte_sum(v@) && sum <= 255 * n,
            None => !hex_pairs_ok(s@, start as int, n as int),
        },
{
    let sl = s.len();
    let mut v: Vec<u8> = Vec::new();
    let mut sum: u32 = 0;
    let mut i: usize = 0;
    while i < n
        invariant
            sl == s@.len(),
            start + 2 * n <= s@.len(),
            n <= 0x10000,
            i <= n,
            hex_pairs_ok(s@, start as int, i as int),
            v@ == hex_pairs(s@, start as int, i as int),
            sum as int == byte_sum(v@),
            sum <= 255 * i,
        decreases n - i,
    {
        let hi = s[start + 2 * i];
        let lo = s[start + 2 * i + 1];
        match hex_byte(hi, lo) {
            None => {
                assert(!is_hex(s@[start + 2 * i]) || !is_hex(s@[start + (2 * i + 1)]));
                return None;
            },
            Some(b) => {
                let ghost old_v = v@;
                v.push(b);
                sum = sum + b as u32;
                assert(v@.drop_last() =~= old_v);
                i = i + 1;
                assert(v@ =~= hex_pairs(s@, start as int, i as int));
                assert forall|k: int| 0 <= k < 2 * i implies #[trigger] is_hex(s@[start + k]) by {
                    if k < 2 * i - 2 {
                    } else if k == 2 * i - 2 {
                        assert(s@[start + k] == hi);
                    } else {
                        assert(s@[start + k] == lo);
                    }
                }
            },
        }
    }
    Some((v, sum))
}

/// `image` with `payload` written at `start`; bytes between the old end of
/// the image and `start` become `0xFF`.
pub open spec fn write_at(image: Seq<u8>, start: int, payload: Seq<u8>) -> Seq<u8> {
    let end = start + payload.len();
    let len = if image.len() < end {
        end
    } else {
        image.len() as int
    };
    Seq::new(
        len as nat,
        |i: int|
            if start <= i < end {
                payload[i - start]
            } else if i < image.len() {
                image[i]
            } else {
                0xFFu8
            },
    )
}

/// Write `payload` at `start` of `image`, growing it with `0xFF` as needed,
/// unless the image would exceed [`MAX_PARSED_IMAGE`].
fn place(image: &mut Vec<u8>, start: u64, payload: &[u8]) -> (ok: bool)
    ensures
        ok == (start + payload@.len() <= MAX_PARSED_IMAGE),
        ok ==> final(image)@ == write_at(old(image)@, start as int, payload@),
        !ok ==> final(image)@ == old(image)@,
{
    if start > MAX_PARSED_IMAGE as u64 || payload.len() > MAX_PARSED_IMAGE - start as usize {
        return false;
    }
    let st = start as usize;
    let end = st + payload.len();
    let ghost old_img = image@;
    let ghost target = write_at(old_img, st as int, payload@);
    while image.len() < end
        invariant
            old_img.len() <= image@.len() <= (if old_img.len() < end { end as int } else { old_img.len() as int }),
            forall|i: int| 0 <= i < old_img.len() ==> image@[i] == old_img[i],
            forall|i: int| old_img.len() <= i < image@.len() ==> image@[i] == 0xFFu8,
        decreases end - image.len(),
    {
        image.push(0xFF);
    }
    let mut i: usize = 0;
    while i < payload.len()
        invariant
            end == st + payload@.len(),
            end <= MAX_PARSED_IMAGE,
            target == write_at(old_img, st as int, payload@),
            image@.len() == target.len(),
            image@.len() >= end,
            i <= payload@.len(),
            forall|k: int| 0 <= k < image@.len() && !(st <= k < st + i) ==> image@[k] == (if k < old_img.len() { old_img[k] } else { 0xFFu8 }),
            forall|k: int| st <= k < st + i ==> image@[k] == payload@[k - st],
        decreases payload@.len() - i,
    {
        image.set(st + i, payload[i]);
        i = i + 1;
    }
    assert(image@ =~= target);
    true
}

/// Copy `s[lo..hi]` into a new vector.
pub(crate) fn copy_range(s: &[u8], lo: usize, hi: usize) -> (r: Vec<u8>)
    requires
        lo <= hi <= s@.len(),
    ensures
        r@ == s@.subrange(lo as int, hi as int),
{
    let mut r: Vec<u8> = Vec::new();
    let mut i: usize = lo;
    while i < hi
        invariant
            lo <= i <= hi <= s@.len(),
            r@ == s@.subrange(lo as int, i as int),
        decreases hi - i,
    {
        r.push(s[i]);
        i = i + 1;
        assert(r@ =~= s@.subrange(lo as int, i as int));
    }
    r
}

/// Index of the first `\n` at or after `i`, or `s.len()`.
pub open spec fn next_nl(s: Seq<u8>, i: int) -> int
    decreases s.len() - i,
{
    if i >= s.len() || i < 0 {
        s.len() as int
    } else if s[i] == 0x0Au8 {
        i
    } else {
        next_nl(s, i + 1)
    }
}

pub proof fn lemma_next_nl(s: Seq<u8>, i: int)
    requires
        0 <= i <= s.len(),
    ensures
        i <= next_nl(s, i) <= s.len(),
        next_nl(s, i) < s.len() ==> s[next_nl(s, i)] == 0x0Au8,
    decreases s.len() - i,
{
    if i < s.len() && s[i] != 0x0Au8 {
        lemma_next_nl(s, i + 1);
    }
}

/// Find the end of the line starting at `i`.
fn find_nl(s: &[u8], i: usize) -> (r: usize)
    requires
        i <= s@.len(),
    ensures
        r as int == next_nl(s@, i as int),
        i <= r <= s@.len(),
{
    proof {
        lemma_next_nl(s@, i as int);
    }
    let mut j = i;
    while j < s.len() && s[j] != 0x0A
        invariant
            i <= j <= s@.len(),
            next_nl(s@, i as int) == next_nl(s@, j as int),
        decreases s@.len() - j,
    {
        j = j + 1;
    }
    j
}

/// The trimmed line starting at byte `pos`.
pub open spec fn line_at(data: Seq<u8>, pos: int) -> Seq<u8> {
    trim(data.subrange(pos, next_nl(data, pos)))
}

/// Read the trimmed line at `pos`; returns it with the position of its end.
fn take_line(data: &[u8], pos: usize) -> (r: (Vec<u8>, usize))
    requires
        pos <= data@.len(),
    ensures
        r.0@ == line_at(data@, pos as int),
        r.1 as int == next_nl(data@, pos as int),
        pos <= r.1 <= data@.len(),
{
    let e = find_nl(data, pos);
    let raw = copy_range(data, pos, e);
    let (a, b) = trim_bounds(raw.as_slice());
    let t = copy_range(raw.as_slice(), a, b);
    (t, e)
}

// ───────────────────────────── Intel HEX ─────────────────────────────

/// Decoder state while walking the records of an Intel HEX file.
pub struct HexModel {
    pub image: Seq<u8>,
    pub linear_base: int,
    pub segment_base: int,
    pub saw_data: bool,
}

/// The bytes of one Intel HEX record line (count, address, type, data,
/// checksum), or `None` when the line is not a well-formed record with a
/// correct checksum.
pub open spec fn ihex_record(t: Seq<u8>) -> Option<Seq<u8>> {
    if t.len() == 0 || t[0] != 0x3Au8 {
        None
    } else {
        let body = t.skip(1);
        if body.len() < 10 || body.len() % 2 != 0 {
            None
        } else if !(is_hex(body[0]) && is_hex(body[1])) {
            None
        } else {
            let count = hex_val(body[0]) * 16 + hex_val(body[1]);
            if body.len() != (count + 5) * 2 {
                None
            } else if !hex_pairs_ok(body, 0, count + 5) {
                None
            } else {
                let rec = hex_pairs(body, 0, count + 5);
                if byte_sum(rec) % 256 != 0 {
                    None
                } else {
                    Some(rec)
                }
            }
        }
    }
}

/// Effect of one decoded record: `None` on an invalid record, otherwise the
/// new state and whether the record ends the file.
pub open spec fn ihex_apply(st: HexModel, rec: Seq<u8>) -> Option<(HexModel, bool)> {
    let count = rec.len() - 5;
    let addr = rec[1] * 256 + rec[2];
    let payload = rec.subrange(4, 4 + count);
    if rec[3] == 0 {
        let start = st.linear_base + st.segment_base + addr;
        if start + count > MAX_PARSED_IMAGE {
            None
        } else {
            Some((HexModel { image: write_at(st.image, start, payload), linear_base: st.linear_base,
                segment_base: st.segment_base, saw_data: true }, false))
        }
    } else if rec[3] == 1 {
        Some((st, true))
    } else if rec[3] == 2 {
        if count != 2 {
            None
        } else {
            Some((HexModel { image: st.image, linear_base: st.linear_base,
                segment_base: (payload[0] * 256 + payload[1]) * 16, saw_data: st.saw_data }, false))
        }
    } else if rec[3] == 3 || rec[3] == 5 {
        Some((st, false))
    } else if rec[3] == 4 {
        if count != 2 {
            None
        } else {
            Some((HexModel { image: st.image, linear_base: (payload[0] * 256 + payload[1]) * 65536,
                segment_base: st.segment_base, saw_data: st.saw_data }, false))
        }
    } else {
        None
    }
}

/// The image once the records are exhausted (a file needs a data record).
pub open spec fn ihex_finish(st: HexModel) -> Option<Seq<u8>> {
    if st.saw_data {
        Some(st.image)
    } else {
        None
    }
}

/// Decode the lines of `data` from byte `pos` on, starting in state `st`.
/// Blank lines are skipped; the end-of-file record ends decoding.
pub open spec fn ihex_from(data: Seq<u8>, pos: int, st: HexModel) -> Option<Seq<u8>>
    decreases data.len() + 1 - pos,
{
    if pos < 0 || pos > data.len() {
        ihex_finish(st)
    } else {
        let e = next_nl(data, pos);
        let t = line_at(data, pos);
        proof {
            lemma_next_nl(data, pos);
        }
        if t.len() == 0 {
            ihex_from(data, e + 1, st)
        } else {
            match ihex_record(t) {
                None => None,
                Some(rec) => match ihex_apply(st, rec) {
                    None => None,
                    Some((st2, eof)) => if eof {
                        ihex_finish(st2)
                    } else {
                        ihex_from(data, e + 1, st2)
                    },
                },
            }
        }
    }
}

/// The image an Intel HEX file describes, or `None` when it is invalid.
pub open spec fn spec_intel_hex(data: Seq<u8>) -> Option<Seq<u8>> {
    ihex_from(data, 0, HexModel { image: Seq::empty(), linear_base: 0, segment_base: 0, saw_data: false })
}

/// Decode one Intel HEX record line `t` (already trimmed, non-empty).
fn decode_ihex_line(t: &[u8], line_no: usize) -> (r: Result<Vec<u8>, String>)
    requires
        t@.len() > 0,
    ensures
        match r {
            Ok(rec) => ihex_record(t@) == Some(rec@),
            Err(_) => ihex_record(t@) is None,
        },
{
    if t[0] != 0x3A {
        return Err(msg_usize("Intel HEX 第 ", line_no, " 行不是 ':' 记录"));
    }
    let body_len = t.len() - 1;
    let ghost body = t@.skip(1);
    if body_len < 10 || body_len % 2 != 0 {
        return Err(msg_usize("Intel HEX 第 ", line_no, " 行记录长度无效"));
    }
    let count = match hex_byte(t[1], t[2]) {
        Some(c) => c as usize,
        None => {
            return Err(msg_usize("Intel HEX 第 ", line_no, " 行字节计数无效"));
        },
    };
    if body_len != (count + 5) * 2 {
        return Err(msg_usize("Intel HEX 第 ", line_no, " 行记录长度与字节计数不符"));
    }
    match decode_pairs(t, 1, count + 5) {
        None => {
            assert(!hex_pairs_ok(body, 0, count + 5)) by {
                if hex_pairs_ok(body, 0, count + 5) {
                    assert forall|i: int| 0 <= i < 2 * (count + 5) implies #[trigger] is_hex(t@[1 + i]) by {
                        assert(is_hex(body[0 + i]));
                    }
                }
            }
            Err(msg_usize("Intel HEX 第 ", line_no, " 行含非法十六进制字符"))
        },
        Some((rec, sum)) => {
            assert(hex_pairs_ok(body, 0, count + 5)) by {
                assert forall|i: int| 0 <= i < 2 * (count + 5) implies #[trigger] is_hex(body[0 + i]) by {
                    assert(is_hex(t@[1 + i]));
                }
            }
            assert(rec@ =~= hex_pairs(body, 0, count + 5));
            if sum & 0xFF != 0 {
                assert(sum & 0xFF == sum % 256) by (bit_vector);
                return Err(msg_usize("Intel HEX 第 ", line_no, " 行校验和错误"));
            }
            assert(sum & 0xFF == sum % 256) by (bit_vector);
            Ok(rec)
        },
    }
}

/// Parse an Intel HEX file into a flat image.
pub fn parse_intel_hex(data: &[u8]) -> (r: Result<Vec<u8>, String>)
    ensures
        match r {
            Ok(img) => spec_intel_hex(data@) == Some(img@),
            Err(_) => spec_intel_hex(data@) is None,
        },
{
    let n = data.len();
    let mut image: Vec<u8> = Vec::new();
    let mut linear_base: u64 = 0;
    let mut segment_base: u64 = 0;
    let mut saw_data = false;
    let mut pos: usize = 0;
    let mut line_idx: usize = 0;
    while pos < n
        invariant
            n == data@.len(),
            pos <= n,
            line_idx <= pos,
            linear_base <= 0xFFFF_0000,
            segment_base <= 0xF_FFF0,
            spec_intel_hex(data@) == ihex_from(data@, pos as int, HexModel { image: image@,
                linear_base: linear_base as int, segment_base: segment_base as int, saw_data }),
        decreases n - pos,
    {
        let ghost st = HexModel { image: image@, linear_base: linear_base as int,
            segment_base: segment_base as int, saw_data };
        let (t, e) = take_line(data, pos);
        let line_no = line_idx + 1;
        if t.len() > 0 {
            let rec = match decode_ihex_line(t.as_slice(), line_no) {
                Ok(rec) => rec,
                Err(msg) => {
                    return Err(msg);
                },
            };
            let count = rec.len() - 5;
            let addr = (rec[1] as u64) * 256 + rec[2] as u64;
            let rectype = rec[3];
            let ghost payload = rec@.subrange(4, 4 + count);
            if rectype == 0 {
                let payload_v = copy_range(rec.as_slice(), 4, 4 + count);
                if !place(&mut image, linear_base + segment_base + addr, payload_v.as_slice()) {
                    return Err(msg_usize("固件镜像超过解析上限 ", MAX_PARSED_IMAGE / 1024 / 1024, " MiB"));
                }
                saw_data = true;
            } else if rectype == 1 {
                if saw_data {
                    return Ok(image);
                }
                return Err("Intel HEX 文件没有数据记录".to_string());
            } else if rectype == 2 {
                if count != 2 {
                    return Err(msg_usize("Intel HEX 第 ", line_no, " 行扩展段地址记录长度应为 2"));
                }
                segment_base = ((rec[4] as u64) * 256 + rec[5] as u64) * 16;
            } else if rectype == 3 || rectype == 5 {
            } else if rectype == 4 {
                if count != 2 {
                    return Err(msg_usize("Intel HEX 第 ", line_no, " 行扩展线性地址记录长度应为 2"));
                }
                linear_base = ((rec[4] as u64) * 256 + rec[5] as u64) * 65536;
            } else {
                return Err(msg_usize("Intel HEX 第 ", line_no, " 行记录类型不支持"));
            }
        }
        if e == n {
            proof {
                assert(ihex_from(data@, (n + 1) as int, HexModel { image: image@,
                    linear_base: linear_base as int, segment_base: segment_base as int, saw_data })
                    == ihex_finish(HexModel { image: image@,
                    linear_base: linear_base as int, segment_base: segment_base as int, saw_data }));
            }
            if saw_data {
                return Ok(image);
            }
            return Err("Intel HEX 文件没有数据记录".to_string());
        }
        pos = e + 1;
        line_idx = line_idx + 1;
    }
    proof {
        let st = HexModel { image: image@, linear_base: linear_base as int,
            segment_base: segment_base as int, saw_data };
        assert(next_nl(data@, n as int) == n);
        assert(data@.subrange(n as int, n as int) =~= Seq::<u8>::empty());
        assert(line_at(data@, n as int) =~= Seq::<u8>::empty());
        assert(ihex_from(data@, n as int, st) == ihex_from(data@, n + 1, st));
    }
    if saw_data {
        Ok(image)
    } else {
        Err("Intel HEX 文件没有数据记录".to_string())
    }
}

// ────────────────────────── Motorola S-record ──────────────────────────

/// Big-endian value of the bytes of `s`.
pub open spec fn be_value(s: Seq<u8>) -> int
    decreases s.len(),
{
    if s.len() == 0 {
        0
    } else {
        be_value(s.drop_last()) * 256 + s.last()
    }
}

/// The record type digit and the bytes (address, data, checksum) of one
/// S-record line, or `None` when it is malformed or its checksum is wrong.
pub open spec fn srec_record(t: Seq<u8>) -> Option<(u8, Seq<u8>)> {
    if t.len() < 2 || t[0] != 0x53u8 || !(0x30u8 <= t[1] <= 0x39u8) {
        None
    } else {
        let body = t.skip(2);
        if body.len() < 2 || !(is_hex(body[0]) && is_hex(body[1])) {
            None
        } else {
            let count = hex_val(body[0]) * 16 + hex_val(body[1]);
            if body.len() != 2 + count * 2 || !hex_pairs_ok(body, 2, count) {
                None
            } else {
                let rec = hex_pairs(body, 2, count);
                if (count + byte_sum(rec)) % 256 != 255 {
                    None
                } else {
                    Some((t[1], rec))
                }
            }
        }
    }
}

/// Address width in bytes of the S1/S2/S3 data records.
pub open spec fn srec_addr_len(ty: u8) -> int {
    if ty == 0x31u8 {
        2
    } else if ty == 0x32u8 {
        3
    } else {
        4
    }
}

/// Decode the lines of an S-record file from `pos` on; `saw` records whether
/// a data record was seen. Termination records (S7/S8/S9) end decoding.
pub open spec fn srec_from(data: Seq<u8>, pos: int, image: Seq<u8>, saw: bool) -> Option<Seq<u8>>
    decreases data.len() + 1 - pos,
{
    let finish = if saw {
        Some(image)
    } else {
        None
    };
    if pos < 0 || pos > data.len() {
        finish
    } else {
        let e = next_nl(data, pos);
        let t = line_at(data, pos);
        proof {
            lemma_next_nl(data, pos);
        }
        if t.len() == 0 {
            srec_from(data, e + 1, image, saw)
        } else {
            match srec_record(t) {
                None => None,
                Some((ty, rec)) => if ty == 0x31u8 || ty == 0x32u8 || ty == 0x33u8 {
                    let al = srec_addr_len(ty);
                    if rec.len() < al + 1 {
                        None
                    } else {
                        let addr = be_value(rec.take(al));
                        let payload = rec.subrange(al, rec.len() - 1);
                        if addr + payload.len() > MAX_PARSED_IMAGE {
                            None
                        } else {
                            srec_from(data, e + 1, write_at(image, addr, payload), true)
                        }
                    }
                } else if ty == 0x37u8 || ty == 0x38u8 || ty == 0x39u8 {
                    finish
                } else if ty == 0x30u8 || ty == 0x35u8 || ty == 0x36u8 {
                    srec_from(data, e + 1, image, saw)
                } else {
                    None
                },
            }
        }
    }
}

/// The image an S-record file describes, or `None` when it is invalid.
pub open spec fn spec_srec(data: Seq<u8>) -> Option<Seq<u8>> {
    srec_from(data, 0, Seq::empty(), false)
}

/// Decode one S-record line `t` (already trimmed, non-empty) into its type
/// digit and record bytes.
fn decode_srec_line(t: &[u8], line_no: usize) -> (r: Result<(u8, Vec<u8>), String>)
    requires
        t@.len() > 0,
    ensures
        match r {
            Ok((ty, rec)) => srec_record(t@) == Some((ty, rec@)),
            Err(_) => srec_record(t@) is None,
        },
{
    if t.len() < 2 || t[0] != 0x53 || !(0x30 <= t[1] && t[1] <= 0x39) {
        return Err(msg_usize("S-record 第 ", line_no, " 行不是有效记录"));
    }
    let rectype = t[1];
    let body_len = t.len() - 2;
    let ghost body = t@.skip(2);
    if body_len < 2 {
        return Err(msg_usize("S-record 第 ", line_no, " 行记录过短"));
    }
    let count = match hex_byte(t[2], t[3]) {
        Some(c) => c as usize,
        None => {
            return Err(msg_usize("S-record 第 ", line_no, " 行字节计数无效"));
        },
    };
    if body_len != 2 + count * 2 {
        return Err(msg_usize("S-record 第 ", line_no, " 行记录长度与字节计数不符"));
    }
    match decode_pairs(t, 4, count) {
        None => {
            assert(!hex_pairs_ok(body, 2, count as int)) by {
                if hex_pairs_ok(body, 2, count as int) {
                    assert forall|i: int| 0 <= i < 2 * count implies #[trigger] is_hex(t@[4 + i]) by {
                        assert(is_hex(body[2 + i]));
                    }
                }
            }
            Err(msg_usize("S-record 第 ", line_no, " 行含非法十六进制字符"))
        },
        Some((rec, sum)) => {
            assert(hex_pairs_ok(body, 2, count as int)) by {
                assert forall|i: int| 0 <= i < 2 * count implies #[trigger] is_hex(body[2 + i]) by {
                    assert(is_hex(t@[4 + i]));
                }
            }
            assert(rec@ =~= hex_pairs(body, 2, count as int));
            let total = count as u32 + sum;
            assert(total & 0xFF == total % 256) by (bit_vector);
            if total & 0xFF != 0xFF {
                return Err(msg_usize("S-record 第 ", line_no, " 行校验和错误"));
            }
            Ok((rectype, rec))
        },
    }
}

/// Big-endian value of `rec[0..n]`.
fn be_prefix(rec: &[u8], n: usize) -> (r: u64)
    requires
        n <= 4,
        n <= rec@.len(),
    ensures
        r as int == be_value(rec@.take(n as int)),
        r < 0x1_0000_0000,
{
    proof {
        reveal_with_fuel(pow256, 5);
        assert(pow256(4) == 0x1_0000_0000);
        assert(pow256(3) == 0x100_0000);
        assert(pow256(2) == 0x1_0000);
        assert(pow256(1) == 0x100);
    }
    let mut v: u64 = 0;
    let mut i: usize = 0;
    while i < n
        invariant
            n <= 4,
            pow256(4) == 0x1_0000_0000,
            pow256(3) == 0x100_0000,
            pow256(2) == 0x1_0000,
            pow256(1) == 0x100,
            pow256(0) == 1,
            n <= rec@.len(),
            i <= n,
            v as int == be_value(rec@.take(i as int)),
            v < pow256(i as int),
        decreases n - i,
    {
        assert(rec@.take(i + 1).drop_last() =~= rec@.take(i as int));
        assert(v * 256 + rec@[i as int] < pow256(i + 1)) by (nonlinear_arith)
            requires
                v < pow256(i as int),
                rec@[i as int] < 256,
                pow256(i + 1) == pow256(i as int) * 256,
        ;
        v = v * 256 + rec[i] as u64;
        i = i + 1;
    }
    v
}

/// `256^i` for small `i`.
pub open spec fn pow256(i: int) -> int
    decreases i,
{
    if i <= 0 {
        1
    } else {
        pow256(i - 1) * 256
    }
}

/// Parse a Motorola S-record file into a flat image.
pub fn parse_srec(data: &[u8]) -> (r: Result<Vec<u8>, String>)
    ensures
        match r {
            Ok(img) => spec_srec(data@) == Some(img@),
            Err(_) => spec_srec(data@) is None,
        },
{
    let n = data.len();
    let mut image: Vec<u8> = Vec::new();
    let mut saw_data = false;
    let mut pos: usize = 0;
    let mut line_idx: usize = 0;
    while pos < n
        invariant
            n == data@.len(),
            pos <= n,
            line_idx <= pos,
            spec_srec(data@) == srec_from(data@, pos as int, image@, saw_data),
        decreases n - pos,
    {
        let (t, e) = take_line(data, pos);
        let line_no = line_idx + 1;
        if t.len() > 0 {
            let (rectype, rec) = match decode_srec_line(t.as_slice(), line_no) {
                Ok(x) => x,
                Err(msg) => {
                    return Err(msg);
                },
            };
            let count = rec.len();
            if rectype == 0x31 || rectype == 0x32 || rectype == 0x33 {
                let addr_len: usize = if rectype == 0x31 {
                    2
                } else if rectype == 0x32 {
                    3
                } else {
                    4
                };
                if count < addr_len + 1 {
                    return Err(msg_usize("S-record 第 ", line_no, " 行地址长度不足"));
                }
                let addr = be_prefix(rec.as_slice(), addr_len);
                let payload = copy_range(rec.as_slice(), addr_len, count - 1);
                if !place(&mut image, addr, payload.as_slice()) {
                    return Err(msg_usize("固件镜像超过解析上限 ", MAX_PARSED_IMAGE / 1024 / 1024, " MiB"));
                }
                saw_data = true;
            } else if rectype == 0x37 || rectype == 0x38 || rectype == 0x39 {
                if saw_data {
                    return Ok(image);
                }
                return Err("S-record 文件没有数据记录".to_string());
            } else if rectype == 0x30 || rectype == 0x35 || rectype == 0x36 {
            } else {
                return Err(msg_usize("S-record 第 ", line_no, " 行记录类型不支持"));
            }
        }
        if e == n {
            proof {
                assert(srec_from(data@, (n + 1) as int, image@, saw_data) == (if saw_data {
                    Some(image@)
                } else {
                    None
                }));
            }
            if saw_data {
                return Ok(image);
            }
            return Err("S-record 文件没有数据记录".to_string());
        }
        pos = e + 1;
        line_idx = line_idx + 1;
    }
    proof {
        assert(next_nl(data@, n as int) == n);
        assert(data@.subrange(n as int, n as int) =~= Seq::<u8>::empty());
        assert(line_at(data@, n as int) =~= Seq::<u8>::empty());
        assert(srec_from(data@, n as int, image@, saw_data) == srec_from(data@, n + 1, image@, saw_data));
    }
    if saw_data {
        Ok(image)
    } else {
        Err("S-record 文件没有数据记录".to_string())
    }
}

// ───────────────────────────── UF2 ─────────────────────────────

/// Outcome of expanding a UF2 file.
pub enum Uf2Outcome {
    /// The expanded image.
    Image(Seq<u8>),
    /// The file is not a valid UF2 file.
    Invalid,
    /// A valid-looking last block carries more payload than its 256-byte slot
    /// in the image can hold.
    Overrun,
}

/// Number of 512-byte blocks in `data`.
pub open spec fn uf2_blocks(data: Seq<u8>) -> int {
    data.len() as int / 512
}

pub open spec fn uf2_magic_ok(data: Seq<u8>, k: int) -> bool {
    le32(data, k * 512) == UF2_MAGIC_START0 && le32(data, k * 512 + 4) == UF2_MAGIC_START1 && le32(
        data,
        k * 512 + 508,
    ) == UF2_MAGIC_END
}

pub open spec fn uf2_payload_len(data: Seq<u8>, k: int) -> int {
    le32(data, k * 512 + 16)
}

pub open spec fn uf2_block_no(data: Seq<u8>, k: int) -> int {
    le32(data, k * 512 + 20)
}

pub open spec fn uf2_num_blocks(data: Seq<u8>, k: int) -> int {
    le32(data, k * 512 + 24)
}

/// Validate blocks `k..` (magic numbers, payload size, a consistent declared
/// block count); returns the declared block count (0 when none declares it).
pub open spec fn uf2_scan(data: Seq<u8>, k: int, declared: int) -> Option<int>
    decreases uf2_blocks(data) - k,
{
    if k < 0 || k >= uf2_blocks(data) {
        Some(declared)
    } else if !uf2_magic_ok(data, k) || uf2_payload_len(data, k) > UF2_PAYLOAD_SIZE {
        None
    } else {
        let nb = uf2_num_blocks(data, k);
        if nb != 0 && declared != 0 && nb != declared {
            None
        } else {
            uf2_scan(data, k + 1, if nb != 0 { nb } else { declared })
        }
    }
}

/// Every block that passes the scan declares at most 476 payload bytes.
pub proof fn lemma_scan_payload(data: Seq<u8>, k: int, declared: int)
    requires
        0 <= k,
        uf2_scan(data, k, declared) is Some,
    ensures
        forall|j: int| k <= j < uf2_blocks(data) ==> #[trigger] uf2_payload_len(data, j) <= UF2_PAYLOAD_SIZE,
    decreases uf2_blocks(data) - k,
{
    if k < uf2_blocks(data) {
        let nb = uf2_num_blocks(data, k);
        lemma_scan_payload(data, k + 1, if nb != 0 { nb } else { declared });
    }
}

/// Largest block number among the first `k` blocks (0 when `k == 0`).
pub open spec fn uf2_max_block(data: Seq<u8>, k: int) -> int
    decreases k,
{
    if k <= 0 {
        0
    } else {
        let m = uf2_max_block(data, k - 1);
        let b = uf2_block_no(data, k - 1);
        if b > m {
            b
        } else {
            m
        }
    }
}

/// Place the payloads of blocks `k..` into `image` (256 bytes per block
/// number); each block number may occur once.
pub open spec fn uf2_place(data: Seq<u8>, k: int, total: int, image: Seq<u8>, seen: Seq<bool>) -> Uf2Outcome
    decreases uf2_blocks(data) - k,
{
    if k < 0 || k >= uf2_blocks(data) {
        Uf2Outcome::Image(image)
    } else {
        let idx = uf2_block_no(data, k);
        let plen = uf2_payload_len(data, k);
        if idx >= total || seen[idx] {
            Uf2Outcome::Invalid
        } else if idx * 256 + plen > image.len() {
            Uf2Outcome::Overrun
        } else {
            uf2_place(
                data,
                k + 1,
                total,
                write_at(image, idx * 256, data.subrange(k * 512 + 32, k * 512 + 32 + plen)),
                seen.update(idx, true),
            )
        }
    }
}

/// The total number of 256-byte image slots of a scanned UF2 file.
pub open spec fn uf2_total(data: Seq<u8>, declared: int) -> int {
    if declared > 0 {
        declared
    } else {
        uf2_max_block(data, uf2_blocks(data)) + 1
    }
}

/// What a UF2 file expands to.
pub open spec fn spec_uf2(data: Seq<u8>) -> Uf2Outcome {
    if data.len() % 512 != 0 || data.len() == 0 {
        Uf2Outcome::Invalid
    } else {
        match uf2_scan(data, 0, 0) {
            None => Uf2Outcome::Invalid,
            Some(declared) => {
                let total = uf2_total(data, declared);
                if total * 256 > MAX_PARSED_IMAGE {
                    Uf2Outcome::Invalid
                } else {
                    uf2_place(
                        data,
                        0,
                        total,
                        Seq::new((total * 256) as nat, |i: int| 0xFFu8),
                        Seq::new(total as nat, |i: int| false),
                    )
                }
            },
        }
    }
}

/// Result of [`decode_uf2`].
pub enum Uf2Decoded {
    Image(Vec<u8>),
    Invalid(String),
    Overrun,
}

/// Expand a UF2 file, reporting a payload overrun instead of failing on it.
pub fn decode_uf2(data: &[u8]) -> (r: Uf2Decoded)
    ensures
        match r {
            Uf2Decoded::Image(img) => spec_uf2(data@) == Uf2Outcome::Image(img@),
            Uf2Decoded::Invalid(_) => spec_uf2(data@) == Uf2Outcome::Invalid,
            Uf2Decoded::Overrun => spec_uf2(data@) == Uf2Outcome::Overrun,
        },
{
    let n = data.len();
    if n % UF2_BLOCK_SIZE != 0 {
        return Uf2Decoded::Invalid(msg_usize("UF2 文件大小应为 512 字节的整数倍（实际 ", n, " 字节）"));
    }
    if n == 0 {
        return Uf2Decoded::Invalid("UF2 文件为空".to_string());
    }
    let nb = n / UF2_BLOCK_SIZE;
    let mut declared: u32 = 0;
    let mut max_block: u32 = 0;
    let mut k: usize = 0;
    while k < nb
        invariant
            n == data@.len(),
            nb == uf2_blocks(data@),
            nb * 512 == n,
            k <= nb,
            uf2_scan(data@, 0, 0) == uf2_scan(data@, k as int, declared as int),
            max_block as int == uf2_max_block(data@, k as int),
        decreases nb - k,
    {
        let off = k * UF2_BLOCK_SIZE;
        assert(off + 512 <= n) by (nonlinear_arith)
            requires
                off == k * 512,
                k < nb,
                nb * 512 == n,
        ;
        if read_u32_le(data, off) != UF2_MAGIC_START0 || read_u32_le(data, off + 4) != UF2_MAGIC_START1
            || read_u32_le(data, off + 508) != UF2_MAGIC_END {
            return Uf2Decoded::Invalid(msg_usize("UF2 块 ", k, " 魔数不匹配，不是有效的 UF2 文件"));
        }
        let payload_len = read_u32_le(data, off + 16);
        if payload_len as usize > UF2_PAYLOAD_SIZE {
            return Uf2Decoded::Invalid(msg_usize("UF2 块 ", k, " 载荷长度超过 476"));
        }
        let block_no = read_u32_le(data, off + 20);
        let num_blocks = read_u32_le(data, off + 24);
        if num_blocks != 0 {
            if declared != 0 && num_blocks != declared {
                return Uf2Decoded::Invalid("UF2 各块声明的总块数不一致".to_string());
            }
            declared = num_blocks;
        }
        if block_no > max_block {
            max_block = block_no;
        }
        k = k + 1;
    }
    let total: u64 = if declared > 0 {
        declared as u64
    } else {
        max_block as u64 + 1
    };
    if total * 256 > MAX_PARSED_IMAGE as u64 {
        return Uf2Decoded::Invalid(msg_usize("UF2 展开后超过解析上限 ", MAX_PARSED_IMAGE / 1024 / 1024, " MiB"));
    }
    proof {
        lemma_scan_payload(data@, 0, 0);
    }
    let r = uf2_fill(data, total as usize);
    proof {
        assert(Seq::new((total as usize * 256) as nat, |i: int| 0xFFu8) =~= Seq::new((total * 256) as nat, |i: int| 0xFFu8));
    }
    r
}

/// Second pass of UF2 decoding: place every block's payload into an image of
/// `total` 256-byte slots.
#[verifier::rlimit(40)]
fn uf2_fill(data: &[u8], total_blocks: usize) -> (r: Uf2Decoded)
    requires
        data@.len() % 512 == 0,
        total_blocks * 256 <= MAX_PARSED_IMAGE,
        forall|j: int| 0 <= j < uf2_blocks(data@) ==> #[trigger] uf2_payload_len(data@, j) <= UF2_PAYLOAD_SIZE,
    ensures
        match r {
            Uf2Decoded::Image(img) => uf2_place(data@, 0, total_blocks as int,
                Seq::new((total_blocks * 256) as nat, |i: int| 0xFFu8), Seq::new(total_blocks as nat, |i: int| false)) == Uf2Outcome::Image(img@),
            Uf2Decoded::Invalid(_) => uf2_place(data@, 0, total_blocks as int,
                Seq::new((total_blocks * 256) as nat, |i: int| 0xFFu8), Seq::new(total_blocks as nat, |i: int| false)) == Uf2Outcome::Invalid,
            Uf2Decoded::Overrun => uf2_place(data@, 0, total_blocks as int,
                Seq::new((total_blocks * 256) as nat, |i: int| 0xFFu8), Seq::new(total_blocks as nat, |i: int| false)) == Uf2Outcome::Overrun,
        },
{
    let n = data.len();
    let nb = n / UF2_BLOCK_SIZE;
    let total: u64 = total_blocks as u64;
    let total_bytes = total_blocks * 256;
    let mut image: Vec<u8> = Vec::new();
    while image.len() < total_bytes
        invariant
            image@.len() <= total_bytes,
            forall|i: int| 0 <= i < image@.len() ==> image@[i] == 0xFFu8,
        decreases total_bytes - image.len(),
    {
        image.push(0xFF);
    }
    let mut seen: Vec<bool> = Vec::new();
    while seen.len() < total_blocks
        invariant
            seen@.len() <= total_blocks,
            forall|i: int| 0 <= i < seen@.len() ==> !seen@[i],
        decreases total_blocks - seen.len(),
    {
        seen.push(false);
    }
    assert(image@ =~= Seq::new((total_blocks * 256) as nat, |i: int| 0xFFu8));
    assert(seen@ =~= Seq::new(total_blocks as nat, |i: int| false));
    let mut k: usize = 0;
    while k < nb
        invariant
            n == data@.len(),
            nb == uf2_blocks(data@),
            nb * 512 == n,
            k <= nb,
            total_blocks == total,
            total_bytes == total * 256,
            total_bytes <= MAX_PARSED_IMAGE,
            image@.len() == total_bytes,
            seen@.len() == total_blocks,
            forall|j: int| 0 <= j < uf2_blocks(data@) ==> #[trigger] uf2_payload_len(data@, j) <= UF2_PAYLOAD_SIZE,
            uf2_place(data@, 0, total_blocks as int, Seq::new((total_blocks * 256) as nat, |i: int| 0xFFu8),
                Seq::new(total_blocks as nat, |i: int| false)) == uf2_place(data@, k as int, total as int, image@, seen@),
        decreases nb - k,
    {
        let off = k * UF2_BLOCK_SIZE;
        assert(off + 512 <= n) by (nonlinear_arith)
            requires
                off == k * 512,
                k < nb,
                nb * 512 == n,
        ;
        let payload_len = read_u32_le(data, off + 16) as usize;
        assert(payload_len <= UF2_PAYLOAD_SIZE) by {
            assert(payload_len == uf2_payload_len(data@, k as int));
        }
        let block_no = read_u32_le(data, off + 20);
        let index = block_no as usize;
        if block_no as u64 >= total {
            return Uf2Decoded::Invalid(msg_u64("UF2 块号超出总块数 ", total, ""));
        }
        if seen[index] {
            return Uf2Decoded::Invalid(msg_usize("UF2 块号 ", index, " 重复"));
        }
        if index * 256 + payload_len > total_bytes {
            return Uf2Decoded::Overrun;
        }
        let ghost old_image = image@;
        let ghost old_seen = seen@;
        proof {
            assert(index as int == uf2_block_no(data@, k as int));
            assert(payload_len as int == uf2_payload_len(data@, k as int));
        }
        seen.set(index, true);
        let payload = copy_range(data, off + 32, off + 32 + payload_len);
        let placed = place(&mut image, (index * 256) as u64, payload.as_slice());
        proof {
            assert(placed);
            assert(image@ == write_at(old_image, index * 256, data@.subrange(k * 512 + 32, k * 512 + 32 + payload_len)));
            assert(seen@ == old_seen.update(index as int, true));
            assert(uf2_place(data@, k as int, total as int, old_image, old_seen) == uf2_place(data@, k + 1, total as int, image@, seen@));
            assert(image@.len() == total_bytes);
        }
        k = k + 1;
    }
    Uf2Decoded::Image(image)
}

/// Expand a UF2 file into a flat image (256 bytes per block number).
pub fn parse_uf2(data: &[u8]) -> (r: Result<Vec<u8>, String>)
    ensures
        match r {
            Ok(img) => spec_uf2(data@) == Uf2Outcome::Image(img@),
            Err(_) => spec_uf2(data@) == Uf2Outcome::Invalid || spec_uf2(data@) == Uf2Outcome::Overrun,
        },
        spec_uf2(data@) == Uf2Outcome::Overrun ==> (r matches Err(e) && e@ == "UF2 载荷越界"@),
{
    match decode_uf2(data) {
        Uf2Decoded::Image(img) => Ok(img),
        Uf2Decoded::Invalid(msg) => Err(msg),
        Uf2Decoded::Overrun => Err("UF2 载荷越界".to_string()),
    }
}

// ───────────────────────────── sniffing ─────────────────────────────

/// `data` starts (after whitespace) with an Intel HEX start code.
pub fn looks_like_intel_hex(data: &[u8]) -> (r: bool)
    ensures
        r == (trim(data@).len() > 0 && trim(data@)[0] == 0x3Au8),
{
    let (a, b) = trim_bounds(data);
    a < b && data[a] == 0x3A
}

/// `data` starts (after whitespace) with `S` and a decimal digit.
pub fn looks_like_srec(data: &[u8]) -> (r: bool)
    ensures
        r == (trim(data@).len() >= 2 && trim(data@)[0] == 0x53u8 && 0x30u8 <= trim(data@)[1] <= 0x39u8),
{
    let (a, b) = trim_bounds(data);
    b - a >= 2 && data[a] == 0x53 && 0x30 <= data[a + 1] && data[a + 1] <= 0x39
}

/// `data` starts with the first UF2 magic number.
pub fn looks_like_uf2(data: &[u8]) -> (r: bool)
    ensures
        r == (data@.len() >= 4 && le32(data@, 0) == UF2_MAGIC_START0),
{
    data.len() >= 4 && read_u32_le(data, 0) == UF2_MAGIC_START0
}

// ───────────────────────────── dispatch ─────────────────────────────

/// The container format an image was decoded from.
#[derive(Debug, Clone, Copy, PartialEq, Eq)]
pub enum FirmwareFormat {
    Raw,
    IntelHex,
    Srec,
    Uf2,
}

impl FirmwareFormat {
    /// Display label of the format.
    pub fn label(&self) -> (r: &'static str)
        ensures
            r@ == match self {
                FirmwareFormat::Raw => "原始镜像"@,
                FirmwareFormat::IntelHex => "Intel HEX"@,
                FirmwareFormat::Srec => "Motorola S-record"@,
                FirmwareFormat::Uf2 => "UF2"@,
            },
    {
        match self {
            FirmwareFormat::Raw => "原始镜像",
            FirmwareFormat::IntelHex => "Intel HEX",
            FirmwareFormat::Srec => "Motorola S-record",
            FirmwareFormat::Uf2 => "UF2",
        }
    }
}

/// Intel HEX file extensions (lower case).
pub open spec fn is_ihex_ext(ext: Seq<char>) -> bool {
    ext == "hex"@ || ext == "ihex"@ || ext == "mcs"@
}

/// S-record file extensions (lower case).
pub open spec fn is_srec_ext(ext: Seq<char>) -> bool {
    ext == "srec"@ || ext == "s19"@ || ext == "s28"@ || ext == "s37"@ || ext == "mot"@
}

pub open spec fn tag(r: Option<Seq<u8>>, f: FirmwareFormat) -> Option<(Seq<u8>, FirmwareFormat)> {
    match r {
        Some(img) => Some((img, f)),
        None => None,
    }
}

pub open spec fn tag_uf2(r: Uf2Outcome) -> Option<(Seq<u8>, FirmwareFormat)> {
    match r {
        Uf2Outcome::Image(img) => Some((img, FirmwareFormat::Uf2)),
        _ => None,
    }
}

/// Whether decoding a file with extension `ext` goes through the UF2 parser.
pub open spec fn selects_uf2(raw: Seq<u8>, ext: Seq<char>) -> bool {
    !is_ihex_ext(ext) && !is_srec_ext(ext) && (ext == "uf2"@ || (raw.len() >= 4 && le32(raw, 0)
        == UF2_MAGIC_START0))
}

/// How a file with the (lower-case) extension `ext` and contents `raw` is
/// decoded: by extension first, then by sniffing the contents; an S-record
/// sniff only counts when the whole file parses; anything else is raw.
pub open spec fn spec_decode_firmware(raw: Seq<u8>, ext: Seq<char>) -> Option<(Seq<u8>, FirmwareFormat)> {
    if is_ihex_ext(ext) {
        tag(spec_intel_hex(raw), FirmwareFormat::IntelHex)
    } else if is_srec_ext(ext) {
        tag(spec_srec(raw), FirmwareFormat::Srec)
    } else if ext == "uf2"@ || (raw.len() >= 4 && le32(raw, 0) == UF2_MAGIC_START0) {
        tag_uf2(spec_uf2(raw))
    } else if trim(raw).len() > 0 && trim(raw)[0] == 0x3Au8 {
        tag(spec_intel_hex(raw), FirmwareFormat::IntelHex)
    } else if trim(raw).len() >= 2 && trim(raw)[0] == 0x53u8 && 0x30u8 <= trim(raw)[1] <= 0x39u8
        && spec_srec(raw) is Some {
        tag(spec_srec(raw), FirmwareFormat::Srec)
    } else {
        Some((raw, FirmwareFormat::Raw))
    }
}

fn tagged(r: Result<Vec<u8>, String>, f: FirmwareFormat) -> (out: Result<(Vec<u8>, FirmwareFormat), String>)
    ensures
        match out {
            Ok((img, g)) => r is Ok && img@ == r->Ok_0@ && g == f,
            Err(_) => r is Err,
        },
{
    match r {
        Ok(img) => Ok((img, f)),
        Err(e) => Err(e),
    }
}

/// Decode the contents `raw` of a firmware file whose extension, in lower
/// case, is `ext`.
pub fn decode_firmware(raw: Vec<u8>, ext: &str) -> (r: Result<(Vec<u8>, FirmwareFormat), String>)
    ensures
        match r {
            Ok((img, f)) => spec_decode_firmware(raw@, ext@) == Some((img@, f)),
            Err(_) => spec_decode_firmware(raw@, ext@) is None,
        },
{
    if str_eq(ext, "hex") || str_eq(ext, "ihex") || str_eq(ext, "mcs") {
        return tagged(parse_intel_hex(raw.as_slice()), FirmwareFormat::IntelHex);
    }
    if str_eq(ext, "srec") || str_eq(ext, "s19") || str_eq(ext, "s28") || str_eq(ext, "s37") || str_eq(
        ext,
        "mot",
    ) {
        return tagged(parse_srec(raw.as_slice()), FirmwareFormat::Srec);
    }
    if str_eq(ext, "uf2") || looks_like_uf2(raw.as_slice()) {
        return tagged(parse_uf2(raw.as_slice()), FirmwareFormat::Uf2);
    }
    if looks_like_intel_hex(raw.as_slice()) {
        return tagged(parse_intel_hex(raw.as_slice()), FirmwareFormat::IntelHex);
    }
    if looks_like_srec(raw.as_slice()) {
        let parsed = parse_srec(raw.as_slice());
        if let Ok(bytes) = parsed {
            return Ok((bytes, FirmwareFormat::Srec));
        }
    }
    Ok((raw, FirmwareFormat::Raw))
}

} // verus!
