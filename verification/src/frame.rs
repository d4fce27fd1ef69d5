//! Wire framing shared by the sidecar transports:
//!
//! ```text
//! +----------------+----------------------+
//! | 4 bytes LE len | UTF-8 JSON payload   |
//! +----------------+----------------------+
//! ```
use vstd::prelude::*;
use crate::sfdp::le32;
use crate::text::msg_usize;

verus! {

pub const HEADER_LEN: usize = 4;

/// Hard ceiling on a declared frame length (64 MiB), so a corrupt length
/// field cannot request an unbounded allocation.
pub const MAX_FRAME_LEN: usize = 67108864;

/// Little-endian bytes of a 32-bit length.
pub open spec fn le_bytes32(n: u32) -> Seq<u8> {
    seq![(n & 0xFF) as u8, ((n >> 8u32) & 0xFF) as u8, ((n >> 16u32) & 0xFF) as u8, ((n >> 24u32) & 0xFF) as u8]
}

/// The frame carrying `payload`.
pub open spec fn spec_encode(payload: Seq<u8>) -> Seq<u8> {
    le_bytes32(payload.len() as u32) + payload
}

/// Encode `payload` as a 4-byte little-endian length prefix plus payload.
pub fn encode(payload: &[u8]) -> (r: Result<Vec<u8>, String>)
    ensures
        match r {
            Ok(frame) => payload@.len() <= u32::MAX && frame@ == spec_encode(payload@),
            Err(_) => payload@.len() > u32::MAX,
        },
{
    let n = payload.len();
    if n > u32::MAX as usize {
        return Err(msg_usize("payload too large to frame: ", n, " bytes"));
    }
    let len = n as u32;
    let mut frame: Vec<u8> = Vec::new();
    frame.push((len & 0xFF) as u8);
    frame.push(((len >> 8) & 0xFF) as u8);
    frame.push(((len >> 16) & 0xFF) as u8);
    frame.push(((len >> 24) & 0xFF) as u8);
    let mut i: usize = 0;
    while i < n
        invariant
            n == payload@.len(),
            len == n,
            i <= n,
            frame@ == le_bytes32(len) + payload@.take(i as int),
        decreases n - i,
    {
        frame.push(payload[i]);
        i = i + 1;
        assert(frame@ =~= le_bytes32(len) + payload@.take(i as int));
    }
    assert(payload@.take(n as int) =~= payload@);
    Ok(frame)
}

/// Decode a frame header into the payload length, refusing lengths above
/// [`MAX_FRAME_LEN`].
pub fn payload_len(header: [u8; 4]) -> (r: Result<usize, String>)
    ensures
        match r {
            Ok(n) => n as int == le32(header@, 0) && n <= MAX_FRAME_LEN,
            Err(e) => le32(header@, 0) > MAX_FRAME_LEN
                && e@ == "declared frame length exceeds maximum "@ + crate::devcore::decimal(MAX_FRAME_LEN as nat),
        },
{
    let n = header[0] as u64 + header[1] as u64 * 0x100 + header[2] as u64 * 0x1_0000 + header[3] as u64
        * 0x100_0000;
    if n > MAX_FRAME_LEN as u64 {
        let e = msg_usize("declared frame length exceeds maximum ", MAX_FRAME_LEN, "");
        proof {
            reveal_strlit("");
            assert(e@ =~= "declared frame length exceeds maximum "@ + crate::devcore::decimal(MAX_FRAME_LEN as nat));
        }
        return Err(e);
    }
    Ok(n as usize)
}

/// What reading one frame from the bytes `c` yields: the payload and the
/// bytes after it, or `None` when the header or payload is cut short or the
/// declared length is too large.
pub open spec fn spec_read_frame(c: Seq<u8>) -> Option<(Seq<u8>, Seq<u8>)> {
    if c.len() < 4 {
        None
    } else {
        let n = le32(c, 0);
        if n > MAX_FRAME_LEN || c.len() < 4 + n {
            None
        } else {
            Some((c.subrange(4, 4 + n), c.skip(4 + n)))
        }
    }
}

/// Take `n` bytes off the front of `reader`; on a short read the reader is
/// drained.
fn read_exact(reader: &mut &[u8], n: usize) -> (r: Option<Vec<u8>>)
    ensures
        match r {
            Some(v) => old(reader)@.len() >= n && v@ == old(reader)@.take(n as int) && final(reader)@
                == old(reader)@.skip(n as int),
            None => old(reader)@.len() < n && final(reader)@.len() == 0,
        },
{
    let len = reader.len();
    if len < n {
        let (_, tail) = reader.split_at(len);
        *reader = tail;
        return None;
    }
    let (head, tail) = reader.split_at(n);
    let mut v: Vec<u8> = Vec::new();
    let mut i: usize = 0;
    while i < n
        invariant
            head@.len() == n,
            i <= n,
            v@ == head@.take(i as int),
        decreases n - i,
    {
        v.push(head[i]);
        i = i + 1;
        assert(v@ =~= head@.take(i as int));
    }
    assert(v@ =~= head@);
    *reader = tail;
    Some(v)
}

/// Why the bytes `c` hold no complete frame: the header or the payload is
/// cut short, or the declared length is over the limit.
pub open spec fn frame_error_text(c: Seq<u8>) -> Seq<char> {
    if c.len() < 4 {
        "failed to read 4-byte frame length header: unexpected end of stream"@
    } else if le32(c, 0) > MAX_FRAME_LEN {
        "declared frame length exceeds maximum "@ + crate::devcore::decimal(MAX_FRAME_LEN as nat)
    } else {
        "failed to read frame payload of "@ + crate::devcore::decimal(le32(c, 0) as nat) + " bytes: unexpected end of stream"@
    }
}

/// Read one complete frame from the front of `reader`.
pub fn read_frame(reader: &mut &[u8]) -> (r: Result<Vec<u8>, String>)
    ensures
        match r {
            Ok(p) => spec_read_frame(old(reader)@) == Some((p@, final(reader)@)),
            Err(e) => spec_read_frame(old(reader)@) is None && e@ == frame_error_text(old(reader)@),
        },
{
    let ghost c = reader@;
    let header = match read_exact(reader, HEADER_LEN) {
        Some(h) => h,
        None => {
            return Err("failed to read 4-byte frame length header: unexpected end of stream".to_string());
        },
    };
    let n = match payload_len([header[0], header[1], header[2], header[3]]) {
        Ok(n) => n,
        Err(e) => {
            assert(le32(c, 0) == le32(header@, 0));
            return Err(e);
        },
    };
    assert(le32(c, 0) == n);
    match read_exact(reader, n) {
        Some(p) => {
            assert(p@ =~= c.subrange(4, 4 + n));
            assert(reader@ =~= c.skip(4 + n));
            Ok(p)
        },
        None => Err(msg_usize("failed to read frame payload of ", n, " bytes: unexpected end of stream")),
    }
}

/// Reading back an encoded frame gives the payload and leaves what followed
/// it untouched.
pub proof fn lemma_frame_round_trip(payload: Seq<u8>, rest: Seq<u8>)
    requires
        payload.len() <= MAX_FRAME_LEN,
    ensures
        spec_read_frame(spec_encode(payload) + rest) == Some((payload, rest)),
{
    let n = payload.len() as u32;
    let c = spec_encode(payload) + rest;
    assert((n & 0xFF) + ((n >> 8u32) & 0xFF) * 0x100 + ((n >> 16u32) & 0xFF) * 0x1_0000 + ((n >> 24u32)
        & 0xFF) * 0x100_0000 == n) by (bit_vector);
    assert(((n & 0xFF) as u8) as int == (n & 0xFF)) by (bit_vector);
    assert((((n >> 8u32) & 0xFF) as u8) as int == ((n >> 8u32) & 0xFF)) by (bit_vector);
    assert((((n >> 16u32) & 0xFF) as u8) as int == ((n >> 16u32) & 0xFF)) by (bit_vector);
    assert((((n >> 24u32) & 0xFF) as u8) as int == ((n >> 24u32) & 0xFF)) by (bit_vector);
    assert(le32(c, 0) == n);
    assert(c.subrange(4, 4 + n) =~= payload);
    assert(c.skip(4 + n) =~= rest);
}

/// Describe a sidecar JSON-RPC error the way the host reports it: the two
/// protocol-level codes get a symbolic prefix.
pub fn describe_rpc_error(code: i64, message: &str) -> (r: String)
    ensures
        code == -32001 ==> r@ == "CAPABILITY_NOT_EXPOSED: "@ + message@,
        code == -32002 ==> r@ == "BUSY: "@ + message@,
{
    if code == -32001 {
        let mut s = String::from_str("CAPABILITY_NOT_EXPOSED: ");
        s.append(message);
        s
    } else if code == -32002 {
        let mut s = String::from_str("BUSY: ");
        s.append(message);
        s
    } else {
        crate::text::msg_rpc_error(code, message)
    }
}

} // verus!
