//! The KCP wire format: a 24-byte little-endian segment header
//! followed by a payload whose length the header states.
//!
//! Layout of a segment, offsets in bytes:
//! `conv` u32 at 0, `cmd` u8 at 4, `frg` u8 at 5, `wnd` u16 at 6,
//! `ts` u32 at 8, `sn` u32 at 12, `una` u32 at 16, `len` u32 at 20,
//! then `len` bytes of payload.

use vstd::prelude::*;
use crate::{KcpErr, KCP_OVERHEAD};

verus! {

/// Command byte of a data segment.
pub const CMD_PUSH: u8 = 81;
/// Command byte of an acknowledgment segment.
pub const CMD_ACK: u8 = 82;
/// Command byte of a window-probe request.
pub const CMD_WASK: u8 = 83;
/// Command byte of a window-size answer.
pub const CMD_WINS: u8 = 84;

/// The little-endian 16-bit value stored at offset `i` of `b`.
pub open spec fn le_u16_at(b: Seq<u8>, i: int) -> int {
    b[i] + 256 * b[i + 1]
}

/// The little-endian 32-bit value stored at offset `i` of `b`.
pub open spec fn le_u32_at(b: Seq<u8>, i: int) -> int {
    b[i] + 256 * b[i + 1] + 65536 * b[i + 2] + 16777216 * b[i + 3]
}

/// One KCP segment as it stands on the wire, header fields plus payload.
pub struct WireSeg {
    pub conv: u32,
    pub cmd: u8,
    pub frg: u8,
    pub wnd: u16,
    pub ts: u32,
    pub sn: u32,
    pub una: u32,
    pub data: Vec<u8>,
}

impl WireSeg {
    /// Number of bytes this segment occupies on the wire.
    pub open spec fn wire_len(self) -> int {
        KCP_OVERHEAD + self.data@.len()
    }
}

/// `b` is exactly the wire image of segment `s`.
pub open spec fn seg_encoded(b: Seq<u8>, s: WireSeg) -> bool {
    &&& b.len() == KCP_OVERHEAD + s.data@.len()
    &&& le_u32_at(b, 0) == s.conv
    &&& b[4] == s.cmd
    &&& b[5] == s.frg
    &&& le_u16_at(b, 6) == s.wnd
    &&& le_u32_at(b, 8) == s.ts
    &&& le_u32_at(b, 12) == s.sn
    &&& le_u32_at(b, 16) == s.una
    &&& le_u32_at(b, 20) == s.data@.len()
    &&& b.skip(KCP_OVERHEAD as int) == s.data@
}

/// A 32-bit value equals its base-256 digit decomposition.
proof fn lemma_u32_le_bytes(v: u32)
    ensures
        v == (v % 256) + 256 * ((v / 256) % 256) + 65536 * ((v / 65536) % 256)
            + 16777216 * (v / 16777216),
{
    assert(v == (v % 256) + 256 * ((v / 256) % 256) + 65536 * ((v / 65536) % 256)
        + 16777216 * (v / 16777216)) by (nonlinear_arith);
}

/// Reads the little-endian 16-bit value at offset `off`.
pub fn read_u16_le(b: &[u8], off: usize) -> (r: u16)
    requires
        off + 2 <= b@.len(),
    ensures
        r == le_u16_at(b@, off as int),
{
    let _len = b.len();
    let b0 = *vstd::slice::slice_index_get(b, off) as u16;
    let b1 = *vstd::slice::slice_index_get(b, off + 1) as u16;
    b0 + b1 * 256
}

/// Reads the little-endian 32-bit value at offset `off`.
pub fn read_u32_le(b: &[u8], off: usize) -> (r: u32)
    requires
        off + 4 <= b@.len(),
    ensures
        r == le_u32_at(b@, off as int),
{
    let _len = b.len();
    let b0 = *vstd::slice::slice_index_get(b, off) as u32;
    let b1 = *vstd::slice::slice_index_get(b, off + 1) as u32;
    let b2 = *vstd::slice::slice_index_get(b, off + 2) as u32;
    let b3 = *vstd::slice::slice_index_get(b, off + 3) as u32;
    b0 + b1 * 256 + b2 * 65536 + b3 * 16777216
}

/// The conversation id carried in the first four bytes of a datagram.
pub fn get_conv(b: &[u8]) -> (r: u32)
    requires
        b@.len() >= 4,
    ensures
        r == le_u32_at(b@, 0),
{
    read_u32_le(b, 0)
}

/// Encodes `s` into its wire image: the 24-byte header followed by
/// the payload.
pub fn encode_segment(s: &WireSeg) -> (r: Vec<u8>)
    requires
        s.data@.len() < 4294967296,
    ensures
        r@.len() == s.wire_len(),
        seg_encoded(r@, *s),
{
    let mut out: Vec<u8> = Vec::new();
    let conv = s.conv;
    let ts = s.ts;
    let sn = s.sn;
    let una = s.una;
    let lenv = s.data.len() as u32;
    out.push((conv % 256) as u8);
    out.push(((conv / 256) % 256) as u8);
    out.push(((conv / 65536) % 256) as u8);
    out.push((conv / 16777216) as u8);
    out.push(s.cmd);
    out.push(s.frg);
    out.push((s.wnd % 256) as u8);
    out.push((s.wnd / 256) as u8);
    out.push((ts % 256) as u8);
    out.push(((ts / 256) % 256) as u8);
    out.push(((ts / 65536) % 256) as u8);
    out.push((ts / 16777216) as u8);
    out.push((sn % 256) as u8);
    out.push(((sn / 256) % 256) as u8);
    out.push(((sn / 65536) % 256) as u8);
    out.push((sn / 16777216) as u8);
    out.push((una % 256) as u8);
    out.push(((una / 256) % 256) as u8);
    out.push(((una / 65536) % 256) as u8);
    out.push((una / 16777216) as u8);
    out.push((lenv % 256) as u8);
    out.push(((lenv / 256) % 256) as u8);
    out.push(((lenv / 65536) % 256) as u8);
    out.push((lenv / 16777216) as u8);
    let ghost header = out@;
    let mut d = vstd::slice::slice_to_vec(s.data.as_slice());
    out.append(&mut d);
    proof {
        lemma_u32_le_bytes(conv);
        lemma_u32_le_bytes(ts);
        lemma_u32_le_bytes(sn);
        lemma_u32_le_bytes(una);
        lemma_u32_le_bytes(lenv);
        assert(forall|i: int| 0 <= i < 24 ==> out@[i] == header[i]);
        assert(out@.skip(KCP_OVERHEAD as int) =~= s.data@);
    }
    out
}

/// Parses one segment of `b` starting at `off`.
///
/// Succeeds exactly when a full header lies at `off` and the payload
/// length it states fits inside `b`; on success the parsed segment is
/// the one whose wire image sits at `off`, and the returned offset is
/// the first byte after it.
pub fn parse_segment(b: &[u8], off: usize) -> (r: Result<(WireSeg, usize), KcpErr>)
    requires
        off <= b@.len(),
    ensures
        match r {
            Ok((s, n)) => {
                &&& off + KCP_OVERHEAD <= b@.len()
                &&& n == off + s.wire_len()
                &&& n <= b@.len()
                &&& seg_encoded(b@.subrange(off as int, n as int), s)
            },
            Err(e) => {
                &&& e == KcpErr::MalformedPacket
                &&& (off + KCP_OVERHEAD > b@.len()
                    || off + KCP_OVERHEAD + le_u32_at(b@, off + 20) > b@.len())
            },
        },
{
    if b.len() - off < KCP_OVERHEAD {
        return Err(KcpErr::MalformedPacket);
    }
    let conv = read_u32_le(b, off);
    let cmd = *vstd::slice::slice_index_get(b, off + 4);
    let frg = *vstd::slice::slice_index_get(b, off + 5);
    let wnd = read_u16_le(b, off + 6);
    let ts = read_u32_le(b, off + 8);
    let sn = read_u32_le(b, off + 12);
    let una = read_u32_le(b, off + 16);
    let len32 = read_u32_le(b, off + 20);
    if (len32 as u64) > (b.len() - off - KCP_OVERHEAD) as u64 {
        return Err(KcpErr::MalformedPacket);
    }
    let len = len32 as usize;
    let data = vstd::slice::slice_to_vec(
        vstd::slice::slice_subrange(b, off + KCP_OVERHEAD, off + KCP_OVERHEAD + len),
    );
    let s = WireSeg { conv, cmd, frg, wnd, ts, sn, una, data };
    let n = off + KCP_OVERHEAD + len;
    proof {
        let img = b@.subrange(off as int, n as int);
        assert(img.skip(KCP_OVERHEAD as int) =~= s.data@);
    }
    Ok((s, n))
}

} // verus!
