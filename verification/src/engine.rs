//! The per-session ARQ engine: sliding send/receive windows over
//! 32-bit sequence numbers, cumulative and selective acknowledgment,
//! retransmission with exponential backoff, fast retransmit after a
//! configurable number of duplicate acks, window probing, and a
//! dead-link verdict once a segment has been resent too often.
//!
//! The engine is a pure state machine: time comes in as an argument,
//! outbound datagrams come out as return values, and inbound
//! datagrams are handed to [`Kcp::input`] as byte slices.

use vstd::prelude::*;
use vstd::seq_lib::*;
use crate::{KcpErr, KCP_OVERHEAD};
use crate::codec::{le_u32_at, WireSeg, CMD_PUSH, CMD_ACK, CMD_WASK, CMD_WINS};

verus! {

/// Largest payload of one segment: the MTU minus the header.
pub const KCP_MSS: usize = 1376;

/// Largest number of fragments one message may occupy (the fragment
/// counter on the wire is a single byte).
pub const MAX_FRAGS: usize = 255;

/// Largest payload of one `send` call: `MAX_FRAGS * KCP_MSS`.
pub const MAX_MESSAGE: usize = 350880;

/// Cap on the number of queued-but-unsent fragments; beyond it
/// `send` reports backpressure.
pub const SND_QUEUE_CAP: usize = 65536;

/// One buffered segment: a fragment of a user message together with
/// the retransmission bookkeeping the send buffer needs.
pub struct Segment {
    /// Fragment counter: how many more segments follow in this message.
    pub frg: u8,
    /// Sequence number (meaningful once the segment is in flight).
    pub sn: u32,
    /// How often the segment has been transmitted.
    pub xmit: u32,
    /// Duplicate-ack count used for fast retransmit.
    pub fastack: u32,
    /// Current retransmission timeout of this segment, in ms.
    pub rto: u64,
    /// Next time the segment is due for retransmission, in ms.
    pub resendts: u64,
    /// Payload bytes.
    pub data: Vec<u8>,
}

/// The bytes held by a run of segments, in order.
pub open spec fn queue_bytes(q: Seq<Segment>) -> Seq<u8>
    decreases q.len(),
{
    if q.len() == 0 {
        Seq::empty()
    } else {
        q[0].data@ + queue_bytes(q.drop_first())
    }
}

/// Sequence numbers strictly ascend along `q`.
pub open spec fn sns_sorted(q: Seq<Segment>) -> bool {
    forall|i: int, j: int| 0 <= i < j < q.len() ==> q[i].sn < q[j].sn
}

/// Every sequence number of `q` lies in `[lo, hi)`.
pub open spec fn sns_in(q: Seq<Segment>, lo: int, hi: int) -> bool {
    forall|i: int| 0 <= i < q.len() ==> lo <= #[trigger] q[i].sn && q[i].sn < hi
}

/// Every payload of `q` fits in one segment on the wire.
pub open spec fn datas_bounded(q: Seq<Segment>) -> bool {
    forall|i: int| 0 <= i < q.len() ==> #[trigger] q[i].data@.len() <= KCP_MSS
}

/// A run of strictly ascending numbers inside `[lo, hi)` cannot hold
/// more than `hi - lo` segments.
pub proof fn lemma_sorted_len_bound(q: Seq<Segment>, lo: int, hi: int)
    requires
        sns_sorted(q),
        sns_in(q, lo, hi),
        lo <= hi,
    ensures
        q.len() <= hi - lo,
    decreases q.len(),
{
    if q.len() > 0 {
        assert(lo <= q[0].sn && q[0].sn < hi);
        let tail = q.drop_first();
        assert(forall|i: int| 0 <= i < tail.len() ==> tail[i] == q[i + 1]);
        assert(forall|i: int| 0 <= i < tail.len() ==> lo + 1 <= #[trigger] tail[i].sn && tail[i].sn < hi) by {
            assert(forall|i: int| 0 <= i < tail.len() ==> q[0].sn < #[trigger] tail[i].sn);
        }
        lemma_sorted_len_bound(tail, lo + 1, hi);
    }
}

/// Appending a segment appends its bytes.
pub proof fn lemma_queue_bytes_push(q: Seq<Segment>, s: Segment)
    ensures
        queue_bytes(q.push(s)) == queue_bytes(q) + s.data@,
    decreases q.len(),
{
    if q.len() == 0 {
        assert(q.push(s).drop_first() =~= q);
        assert(queue_bytes(q.push(s)) =~= queue_bytes(q) + s.data@);
    } else {
        assert(q.push(s).drop_first() =~= q.drop_first().push(s));
        lemma_queue_bytes_push(q.drop_first(), s);
        assert(queue_bytes(q.push(s)) =~= queue_bytes(q) + s.data@);
    }
}

/// Bytes of a concatenation are the concatenation of the bytes.
pub proof fn lemma_queue_bytes_add(a: Seq<Segment>, b: Seq<Segment>)
    ensures
        queue_bytes(a + b) == queue_bytes(a) + queue_bytes(b),
    decreases a.len(),
{
    if a.len() == 0 {
        assert(a + b =~= b);
        assert(queue_bytes(a + b) =~= queue_bytes(a) + queue_bytes(b));
    } else {
        assert((a + b).drop_first() =~= a.drop_first() + b);
        lemma_queue_bytes_add(a.drop_first(), b);
        assert(queue_bytes(a + b) =~= queue_bytes(a) + queue_bytes(b));
    }
}

/// How many fragments a message of `len` bytes occupies.
pub open spec fn frag_count(len: int) -> int {
    if len == 0 {
        0
    } else {
        (len + KCP_MSS - 1) / (KCP_MSS as int)
    }
}

/// `frags` carve `msg` into fragments in order: their payloads
/// concatenate to `msg` and their fragment counters count down to 0.
pub open spec fn is_fragmentation(frags: Seq<Segment>, msg: Seq<u8>) -> bool {
    &&& frags.len() == frag_count(msg.len() as int)
    &&& queue_bytes(frags) == msg
    &&& (forall|i: int| 0 <= i < frags.len() ==> #[trigger] frags[i].frg == frags.len() - 1 - i)
    &&& datas_bounded(frags)
}

/// `k` is the position of the first fragment counter 0 in `q`.
pub open spec fn is_first_zero(q: Seq<Segment>, k: int) -> bool {
    &&& 0 <= k < q.len()
    &&& q[k].frg == 0
    &&& (forall|j: int| 0 <= j < k ==> #[trigger] q[j].frg != 0)
}

/// Number of leading segments of `q` that the next delivery pops:
/// up to and including the first fragment counter 0, or all of `q`
/// when no segment closes the message.
pub open spec fn msg_seg_count(q: Seq<Segment>) -> int {
    if exists|k: int| is_first_zero(q, k) {
        (choose|k: int| is_first_zero(q, k)) + 1
    } else {
        q.len() as int
    }
}

/// The bytes the next delivery returns.
pub open spec fn msg_bytes(q: Seq<Segment>) -> Seq<u8> {
    queue_bytes(q.take(msg_seg_count(q)))
}

/// The first-zero position is unique.
pub proof fn lemma_first_zero_unique(q: Seq<Segment>, k1: int, k2: int)
    requires
        is_first_zero(q, k1),
        is_first_zero(q, k2),
    ensures
        k1 == k2,
{
}

/// `s` carries the same number and payload as some segment of `b`.
pub open spec fn seg_in(s: Segment, b: Seq<Segment>) -> bool {
    exists|j: int| 0 <= j < b.len() && s.sn == #[trigger] b[j].sn && s.data == b[j].data
}

/// Every segment of `a` appears (by number and payload) in `b`:
/// `a` arose from `b` by removals and bookkeeping updates alone.
pub open spec fn seg_subset(a: Seq<Segment>, b: Seq<Segment>) -> bool {
    forall|i: int| 0 <= i < a.len() ==> seg_in(#[trigger] a[i], b)
}

/// A run is a rearrangement-free subset of itself.
pub proof fn lemma_seg_subset_refl(a: Seq<Segment>)
    ensures
        seg_subset(a, a),
{
    assert forall|i: int| 0 <= i < a.len() implies seg_in(#[trigger] a[i], a) by {
        let j = i;
        assert(0 <= j < a.len() && a[i].sn == a[j].sn && a[i].data == a[j].data);
        assert(seg_in(a[i], a));
    }
}

/// Dropping the head of a run keeps the rest a subset of it.
pub proof fn lemma_seg_subset_tail(a: Seq<Segment>, b: Seq<Segment>)
    requires
        a.len() + 1 == b.len(),
        forall|i: int| 0 <= i < a.len() ==> #[trigger] a[i] == b[i + 1],
    ensures
        seg_subset(a, b),
{
    assert forall|i: int| 0 <= i < a.len() implies seg_in(#[trigger] a[i], b) by {
        assert(a[i] == b[i + 1]);
        assert(0 <= i + 1 < b.len() && a[i].sn == b[i + 1].sn && a[i].data == b[i + 1].data);
    }
}

/// `seg_subset` composes.
pub proof fn lemma_seg_subset_trans(a: Seq<Segment>, b: Seq<Segment>, c: Seq<Segment>)
    requires
        seg_subset(a, b),
        seg_subset(b, c),
    ensures
        seg_subset(a, c),
{
    assert forall|i: int| 0 <= i < a.len() implies seg_in(#[trigger] a[i], c) by {
        let j = choose|j: int| 0 <= j < b.len() && a[i].sn == #[trigger] b[j].sn
            && a[i].data == b[j].data;
        assert(seg_in(b[j], c));
    }
}

/// Each segment's payload sits contiguously inside the byte run of
/// its queue, at the offset given by the payloads before it.
pub proof fn lemma_seg_bytes_within(q: Seq<Segment>, j: int)
    requires
        0 <= j < q.len(),
    ensures
        exists|off: int| 0 <= off && off + q[j].data@.len() <= queue_bytes(q).len()
            && #[trigger] queue_bytes(q).subrange(off, off + q[j].data@.len() as int)
                == q[j].data@,
    decreases j,
{
    if j == 0 {
        let off: int = 0;
        assert(queue_bytes(q).subrange(off, off + q[0].data@.len() as int) =~= q[0].data@);
        assert(0 <= off && off + q[j].data@.len() <= queue_bytes(q).len()
            && queue_bytes(q).subrange(off, off + q[j].data@.len() as int) == q[j].data@);
    } else {
        let tail = q.drop_first();
        lemma_seg_bytes_within(tail, j - 1);
        let off0 = choose|off0: int| 0 <= off0
            && off0 + tail[j - 1].data@.len() <= queue_bytes(tail).len()
            && #[trigger] queue_bytes(tail).subrange(off0, off0 + tail[j - 1].data@.len() as int)
                == tail[j - 1].data@;
        let off = q[0].data@.len() + off0;
        assert(tail[j - 1] == q[j]);
        assert(queue_bytes(q).subrange(off as int, off + q[j].data@.len() as int)
            =~= queue_bytes(tail).subrange(off0, off0 + q[j].data@.len() as int));
        assert(0 <= off && off + q[j].data@.len() <= queue_bytes(q).len()
            && queue_bytes(q).subrange(off as int, off + q[j].data@.len() as int)
                == q[j].data@);
    }
}

/// Segments with pairwise equal payloads carry equal byte runs.
pub proof fn lemma_queue_bytes_data_eq(a: Seq<Segment>, b: Seq<Segment>)
    requires
        a.len() == b.len(),
        forall|i: int| 0 <= i < a.len() ==> #[trigger] a[i].data == b[i].data,
    ensures
        queue_bytes(a) == queue_bytes(b),
    decreases a.len(),
{
    if a.len() > 0 {
        let ta = a.drop_first();
        let tb = b.drop_first();
        assert(forall|i: int| 0 <= i < ta.len() ==> #[trigger] ta[i].data == tb[i].data) by {
            assert(forall|i: int| 0 <= i < ta.len() ==> ta[i] == a[i + 1] && tb[i] == b[i + 1]);
        }
        lemma_queue_bytes_data_eq(ta, tb);
        assert(queue_bytes(a) =~= queue_bytes(b));
    }
}

/// Every sequence is a prefix of itself.
pub proof fn lemma_prefix_refl<T>(s: Seq<T>)
    ensures
        s.is_prefix_of(s),
{
    assert(s =~= s.subrange(0, s.len() as int));
}

/// Prepending the same run to a prefix pair keeps it a prefix pair.
pub proof fn lemma_concat_prefix(d: Seq<u8>, a: Seq<u8>, b: Seq<u8>)
    requires
        a.is_prefix_of(b),
    ensures
        (d + a).is_prefix_of(d + b),
{
    assert((d + a) =~= (d + b).subrange(0, (d + a).len() as int));
}

/// Prefixes compose.
pub proof fn lemma_prefix_trans<T>(a: Seq<T>, b: Seq<T>, c: Seq<T>)
    requires
        a.is_prefix_of(b),
        b.is_prefix_of(c),
    ensures
        a.is_prefix_of(c),
{
    assert(a =~= c.subrange(0, a.len() as int));
}

/// A fresh copy of a byte vector.
fn copy_bytes(v: &Vec<u8>) -> (r: Vec<u8>)
    ensures
        r@ == v@,
{
    let mut r: Vec<u8> = Vec::new();
    let mut i: usize = 0;
    while i < v.len()
        invariant
            i <= v@.len(),
            r@ == v@.take(i as int),
        decreases v@.len() - i,
    {
        r.push(v[i]);
        proof {
            assert(r@ =~= v@.take(i + 1 as int));
        }
        i = i + 1;
    }
    proof {
        assert(v@.take(v@.len() as int) =~= v@);
    }
    r
}

/// A known KCP command byte.
pub open spec fn valid_cmd(c: u8) -> bool {
    c == CMD_PUSH || c == CMD_ACK || c == CMD_WASK || c == CMD_WINS
}

/// Bytes a segment starting at `off` occupies, header included.
pub open spec fn seg_span(b: Seq<u8>, off: int) -> int {
    KCP_OVERHEAD + le_u32_at(b, off + 20)
}

/// From `off` on, `b` is a well-formed chain of segments of
/// conversation `conv`: each header fits, states a payload that fits,
/// carries a known command, and data payloads respect the segment
/// size; fewer than `KCP_OVERHEAD` trailing bytes are ignored.
pub open spec fn datagram_ok_from(b: Seq<u8>, conv: u32, off: int) -> bool
    decreases b.len() - off,
{
    if b.len() - off < KCP_OVERHEAD {
        true
    } else {
        &&& off + seg_span(b, off) <= b.len()
        &&& le_u32_at(b, off) == conv
        &&& valid_cmd(b[off + 4])
        &&& (b[off + 4] == CMD_PUSH ==> le_u32_at(b, off + 20) <= KCP_MSS)
        &&& datagram_ok_from(b, conv, off + seg_span(b, off))
    }
}

/// `b` is a datagram the engine of conversation `conv` accepts whole.
pub open spec fn datagram_ok(b: Seq<u8>, conv: u32) -> bool {
    datagram_ok_from(b, conv, 0)
}

/// Timestamps the engine works with, clamped so that every timer
/// addition stays in range.
pub open spec fn clamp_now(now: u64) -> u64 {
    if now > 0x4000_0000_0000_0000u64 {
        0x4000_0000_0000_0000u64
    } else {
        now
    }
}

/// The output run contains an acknowledgment datagram for `(sn, ts)`.
pub open spec fn ack_emitted(out: Seq<Vec<u8>>, sn: u32, ts: u32) -> bool {
    exists|k: int| 0 <= k < out.len()
        && (#[trigger] out[k])@[4] == CMD_ACK
        && le_u32_at(out[k]@, 12) == sn
        && le_u32_at(out[k]@, 8) == ts
}

/// The output run contains a data datagram with number `sn` and
/// payload `data`.
pub open spec fn push_emitted(out: Seq<Vec<u8>>, sn: u32, data: Seq<u8>) -> bool {
    exists|k: int| 0 <= k < out.len()
        && (#[trigger] out[k])@[4] == CMD_PUSH
        && le_u32_at(out[k]@, 12) == sn
        && out[k]@.skip(KCP_OVERHEAD as int) == data
}

/// A flush at `now` transmits this in-flight segment: it is fresh,
/// its retransmission timer expired, or fast retransmit fired.
pub open spec fn seg_due(s: Segment, now: u64, fastresend: u32) -> bool {
    s.xmit == 0 || now >= s.resendts || (fastresend > 0 && s.fastack >= fastresend)
}

/// The transmission count a segment reaches when a flush transmits it.
pub open spec fn xmit_after(s: Segment) -> int {
    if s.xmit < 0xFFFF_FFFF { s.xmit + 1 } else { s.xmit as int }
}

/// A flush at `now` declares the link dead because of this segment.
pub open spec fn seg_dead_after(s: Segment, now: u64, fastresend: u32, limit: u32) -> bool {
    seg_due(s, now, fastresend) && xmit_after(s) >= limit
}

/// `s` carries the same number, fragment counter and payload as some
/// segment already in the engine's receive store.
pub open spec fn seg_stored(s: Segment, k: Kcp) -> bool {
    ||| (exists|j: int| 0 <= j < k.rcv_queue@.len()
        && s.sn == (#[trigger] k.rcv_queue@[j]).sn
        && s.frg == k.rcv_queue@[j].frg && s.data == k.rcv_queue@[j].data)
    ||| (exists|j: int| 0 <= j < k.rcv_buf@.len()
        && s.sn == (#[trigger] k.rcv_buf@[j]).sn
        && s.frg == k.rcv_buf@[j].frg && s.data == k.rcv_buf@[j].data)
}

/// `s` was already stored, or is exactly the one segment handed in:
/// number `sn`, fragment counter `frg`, payload `data`.
pub open spec fn stored_or_fresh(
    s: Segment,
    k: Kcp,
    sn: u32,
    frg: u8,
    data: Seq<u8>,
) -> bool {
    seg_stored(s, k) || (s.sn == sn && s.frg == frg && s.data@ == data)
}

/// `s` carries exactly the number, fragment counter and payload of a
/// data segment somewhere in datagram `b`.
pub open spec fn seg_of_datagram(b: Seq<u8>, s: Segment) -> bool {
    exists|off: int| 0 <= off && off + KCP_OVERHEAD + s.data@.len() <= b.len()
        && b[off + 4] == CMD_PUSH
        && b[off + 5] == s.frg
        && le_u32_at(b, off + 12) == s.sn
        && #[trigger] b.subrange(off + KCP_OVERHEAD, off + KCP_OVERHEAD + s.data@.len())
            == s.data@
}

/// A receive store left untouched keeps its provenance.
pub proof fn lemma_seg_stored_refl(k: Kcp)
    ensures
        forall|i: int| 0 <= i < k.rcv_queue@.len()
            ==> seg_stored(#[trigger] k.rcv_queue@[i], k),
        forall|i: int| 0 <= i < k.rcv_buf@.len()
            ==> seg_stored(#[trigger] k.rcv_buf@[i], k),
{
    assert forall|i: int| 0 <= i < k.rcv_queue@.len()
        implies seg_stored(#[trigger] k.rcv_queue@[i], k) by {
        let j = i;
        assert(0 <= j < k.rcv_queue@.len() && k.rcv_queue@[i].sn == k.rcv_queue@[j].sn
            && k.rcv_queue@[i].frg == k.rcv_queue@[j].frg
            && k.rcv_queue@[i].data == k.rcv_queue@[j].data);
    }
    assert forall|i: int| 0 <= i < k.rcv_buf@.len()
        implies seg_stored(#[trigger] k.rcv_buf@[i], k) by {
        let j = i;
        assert(0 <= j < k.rcv_buf@.len() && k.rcv_buf@[i].sn == k.rcv_buf@[j].sn
            && k.rcv_buf@[i].frg == k.rcv_buf@[j].frg
            && k.rcv_buf@[i].data == k.rcv_buf@[j].data);
    }
}

/// The engine's receive store holds a segment with this number,
/// fragment counter and payload.
pub open spec fn data_seg_present(k: Kcp, sn: u32, frg: u8, data: Seq<u8>) -> bool {
    ||| (exists|j: int| 0 <= j < k.rcv_queue@.len()
        && (#[trigger] k.rcv_queue@[j]).sn == sn
        && k.rcv_queue@[j].frg == frg && k.rcv_queue@[j].data@ == data)
    ||| (exists|j: int| 0 <= j < k.rcv_buf@.len()
        && (#[trigger] k.rcv_buf@[j]).sn == sn
        && k.rcv_buf@[j].frg == frg && k.rcv_buf@[j].data@ == data)
}

/// Provenance depends only on a segment's number, fragment counter
/// and payload, so it transfers between segments that agree on them.
pub proof fn lemma_provenance_transfer(a: Segment, b: Segment, k: Kcp, d: Seq<u8>)
    requires
        a.sn == b.sn,
        a.frg == b.frg,
        a.data == b.data,
        seg_stored(b, k) || seg_of_datagram(d, b),
    ensures
        seg_stored(a, k) || seg_of_datagram(d, a),
{
    if seg_stored(b, k) {
        if exists|j: int| 0 <= j < k.rcv_queue@.len()
            && b.sn == (#[trigger] k.rcv_queue@[j]).sn
            && b.frg == k.rcv_queue@[j].frg && b.data == k.rcv_queue@[j].data {
            let j = choose|j: int| 0 <= j < k.rcv_queue@.len()
                && b.sn == (#[trigger] k.rcv_queue@[j]).sn
                && b.frg == k.rcv_queue@[j].frg && b.data == k.rcv_queue@[j].data;
            assert(0 <= j < k.rcv_queue@.len() && a.sn == k.rcv_queue@[j].sn
                && a.frg == k.rcv_queue@[j].frg && a.data == k.rcv_queue@[j].data);
        } else {
            let j = choose|j: int| 0 <= j < k.rcv_buf@.len()
                && b.sn == (#[trigger] k.rcv_buf@[j]).sn
                && b.frg == k.rcv_buf@[j].frg && b.data == k.rcv_buf@[j].data;
            assert(0 <= j < k.rcv_buf@.len() && a.sn == k.rcv_buf@[j].sn
                && a.frg == k.rcv_buf@[j].frg && a.data == k.rcv_buf@[j].data);
        }
    } else {
        let off = choose|off: int| 0 <= off && off + KCP_OVERHEAD + b.data@.len() <= d.len()
            && d[off + 4] == CMD_PUSH && d[off + 5] == b.frg
            && le_u32_at(d, off + 12) == b.sn
            && #[trigger] d.subrange(off + KCP_OVERHEAD, off + KCP_OVERHEAD + b.data@.len())
                == b.data@;
        assert(0 <= off && off + KCP_OVERHEAD + a.data@.len() <= d.len()
            && d[off + 4] == CMD_PUSH && d[off + 5] == a.frg
            && le_u32_at(d, off + 12) == a.sn
            && d.subrange(off + KCP_OVERHEAD, off + KCP_OVERHEAD + a.data@.len())
                == a.data@);
    }
}

/// Where a segment with number `sn` lands in the ordered run `q`:
/// after every segment with a smaller number.
pub open spec fn insert_pos(q: Seq<Segment>, sn: u32) -> int
    decreases q.len(),
{
    if q.len() == 0 {
        0
    } else if q[0].sn < sn {
        1 + insert_pos(q.drop_first(), sn)
    } else {
        0
    }
}

/// `b` is `q` with one new segment — number `sn`, fragment counter
/// `frg`, payload `data`, untransmitted — placed at position `i`.
pub open spec fn is_insert_at(
    b: Seq<Segment>,
    q: Seq<Segment>,
    i: int,
    sn: u32,
    frg: u8,
    data: Seq<u8>,
) -> bool {
    &&& b.len() == q.len() + 1
    &&& 0 <= i <= q.len()
    &&& b.take(i) == q.take(i)
    &&& b.skip(i + 1) == q.skip(i)
    &&& b[i].sn == sn
    &&& b[i].frg == frg
    &&& b[i].data@ == data
    &&& b[i].xmit == 0
}

/// The position the scan found is the one `insert_pos` names.
proof fn lemma_insert_pos(q: Seq<Segment>, sn: u32, i: int)
    requires
        0 <= i <= q.len(),
        forall|j: int| 0 <= j < i ==> (#[trigger] q[j].sn) < sn,
        i < q.len() ==> q[i].sn >= sn,
    ensures
        insert_pos(q, sn) == i,
    decreases q.len(),
{
    if q.len() == 0 {
    } else if i == 0 {
    } else {
        let tail = q.drop_first();
        assert(forall|j: int| 0 <= j < tail.len() ==> #[trigger] tail[j] == q[j + 1]);
        lemma_insert_pos(tail, sn, i - 1);
    }
}

/// Appending a datagram to the output never loses an emission.
pub proof fn lemma_emissions_monotone(out: Seq<Vec<u8>>, d: Vec<u8>)
    ensures
        forall|sn: u32, ts: u32| ack_emitted(out, sn, ts)
            ==> #[trigger] ack_emitted(out.push(d), sn, ts),
        forall|sn: u32, data: Seq<u8>| push_emitted(out, sn, data)
            ==> #[trigger] push_emitted(out.push(d), sn, data),
{
    assert forall|sn: u32, ts: u32| ack_emitted(out, sn, ts)
        implies #[trigger] ack_emitted(out.push(d), sn, ts) by {
        let k = choose|k: int| 0 <= k < out.len() && (#[trigger] out[k])@[4] == CMD_ACK
            && le_u32_at(out[k]@, 12) == sn && le_u32_at(out[k]@, 8) == ts;
        assert(out.push(d)[k] == out[k]);
        assert(0 <= k < out.push(d).len() && out.push(d)[k]@[4] == CMD_ACK
            && le_u32_at(out.push(d)[k]@, 12) == sn && le_u32_at(out.push(d)[k]@, 8) == ts);
    }
    assert forall|sn: u32, data: Seq<u8>| push_emitted(out, sn, data)
        implies #[trigger] push_emitted(out.push(d), sn, data) by {
        let k = choose|k: int| 0 <= k < out.len() && (#[trigger] out[k])@[4] == CMD_PUSH
            && le_u32_at(out[k]@, 12) == sn && out[k]@.skip(KCP_OVERHEAD as int) == data;
        assert(out.push(d)[k] == out[k]);
        assert(0 <= k < out.push(d).len() && out.push(d)[k]@[4] == CMD_PUSH
            && le_u32_at(out.push(d)[k]@, 12) == sn
            && out.push(d)[k]@.skip(KCP_OVERHEAD as int) == data);
    }
}

/// The classical KCP engine state.
///
/// Sequence numbers never wrap: the engine stops assigning once
/// `snd_nxt` reaches the top of the 32-bit space and never accepts
/// the topmost inbound number, so a session that has carried about
/// `2^32` segments stops extending instead of wrapping as the
/// classical algorithm does.
pub struct Kcp {
    /// Conversation id stamped on every outbound segment.
    pub conv: u32,
    /// Oldest unacknowledged sequence number.
    pub snd_una: u32,
    /// Next sequence number to assign.
    pub snd_nxt: u32,
    /// Next sequence number expected from the peer.
    pub rcv_nxt: u32,
    /// Configured send window, in segments.
    pub snd_wnd: u16,
    /// Configured receive window, in segments.
    pub rcv_wnd: u16,
    /// Peer's advertised receive window, in segments.
    pub rmt_wnd: u16,
    /// The peer asked for a window answer.
    pub probe_ask: bool,
    /// Next time a window probe may be sent, in ms.
    pub ts_probe: u64,
    /// Update interval in ms.
    pub interval: u64,
    /// Next scheduled flush time, in ms.
    pub ts_flush: u64,
    /// Whether `update` has run at least once.
    pub updated: bool,
    /// Initial retransmission timeout for fresh segments, in ms.
    pub rto: u64,
    /// No-delay mode: gentler backoff on retransmission.
    pub nodelay: bool,
    /// Duplicate-ack threshold for fast retransmit; 0 disables it.
    pub fastresend: u32,
    /// Resend count at which the link is declared dead.
    pub dead_link_limit: u32,
    /// The link has been declared dead.
    pub dead: bool,
    /// `close` has been called.
    pub closed: bool,
    /// Fragments accepted from the user but not yet in flight.
    pub snd_queue: Vec<Segment>,
    /// Segments in flight, ascending by sequence number.
    pub snd_buf: Vec<Segment>,
    /// Out-of-order segments from the peer, ascending by sequence number.
    pub rcv_buf: Vec<Segment>,
    /// In-order segments ready for `recv`.
    pub rcv_queue: Vec<Segment>,
    /// Acknowledgments owed to the peer: (sequence number, timestamp).
    pub acklist: Vec<(u32, u32)>,
}

impl Kcp {
    /// Internal consistency of the engine state.
    pub open spec fn wf(self) -> bool {
        &&& self.snd_una <= self.snd_nxt
        &&& self.snd_nxt - self.snd_una <= 65535
        &&& sns_sorted(self.snd_buf@)
        &&& sns_in(self.snd_buf@, self.snd_una as int, self.snd_nxt as int)
        &&& self.snd_queue@.len() <= SND_QUEUE_CAP
        &&& datas_bounded(self.snd_queue@)
        &&& datas_bounded(self.snd_buf@)
        &&& sns_sorted(self.rcv_buf@)
        &&& sns_in(self.rcv_buf@, self.rcv_nxt as int, self.rcv_nxt + 65536)
        &&& sns_in(self.rcv_buf@, 0, 0xFFFF_FFFF)
        &&& self.rcv_queue@.len() <= 65535
        &&& datas_bounded(self.rcv_buf@)
        &&& datas_bounded(self.rcv_queue@)
        &&& 1 <= self.interval <= 5000
        &&& 1 <= self.rto <= 60000
        &&& self.rcv_wnd >= 1
    }

    /// Unsent user bytes, oldest first.
    pub open spec fn pending_bytes(self) -> Seq<u8> {
        queue_bytes(self.snd_buf@) + queue_bytes(self.snd_queue@)
    }

    /// In-order bytes received from the peer and not yet delivered.
    pub open spec fn rcv_stream(self) -> Seq<u8> {
        queue_bytes(self.rcv_queue@)
    }

    /// A maintenance tick at `now` runs a flush: on the first tick,
    /// once the scheduled flush time is reached, or after a backwards
    /// clock jump.
    pub open spec fn flush_due(self, now: u64) -> bool {
        !self.updated || now >= self.ts_flush || self.ts_flush > now + 10000
    }

    /// The window room a flush uses: the smaller of the configured
    /// send window and the peer's advertised window.
    pub open spec fn cwnd(self) -> int {
        if self.snd_wnd < self.rmt_wnd {
            self.snd_wnd as int
        } else {
            self.rmt_wnd as int
        }
    }

    /// A flush at `now` declares the link dead: some in-flight
    /// segment it transmits — or a fragment it first moves into the
    /// window — reaches the resend limit.
    pub open spec fn dead_trigger(self, now: u64) -> bool {
        ||| (exists|j: int| 0 <= j < self.snd_buf@.len()
            && seg_dead_after(
                #[trigger] self.snd_buf@[j],
                now,
                self.fastresend,
                self.dead_link_limit,
            ))
        ||| (1 >= self.dead_link_limit && self.snd_queue@.len() > 0
            && (self.snd_nxt as int) < self.snd_una + self.cwnd()
            && self.snd_nxt < 0xFFFF_FFFF)
    }

    /// A fresh engine for conversation `conv`, with the classical
    /// default parameters; the session layer reconfigures it.
    pub fn new(conv: u32) -> (r: Kcp)
        ensures
            r.wf(),
            r.conv == conv,
            r.snd_una == 0 && r.snd_nxt == 0 && r.rcv_nxt == 0,
            r.snd_queue@.len() == 0 && r.snd_buf@.len() == 0,
            r.rcv_buf@.len() == 0 && r.rcv_queue@.len() == 0,
            r.acklist@.len() == 0,
            !r.dead && !r.closed && !r.updated,
            r.snd_wnd == 32 && r.rcv_wnd == 128 && r.rmt_wnd == 128,
            r.interval == 100 && r.rto == 200,
            !r.nodelay && r.fastresend == 0 && r.dead_link_limit == 20,
    {
        Kcp {
            conv,
            snd_una: 0,
            snd_nxt: 0,
            rcv_nxt: 0,
            snd_wnd: 32,
            rcv_wnd: 128,
            rmt_wnd: 128,
            probe_ask: false,
            ts_probe: 0,
            interval: 100,
            ts_flush: 0,
            updated: false,
            rto: 200,
            nodelay: false,
            fastresend: 0,
            dead_link_limit: 20,
            dead: false,
            closed: false,
            snd_queue: Vec::new(),
            snd_buf: Vec::new(),
            rcv_buf: Vec::new(),
            rcv_queue: Vec::new(),
            acklist: Vec::new(),
        }
    }

    /// Configures the send and receive windows, in segments.
    pub fn set_wndsize(&mut self, snd: u16, rcv: u16)
        requires
            old(self).wf(),
        ensures
            final(self).wf(),
            *final(self) == (Kcp { snd_wnd: snd, rcv_wnd: final(self).rcv_wnd, ..*old(self) }),
            final(self).rcv_wnd == if rcv >= 1 { rcv } else { 1u16 },
    {
        self.snd_wnd = snd;
        self.rcv_wnd = if rcv >= 1 { rcv } else { 1 };
    }

    /// Configures no-delay mode: update interval, fast-resend
    /// threshold and gentler retransmission backoff.
    pub fn set_nodelay(&mut self, nodelay: bool, interval: u64, resend: u32)
        requires
            old(self).wf(),
        ensures
            final(self).wf(),
            *final(self) == (Kcp {
                nodelay,
                fastresend: resend,
                interval: final(self).interval,
                rto: final(self).rto,
                ..*old(self)
            }),
            final(self).interval == if interval < 1 { 1u64 } else if interval > 5000 { 5000u64 } else { interval },
            final(self).rto == if nodelay { 30u64 } else { 200u64 },
    {
        self.nodelay = nodelay;
        self.fastresend = resend;
        self.interval = if interval < 1 { 1 } else if interval > 5000 { 5000 } else { interval };
        self.rto = if nodelay { 30 } else { 200 };
    }

    /// Configures the resend count at which the link is declared dead.
    pub fn set_maximum_resend_times(&mut self, n: u32)
        requires
            old(self).wf(),
        ensures
            final(self).wf(),
            *final(self) == (Kcp { dead_link_limit: n, ..*old(self) }),
    {
        self.dead_link_limit = n;
    }

    /// Number of segments the user has handed in that the peer has
    /// not yet acknowledged: queued fragments plus segments in flight.
    pub fn wait_snd(&self) -> (r: usize)
        requires
            self.wf(),
        ensures
            r == self.snd_buf@.len() + self.snd_queue@.len(),
    {
        proof {
            lemma_sorted_len_bound(self.snd_buf@, self.snd_una as int, self.snd_nxt as int);
        }
        self.snd_buf.len() + self.snd_queue.len()
    }

    /// Whether the engine has given the link up.
    pub fn is_dead_link(&self) -> (r: bool)
        ensures
            r == self.dead,
    {
        self.dead
    }

    /// Marks the engine closed.  Closing is idempotent: the second
    /// call leaves the state exactly as the first left it.
    pub fn close(&mut self)
        ensures
            *final(self) == (Kcp { closed: true, ..*old(self) }),
    {
        self.closed = true;
    }

    /// What `peeksize` reports on this state: the byte count of the
    /// next message, or why none is deliverable.
    pub open spec fn peek_spec(self) -> Result<int, KcpErr> {
        let q = self.rcv_queue@;
        if q.len() == 0 {
            Err(KcpErr::RecvQueueEmpty)
        } else if q[0].frg != 0 && q.len() < q[0].frg + 1 {
            Err(KcpErr::ExpectingFragment)
        } else {
            Ok(msg_bytes(q).len() as int)
        }
    }

    /// Queues `buf` for transmission, fragmenting it into segments of
    /// at most `KCP_MSS` bytes.  Succeeds exactly when the message
    /// fits the one-byte fragment counter and the queue has room, and
    /// then accepts all of `buf`; on backpressure nothing changes.
    pub fn send(&mut self, buf: &[u8]) -> (r: Result<usize, KcpErr>)
        requires
            old(self).wf(),
        ensures
            final(self).wf(),
            (r matches Ok(n) && n == buf@.len()) <==> (buf@.len() <= MAX_MESSAGE
                && old(self).snd_queue@.len() + frag_count(buf@.len() as int) <= SND_QUEUE_CAP),
            match r {
                Ok(n) => {
                    &&& n == buf@.len()
                    &&& *final(self) == (Kcp { snd_queue: final(self).snd_queue, ..*old(self) })
                    &&& final(self).snd_queue@.len()
                        == old(self).snd_queue@.len() + frag_count(buf@.len() as int)
                    &&& final(self).snd_queue@.subrange(0, old(self).snd_queue@.len() as int)
                        == old(self).snd_queue@
                    &&& is_fragmentation(
                        final(self).snd_queue@.skip(old(self).snd_queue@.len() as int),
                        buf@,
                    )
                    &&& final(self).pending_bytes() == old(self).pending_bytes() + buf@
                },
                Err(e) => e == KcpErr::SendQueueFull && *final(self) == *old(self),
            },
    {
        let len = buf.len();
        if len == 0 {
            proof {
                assert(self.snd_queue@.subrange(0, self.snd_queue@.len() as int)
                    =~= self.snd_queue@);
                assert(self.snd_queue@.skip(self.snd_queue@.len() as int)
                    =~= Seq::<Segment>::empty());
                assert(queue_bytes(self.snd_queue@.skip(self.snd_queue@.len() as int)) =~= buf@);
                assert(self.pending_bytes() =~= self.pending_bytes() + buf@);
            }
            return Ok(0);
        }
        if len > MAX_MESSAGE {
            return Err(KcpErr::SendQueueFull);
        }
        let count = (len + (KCP_MSS - 1)) / KCP_MSS;
        proof {
            assert(count == frag_count(len as int));
            assert(count >= 1);
            assert(count <= MAX_FRAGS) by (nonlinear_arith)
                requires count == (len + (KCP_MSS - 1) as int) / (KCP_MSS as int), 1 <= len <= MAX_MESSAGE;
            assert((count - 1) * KCP_MSS < len && len <= count * KCP_MSS) by (nonlinear_arith)
                requires count == (len + (KCP_MSS - 1) as int) / (KCP_MSS as int), 1 <= len;
        }
        if self.snd_queue.len() > SND_QUEUE_CAP - count {
            return Err(KcpErr::SendQueueFull);
        }
        let ghost base = self.snd_queue@.len() as int;
        let ghost orig = self.snd_queue@;
        let mut i: usize = 0;
        while i < count
            invariant
                len == buf@.len(),
                1 <= count <= MAX_FRAGS,
                count == frag_count(len as int),
                (count - 1) * KCP_MSS < len <= count * KCP_MSS,
                i <= count,
                base == orig.len(),
                base + count <= SND_QUEUE_CAP,
                self.snd_queue@.len() == base + i,
                self.snd_queue@.subrange(0, base) == orig,
                queue_bytes(self.snd_queue@.skip(base))
                    == buf@.take(if i * KCP_MSS < len { (i * KCP_MSS) as int } else { len as int }),
                forall|k: int| base <= k < base + i
                    ==> #[trigger] self.snd_queue@[k].frg == count - 1 - (k - base),
                forall|k: int| base <= k < base + i
                    ==> #[trigger] self.snd_queue@[k].data@.len() <= KCP_MSS,
                *self == (Kcp { snd_queue: self.snd_queue, ..*old(self) }),
                old(self).wf(),
            decreases count - i,
        {
            let start = i * KCP_MSS;
            let end = if len - start > KCP_MSS { start + KCP_MSS } else { len };
            proof {
                assert(start < len) by (nonlinear_arith)
                    requires i < count, (count - 1) * KCP_MSS < len, 0 <= i, start == i * KCP_MSS;
            }
            let data = vstd::slice::slice_to_vec(vstd::slice::slice_subrange(buf, start, end));
            let seg = Segment {
                frg: (count - 1 - i) as u8,
                sn: 0,
                xmit: 0,
                fastack: 0,
                rto: self.rto,
                resendts: 0,
                data,
            };
            let ghost before = self.snd_queue@;
            self.snd_queue.push(seg);
            proof {
                assert(self.snd_queue@.subrange(0, base) =~= orig);
                assert(self.snd_queue@.skip(base) =~= before.skip(base).push(seg));
                lemma_queue_bytes_push(before.skip(base), seg);
                assert(queue_bytes(self.snd_queue@.skip(base))
                    =~= buf@.take(if (i + 1) * KCP_MSS < len { ((i + 1) * KCP_MSS) as int } else { len as int }));
            }
            i = i + 1;
        }
        proof {
            let frags = self.snd_queue@.skip(base);
            assert(queue_bytes(frags) == buf@.take(len as int));
            assert(buf@.take(len as int) =~= buf@);
            assert(is_fragmentation(frags, buf@));
            assert(self.snd_queue@ =~= orig + frags);
            lemma_queue_bytes_add(orig, frags);
            assert(self.pending_bytes()
                =~= (queue_bytes(old(self).snd_buf@) + queue_bytes(orig)) + buf@);
        }
        Ok(len)
    }

    /// Size in bytes of the next message `recv` would deliver, or why
    /// none is deliverable yet.
    pub fn peeksize(&self) -> (r: Result<usize, KcpErr>)
        requires
            self.wf(),
        ensures
            match r {
                Ok(n) => self.peek_spec() == Ok::<int, KcpErr>(n as int),
                Err(e) => self.peek_spec() == Err::<int, KcpErr>(e),
            },
    {
        let q_len = self.rcv_queue.len();
        if q_len == 0 {
            return Err(KcpErr::RecvQueueEmpty);
        }
        let frg0 = self.rcv_queue[0].frg;
        if frg0 != 0 && q_len < frg0 as usize + 1 {
            return Err(KcpErr::ExpectingFragment);
        }
        let k = self.find_msg_segs();
        let mut sum: usize = 0;
        let mut i: usize = 0;
        while i < k
            invariant
                self.wf(),
                k <= self.rcv_queue@.len(),
                i <= k,
                k <= 65535,
                sum == queue_bytes(self.rcv_queue@.take(i as int)).len(),
                sum <= i * KCP_MSS,
            decreases k - i,
        {
            let dlen = self.rcv_queue[i].data.len();
            proof {
                assert(self.rcv_queue@[i as int].data@.len() <= KCP_MSS);
                assert(self.rcv_queue@.take(i + 1 as int)
                    =~= self.rcv_queue@.take(i as int).push(self.rcv_queue@[i as int]));
                lemma_queue_bytes_push(
                    self.rcv_queue@.take(i as int),
                    self.rcv_queue@[i as int],
                );
            }
            sum = sum + dlen;
            i = i + 1;
        }
        Ok(sum)
    }

    /// Number of segments at the head of the receive queue that make
    /// up the next delivery.
    fn find_msg_segs(&self) -> (k: usize)
        requires
            self.wf(),
            self.rcv_queue@.len() > 0,
        ensures
            k == msg_seg_count(self.rcv_queue@),
            1 <= k <= self.rcv_queue@.len(),
    {
        let ghost q = self.rcv_queue@;
        let n = self.rcv_queue.len();
        let mut i: usize = 0;
        while i < n && self.rcv_queue[i].frg != 0
            invariant
                self.wf(),
                q == self.rcv_queue@,
                n == q.len(),
                i <= n,
                forall|j: int| 0 <= j < i ==> #[trigger] q[j].frg != 0,
            decreases n - i,
        {
            i = i + 1;
        }
        if i < n {
            proof {
                assert(is_first_zero(q, i as int));
                let kk = choose|kk: int| is_first_zero(q, kk);
                lemma_first_zero_unique(q, kk, i as int);
            }
            i + 1
        } else {
            proof {
                assert(forall|kk: int| !is_first_zero(q, kk));
            }
            n
        }
    }

    /// Delivers the next complete message, removing its segments from
    /// the receive queue and sliding the receive window forward.
    ///
    /// On success the returned bytes are exactly the front of the
    /// undelivered in-order stream, and what remains of that stream is
    /// the old stream with the message removed from the front (plus
    /// any bytes that the freed window room let in from the
    /// out-of-order buffer).  On failure the engine is unchanged.
    pub fn recv_msg(&mut self) -> (r: Result<Vec<u8>, KcpErr>)
        requires
            old(self).wf(),
        ensures
            final(self).wf(),
            match r {
                Ok(m) => {
                    &&& old(self).peek_spec() == Ok::<int, KcpErr>(m@.len() as int)
                    &&& m@ == msg_bytes(old(self).rcv_queue@)
                    &&& m@.is_prefix_of(old(self).rcv_stream())
                    &&& old(self).rcv_stream().skip(m@.len() as int)
                        .is_prefix_of(final(self).rcv_stream())
                    &&& *final(self) == (Kcp {
                        rcv_queue: final(self).rcv_queue,
                        rcv_buf: final(self).rcv_buf,
                        rcv_nxt: final(self).rcv_nxt,
                        ..*old(self)
                    })
                    &&& final(self).rcv_nxt >= old(self).rcv_nxt
                },
                Err(e) => old(self).peek_spec() == Err::<int, KcpErr>(e)
                    && *final(self) == *old(self),
            },
    {
        let size = match self.peeksize() {
            Err(e) => {
                return Err(e);
            },
            Ok(size) => size,
        };
        let k = self.find_msg_segs();
        let ghost orig = self.rcv_queue@;
        let mut out: Vec<u8> = Vec::new();
        let mut j: usize = 0;
        while j < k
            invariant
                j <= k,
                k <= orig.len(),
                self.rcv_queue@ == orig.skip(j as int),
                out@ == queue_bytes(orig.take(j as int)),
                *self == (Kcp { rcv_queue: self.rcv_queue, ..*old(self) }),
                old(self).wf(),
            decreases k - j,
        {
            let mut seg = self.rcv_queue.remove(0);
            proof {
                assert(orig.skip(j as int)[0] == orig[j as int]);
                assert(self.rcv_queue@ =~= orig.skip(j + 1 as int));
                assert(orig.take(j + 1 as int) =~= orig.take(j as int).push(orig[j as int]));
                lemma_queue_bytes_push(orig.take(j as int), orig[j as int]);
            }
            out.append(&mut seg.data);
            j = j + 1;
        }
        proof {
            assert(self.wf()) by {
                assert(self.rcv_queue@ == orig.skip(k as int));
                assert(forall|i: int| 0 <= i < self.rcv_queue@.len()
                    ==> self.rcv_queue@[i] == orig[i + k]);
            }
            assert(orig =~= orig.take(k as int) + orig.skip(k as int));
            lemma_queue_bytes_add(orig.take(k as int), orig.skip(k as int));
            assert(out@.is_prefix_of(queue_bytes(orig)));
            assert(queue_bytes(orig).skip(out@.len() as int) =~= queue_bytes(orig.skip(k as int)));
        }
        self.move_rcv_buf();
        Ok(out)
    }

    /// Delivers the next complete message if it fits a buffer of
    /// `buf_cap` bytes; reports `UserBufTooSmall` (without touching
    /// anything) when it does not.
    pub fn recv(&mut self, buf_cap: usize) -> (r: Result<Vec<u8>, KcpErr>)
        requires
            old(self).wf(),
        ensures
            final(self).wf(),
            match r {
                Ok(m) => {
                    &&& old(self).peek_spec() == Ok::<int, KcpErr>(m@.len() as int)
                    &&& m@.len() <= buf_cap
                    &&& m@ == msg_bytes(old(self).rcv_queue@)
                    &&& old(self).rcv_stream().skip(m@.len() as int)
                        .is_prefix_of(final(self).rcv_stream())
                    &&& *final(self) == (Kcp {
                        rcv_queue: final(self).rcv_queue,
                        rcv_buf: final(self).rcv_buf,
                        rcv_nxt: final(self).rcv_nxt,
                        ..*old(self)
                    })
                },
                Err(e) => *final(self) == *old(self) && (match old(self).peek_spec() {
                    Ok(n) => e == KcpErr::UserBufTooSmall && n > buf_cap,
                    Err(pe) => e == pe,
                }),
            },
    {
        let size = match self.peeksize() {
            Err(e) => {
                return Err(e);
            },
            Ok(size) => size,
        };
        if size > buf_cap {
            return Err(KcpErr::UserBufTooSmall);
        }
        match self.recv_msg() {
            Ok(m) => Ok(m),
            Err(e) => {
                // the engine promised a message after a successful peek
                proof { assert(false); }
                Err(e)
            },
        }
    }

    /// Moves in-order segments from the out-of-order buffer into the
    /// receive queue while the next expected number is present and the
    /// queue has window room.  The queue gains exactly the leading
    /// run the buffer loses, and the window advances by its length.
    fn move_rcv_buf(&mut self)
        requires
            old(self).wf(),
        ensures
            final(self).wf(),
            old(self).rcv_queue@.is_prefix_of(final(self).rcv_queue@),
            old(self).rcv_stream().is_prefix_of(final(self).rcv_stream()),
            *final(self) == (Kcp {
                rcv_queue: final(self).rcv_queue,
                rcv_buf: final(self).rcv_buf,
                rcv_nxt: final(self).rcv_nxt,
                ..*old(self)
            }),
            final(self).rcv_queue@.len() >= old(self).rcv_queue@.len(),
            final(self).rcv_queue@.len() - old(self).rcv_queue@.len()
                <= old(self).rcv_buf@.len(),
            final(self).rcv_queue@ == old(self).rcv_queue@ + old(self).rcv_buf@.take(
                final(self).rcv_queue@.len() - old(self).rcv_queue@.len(),
            ),
            final(self).rcv_buf@ == old(self).rcv_buf@.skip(
                final(self).rcv_queue@.len() - old(self).rcv_queue@.len(),
            ),
            final(self).rcv_nxt == old(self).rcv_nxt
                + (final(self).rcv_queue@.len() - old(self).rcv_queue@.len()),
            final(self).rcv_buf@.len() == 0
                || final(self).rcv_buf@[0].sn != final(self).rcv_nxt
                || final(self).rcv_queue@.len() >= final(self).rcv_wnd,
    {
        proof {
            assert(self.rcv_queue@ =~= old(self).rcv_queue@ + old(self).rcv_buf@.take(0));
            assert(self.rcv_buf@ =~= old(self).rcv_buf@.skip(0));
        }
        while self.rcv_buf.len() > 0
            && self.rcv_buf[0].sn == self.rcv_nxt
            && self.rcv_queue.len() < self.rcv_wnd as usize
            invariant
                self.wf(),
                old(self).rcv_queue@.is_prefix_of(self.rcv_queue@),
                old(self).rcv_stream().is_prefix_of(self.rcv_stream()),
                *self == (Kcp {
                    rcv_queue: self.rcv_queue,
                    rcv_buf: self.rcv_buf,
                    rcv_nxt: self.rcv_nxt,
                    ..*old(self)
                }),
                self.rcv_queue@.len() >= old(self).rcv_queue@.len(),
                self.rcv_queue@.len() - old(self).rcv_queue@.len()
                    <= old(self).rcv_buf@.len(),
                self.rcv_queue@ == old(self).rcv_queue@ + old(self).rcv_buf@.take(
                    self.rcv_queue@.len() - old(self).rcv_queue@.len(),
                ),
                self.rcv_buf@ == old(self).rcv_buf@.skip(
                    self.rcv_queue@.len() - old(self).rcv_queue@.len(),
                ),
                self.rcv_nxt == old(self).rcv_nxt
                    + (self.rcv_queue@.len() - old(self).rcv_queue@.len()),
            decreases self.rcv_buf@.len(),
        {
            let ghost k = self.rcv_queue@.len() - old(self).rcv_queue@.len();
            let ghost buf0 = self.rcv_buf@;
            let ghost q0 = self.rcv_queue@;
            let seg = self.rcv_buf.remove(0);
            proof {
                assert(forall|i: int| 0 <= i < self.rcv_buf@.len()
                    ==> self.rcv_buf@[i] == buf0[i + 1]);
                assert(forall|i: int| 0 <= i < self.rcv_buf@.len()
                    ==> buf0[0].sn < #[trigger] self.rcv_buf@[i].sn);
                assert(0 <= k && k < old(self).rcv_buf@.len());
                assert(old(self).rcv_buf@.skip(k)[0] == old(self).rcv_buf@[k]);
                assert(seg == old(self).rcv_buf@[k]);
            }
            self.rcv_nxt = self.rcv_nxt + 1;
            self.rcv_queue.push(seg);
            proof {
                lemma_queue_bytes_push(q0, seg);
                assert(old(self).rcv_queue@.is_prefix_of(self.rcv_queue@));
                assert(old(self).rcv_stream().is_prefix_of(self.rcv_stream()));
                assert(old(self).rcv_buf@.take(k + 1)
                    =~= old(self).rcv_buf@.take(k).push(old(self).rcv_buf@[k]));
                assert(self.rcv_queue@ =~= old(self).rcv_queue@
                    + old(self).rcv_buf@.take(k + 1));
                assert(self.rcv_buf@ =~= old(self).rcv_buf@.skip(k + 1));
            }
        }
    }

    /// Advances the cumulative acknowledgment point to `una` (clamped
    /// to what was actually sent) and drops the acknowledged prefix
    /// of the send buffer.
    fn parse_una(&mut self, una: u32)
        requires
            old(self).wf(),
        ensures
            final(self).wf(),
            *final(self) == (Kcp {
                snd_una: final(self).snd_una,
                snd_buf: final(self).snd_buf,
                ..*old(self)
            }),
            final(self).snd_una >= old(self).snd_una,
            seg_subset(final(self).snd_buf@, old(self).snd_buf@),
    {
        let una_c = if una > self.snd_nxt { self.snd_nxt } else { una };
        if una_c > self.snd_una {
            self.snd_una = una_c;
        }
        proof { lemma_seg_subset_refl(self.snd_buf@); }
        while self.snd_buf.len() > 0 && self.snd_buf[0].sn < self.snd_una
            invariant
                sns_sorted(self.snd_buf@),
                sns_in(self.snd_buf@, old(self).snd_una as int, self.snd_nxt as int),
                datas_bounded(self.snd_buf@),
                seg_subset(self.snd_buf@, old(self).snd_buf@),
                *self == (Kcp {
                    snd_una: self.snd_una,
                    snd_buf: self.snd_buf,
                    ..*old(self)
                }),
                self.snd_una >= old(self).snd_una,
                self.snd_una <= self.snd_nxt,
                self.snd_nxt - self.snd_una <= 65535,
            decreases self.snd_buf@.len(),
        {
            let ghost b0 = self.snd_buf@;
            let ghost sub0 = old(self).snd_buf@;
            self.snd_buf.remove(0);
            proof {
                assert(forall|i: int| 0 <= i < self.snd_buf@.len()
                    ==> #[trigger] self.snd_buf@[i] == b0[i + 1]);
                lemma_seg_subset_tail(self.snd_buf@, b0);
                lemma_seg_subset_trans(self.snd_buf@, b0, sub0);
            }
        }
        proof {
            assert(sns_in(self.snd_buf@, self.snd_una as int, self.snd_nxt as int));
        }
    }

    /// Removes the segment acknowledged by number `sn` from the send
    /// buffer and counts a duplicate ack on every older in-flight
    /// segment, feeding fast retransmit.
    fn parse_ack(&mut self, sn: u32)
        requires
            old(self).wf(),
        ensures
            final(self).wf(),
            *final(self) == (Kcp { snd_buf: final(self).snd_buf, ..*old(self) }),
            seg_subset(final(self).snd_buf@, old(self).snd_buf@),
    {
        let ghost origbuf = self.snd_buf@;
        let mut oldbuf: Vec<Segment> = Vec::new();
        core::mem::swap(&mut oldbuf, &mut self.snd_buf);
        let mut newbuf: Vec<Segment> = Vec::new();
        let ghost mut p: int = 0;
        while oldbuf.len() > 0
            invariant
                0 <= p <= origbuf.len(),
                oldbuf@ == origbuf.skip(p),
                sns_sorted(origbuf),
                sns_sorted(newbuf@),
                sns_in(origbuf, old(self).snd_una as int, old(self).snd_nxt as int),
                sns_in(newbuf@, old(self).snd_una as int, old(self).snd_nxt as int),
                datas_bounded(origbuf),
                datas_bounded(newbuf@),
                seg_subset(newbuf@, origbuf),
                p < origbuf.len() ==> (forall|i: int| 0 <= i < newbuf@.len()
                    ==> (#[trigger] newbuf@[i].sn) < origbuf[p].sn),
                self.snd_buf@.len() == 0,
                *self == (Kcp { snd_buf: self.snd_buf, ..*old(self) }),
            decreases oldbuf@.len(),
        {
            let mut seg = oldbuf.remove(0);
            proof {
                assert(origbuf.skip(p)[0] == origbuf[p]);
                assert(oldbuf@ =~= origbuf.skip(p + 1));
                assert(seg_in(origbuf[p], origbuf));
            }
            if seg.sn == sn {
                // acknowledged: drop it
            } else {
                if seg.sn < sn && seg.fastack < 0xFFFF_FFFFu32 {
                    seg.fastack = seg.fastack + 1;
                }
                let ghost nb0 = newbuf@;
                newbuf.push(seg);
                proof {
                    assert(forall|i: int| 0 <= i < nb0.len() ==> newbuf@[i] == nb0[i]);
                    assert(newbuf@[nb0.len() as int] == seg);
                    assert(seg.sn == origbuf[p].sn && seg.data == origbuf[p].data);
                }
            }
            proof {
                p = p + 1;
                if p < origbuf.len() {
                    assert(origbuf[p - 1].sn < origbuf[p].sn);
                }
            }
        }
        core::mem::swap(&mut self.snd_buf, &mut newbuf);
        proof {
            assert(seg_subset(self.snd_buf@, origbuf));
        }
    }

    /// Accepts one data segment from the peer: queues an
    /// acknowledgment, stores the payload in sequence-number order if
    /// it falls inside the receive window and is new, and moves any
    /// now-contiguous run into the receive queue.
    #[verifier::rlimit(80)]
    fn parse_data(&mut self, sn: u32, ts: u32, frg: u8, data: Vec<u8>)
        requires
            old(self).wf(),
            data@.len() <= KCP_MSS,
        ensures
            final(self).wf(),
            *final(self) == (Kcp {
                rcv_queue: final(self).rcv_queue,
                rcv_buf: final(self).rcv_buf,
                rcv_nxt: final(self).rcv_nxt,
                acklist: final(self).acklist,
                ..*old(self)
            }),
            old(self).rcv_stream().is_prefix_of(final(self).rcv_stream()),
            old(self).acklist@.is_prefix_of(final(self).acklist@),
            final(self).rcv_nxt >= old(self).rcv_nxt,
            forall|i: int| 0 <= i < final(self).rcv_queue@.len()
                ==> stored_or_fresh(#[trigger] final(self).rcv_queue@[i], *old(self),
                    sn, frg, data@),
            forall|i: int| 0 <= i < final(self).rcv_buf@.len()
                ==> stored_or_fresh(#[trigger] final(self).rcv_buf@[i], *old(self),
                    sn, frg, data@),
            (sn as int) >= old(self).rcv_nxt + old(self).rcv_wnd
                ==> *final(self) == *old(self),
            (sn as int) < old(self).rcv_nxt + old(self).rcv_wnd
                ==> final(self).acklist@ == old(self).acklist@.push((sn, ts)),
            ((sn as int) < old(self).rcv_nxt + old(self).rcv_wnd
                && (sn < old(self).rcv_nxt || sn == 0xFFFF_FFFFu32
                    || (exists|j: int| 0 <= j < old(self).rcv_buf@.len()
                        && (#[trigger] old(self).rcv_buf@[j]).sn == sn)))
                ==> *final(self) == (Kcp { acklist: final(self).acklist, ..*old(self) }),
            ((sn as int) < old(self).rcv_nxt + old(self).rcv_wnd
                && sn >= old(self).rcv_nxt && sn != 0xFFFF_FFFFu32
                && !(exists|j: int| 0 <= j < old(self).rcv_buf@.len()
                    && (#[trigger] old(self).rcv_buf@[j]).sn == sn))
                ==> {
                &&& is_insert_at(
                    final(self).rcv_queue@.skip(old(self).rcv_queue@.len() as int)
                        + final(self).rcv_buf@,
                    old(self).rcv_buf@,
                    insert_pos(old(self).rcv_buf@, sn),
                    sn,
                    frg,
                    data@,
                )
                &&& final(self).rcv_queue@.subrange(0, old(self).rcv_queue@.len() as int)
                    == old(self).rcv_queue@
                &&& final(self).rcv_nxt == old(self).rcv_nxt
                    + (final(self).rcv_queue@.len() - old(self).rcv_queue@.len())
            },
    {
        proof {
            lemma_prefix_refl(self.acklist@);
            lemma_seg_stored_refl(*old(self));
        }
        if (sn as u64) >= (self.rcv_nxt as u64) + (self.rcv_wnd as u64) {
            // beyond the window: drop silently
            proof { lemma_prefix_refl(self.rcv_stream()); }
            return;
        }
        self.acklist.push((sn, ts));
        proof {
            assert(old(self).acklist@
                =~= self.acklist@.subrange(0, old(self).acklist@.len() as int));
        }
        if sn < self.rcv_nxt {
            // already delivered or queued: the ack alone answers it
            proof { lemma_prefix_refl(self.rcv_stream()); }
            return;
        }
        if sn == 0xFFFF_FFFFu32 {
            // the engine refuses the very top of the sequence space
            proof { lemma_prefix_refl(self.rcv_stream()); }
            return;
        }
        let n = self.rcv_buf.len();
        let mut idx: usize = 0;
        while idx < n && self.rcv_buf[idx].sn < sn
            invariant
                idx <= n,
                n == self.rcv_buf@.len(),
                forall|j: int| 0 <= j < idx ==> (#[trigger] self.rcv_buf@[j].sn) < sn,
                self.wf(),
            decreases n - idx,
        {
            idx = idx + 1;
        }
        if idx < n && self.rcv_buf[idx].sn == sn {
            // duplicate of a buffered segment: drop
            proof {
                lemma_prefix_refl(self.rcv_stream());
                assert(0 <= idx < old(self).rcv_buf@.len()
                    && (old(self).rcv_buf@[idx as int]).sn == sn);
            }
            return;
        }
        proof {
            assert forall|j: int| 0 <= j < self.rcv_buf@.len()
                implies (#[trigger] self.rcv_buf@[j]).sn != sn by {
                if j >= idx {
                    assert(self.rcv_buf@[idx as int].sn >= sn);
                    if j > idx {
                        assert(self.rcv_buf@[idx as int].sn < self.rcv_buf@[j].sn);
                    }
                }
            }
            lemma_insert_pos(self.rcv_buf@, sn, idx as int);
        }
        let seg = Segment { frg, sn, xmit: 0, fastack: 0, rto: 0, resendts: 0, data };
        let ghost b0 = self.rcv_buf@;
        self.rcv_buf.insert(idx, seg);
        proof {
            assert(self.rcv_buf@ =~= b0.insert(idx as int, seg));
            assert(forall|j: int| 0 <= j < idx ==> self.rcv_buf@[j] == b0[j]);
            assert(forall|j: int| idx < j < self.rcv_buf@.len()
                ==> self.rcv_buf@[j] == b0[j - 1]);
            assert(self.rcv_buf@[idx as int] == seg);
            assert forall|m: int| idx <= m < b0.len() implies (#[trigger] b0[m].sn) > sn by {
                if m > idx {
                    assert(b0[idx as int].sn < b0[m].sn);
                }
            }
            assert forall|i: int, j: int| 0 <= i < j < self.rcv_buf@.len()
                implies self.rcv_buf@[i].sn < self.rcv_buf@[j].sn by {
                if j < idx {
                } else if j == idx {
                    assert(self.rcv_buf@[i].sn < sn);
                } else {
                    assert(self.rcv_buf@[j] == b0[j - 1]);
                    if i < idx {
                        assert(self.rcv_buf@[i].sn < sn);
                    } else if i > idx {
                        assert(self.rcv_buf@[i] == b0[i - 1]);
                    }
                }
            }
        }
        let ghost bins = self.rcv_buf@;
        let ghost q1 = self.rcv_queue@;
        proof {
            assert(bins.take(idx as int) =~= b0.take(idx as int));
            assert(bins.skip(idx + 1) =~= b0.skip(idx as int));
            assert(is_insert_at(bins, b0, idx as int, sn, frg, data@));
        }
        self.move_rcv_buf();
        proof {
            let moved = self.rcv_queue@.len() - q1.len();
            assert(0 <= moved && moved <= bins.len());
            assert(self.rcv_queue@.skip(q1.len() as int) =~= bins.take(moved));
            assert(bins.take(moved) + bins.skip(moved) =~= bins);
            assert(self.rcv_queue@.skip(q1.len() as int) + self.rcv_buf@
                =~= bins.take(moved) + bins.skip(moved));
            assert(is_insert_at(
                self.rcv_queue@.skip(old(self).rcv_queue@.len() as int) + self.rcv_buf@,
                old(self).rcv_buf@,
                insert_pos(old(self).rcv_buf@, sn),
                sn,
                frg,
                data@,
            ));
            assert(self.rcv_queue@.subrange(0, old(self).rcv_queue@.len() as int)
                =~= old(self).rcv_queue@);
            assert forall|m: int| 0 <= m < bins.len()
                implies stored_or_fresh(#[trigger] bins[m], *old(self), sn, frg, data@) by {
                if m < idx {
                    assert(bins[m] == b0[m]);
                    let j = m;
                    assert(0 <= j < old(self).rcv_buf@.len()
                        && bins[m].sn == old(self).rcv_buf@[j].sn
                        && bins[m].frg == old(self).rcv_buf@[j].frg
                        && bins[m].data == old(self).rcv_buf@[j].data);
                } else if m == idx {
                    assert(bins[m].sn == sn && bins[m].frg == frg && bins[m].data@ == data@);
                } else {
                    assert(bins[m] == b0[m - 1]);
                    let j = m - 1;
                    assert(0 <= j < old(self).rcv_buf@.len()
                        && bins[m].sn == old(self).rcv_buf@[j].sn
                        && bins[m].frg == old(self).rcv_buf@[j].frg
                        && bins[m].data == old(self).rcv_buf@[j].data);
                }
            }
            let moved2 = self.rcv_queue@.len() - q1.len();
            assert forall|i: int| 0 <= i < self.rcv_queue@.len()
                implies stored_or_fresh(#[trigger] self.rcv_queue@[i], *old(self),
                    sn, frg, data@) by {
                if i < q1.len() {
                    assert(self.rcv_queue@[i] == old(self).rcv_queue@[i]);
                    let j = i;
                    assert(0 <= j < old(self).rcv_queue@.len()
                        && self.rcv_queue@[i].sn == old(self).rcv_queue@[j].sn
                        && self.rcv_queue@[i].frg == old(self).rcv_queue@[j].frg
                        && self.rcv_queue@[i].data == old(self).rcv_queue@[j].data);
                } else {
                    let m = i - q1.len();
                    assert(self.rcv_queue@.skip(q1.len() as int)[m] == self.rcv_queue@[i]);
                    assert(bins.take(moved2)[m] == bins[m]);
                    assert(stored_or_fresh(bins[m], *old(self), sn, frg, data@));
                }
            }
            assert forall|i: int| 0 <= i < self.rcv_buf@.len()
                implies stored_or_fresh(#[trigger] self.rcv_buf@[i], *old(self),
                    sn, frg, data@) by {
                assert(bins.skip(moved2)[i] == bins[moved2 + i]);
                assert(self.rcv_buf@[i] == bins[moved2 + i]);
                assert(stored_or_fresh(bins[moved2 + i], *old(self), sn, frg, data@));
            }
        }
    }

    /// Feeds one inbound datagram to the engine.
    ///
    /// A datagram shorter than `KCP_OVERHEAD` is rejected without any
    /// state change.  Otherwise the engine consumes the segments in
    /// order and succeeds exactly when the whole datagram is a
    /// well-formed chain for this conversation; an error in the
    /// middle leaves the earlier segments applied, as the classical
    /// algorithm does.  Undelivered in-order bytes are only ever
    /// appended to, the user's queued fragments are untouched, and
    /// in-flight segments only leave the send buffer.
    pub fn input(&mut self, data: &[u8]) -> (r: Result<usize, KcpErr>)
        requires
            old(self).wf(),
        ensures
            final(self).wf(),
            data@.len() < KCP_OVERHEAD ==> (r matches Err(e) && e == KcpErr::MalformedPacket)
                && *final(self) == *old(self),
            data@.len() >= KCP_OVERHEAD ==> ((r matches Ok(_))
                <==> datagram_ok(data@, old(self).conv)),
            r matches Ok(n) ==> n <= data@.len() && n + KCP_OVERHEAD > data@.len(),
            old(self).rcv_stream().is_prefix_of(final(self).rcv_stream()),
            old(self).acklist@.is_prefix_of(final(self).acklist@),
            final(self).snd_una >= old(self).snd_una,
            final(self).rcv_nxt >= old(self).rcv_nxt,
            seg_subset(final(self).snd_buf@, old(self).snd_buf@),
            forall|i: int| 0 <= i < final(self).rcv_queue@.len()
                ==> seg_stored(#[trigger] final(self).rcv_queue@[i], *old(self))
                    || seg_of_datagram(data@, final(self).rcv_queue@[i]),
            forall|i: int| 0 <= i < final(self).rcv_buf@.len()
                ==> seg_stored(#[trigger] final(self).rcv_buf@[i], *old(self))
                    || seg_of_datagram(data@, final(self).rcv_buf@[i]),
            (data@.len() >= KCP_OVERHEAD && data@.len() == seg_span(data@, 0)
                && data@[4] == CMD_PUSH && datagram_ok(data@, old(self).conv)) ==> {
                let dsn = le_u32_at(data@, 12) as u32;
                let dts = le_u32_at(data@, 8) as u32;
                &&& ((dsn as int) < old(self).rcv_nxt + old(self).rcv_wnd
                    ==> final(self).acklist@ == old(self).acklist@.push((dsn, dts)))
                &&& ((dsn as int) < old(self).rcv_nxt + old(self).rcv_wnd
                    && dsn >= old(self).rcv_nxt && dsn != 0xFFFF_FFFFu32
                    && !(exists|j: int| 0 <= j < old(self).rcv_buf@.len()
                        && (#[trigger] old(self).rcv_buf@[j]).sn == dsn)
                    ==> data_seg_present(*final(self), dsn, data@[5],
                        data@.subrange(KCP_OVERHEAD as int, seg_span(data@, 0))))
            },
            *final(self) == (Kcp {
                rmt_wnd: final(self).rmt_wnd,
                probe_ask: final(self).probe_ask,
                snd_una: final(self).snd_una,
                snd_buf: final(self).snd_buf,
                rcv_buf: final(self).rcv_buf,
                rcv_queue: final(self).rcv_queue,
                rcv_nxt: final(self).rcv_nxt,
                acklist: final(self).acklist,
                ..*old(self)
            }),
    {
        let ghost conv0 = self.conv;
        let total = data.len();
        if total < KCP_OVERHEAD {
            proof {
                lemma_prefix_refl(self.rcv_stream());
                lemma_prefix_refl(self.acklist@);
                lemma_seg_subset_refl(self.snd_buf@);
                lemma_seg_stored_refl(*old(self));
            }
            return Err(KcpErr::MalformedPacket);
        }
        proof {
            lemma_prefix_refl(self.rcv_stream());
            lemma_prefix_refl(self.acklist@);
            lemma_seg_subset_refl(self.snd_buf@);
            lemma_seg_stored_refl(*old(self));
        }
        let mut off: usize = 0;
        while total - off >= KCP_OVERHEAD
            invariant
                self.wf(),
                off <= total,
                total == data@.len(),
                total >= KCP_OVERHEAD,
                conv0 == self.conv,
                off == 0 ==> *self == *old(self),
                datagram_ok(data@, conv0) <==> datagram_ok_from(data@, conv0, off as int),
                old(self).rcv_stream().is_prefix_of(self.rcv_stream()),
                old(self).acklist@.is_prefix_of(self.acklist@),
                self.snd_una >= old(self).snd_una,
                self.rcv_nxt >= old(self).rcv_nxt,
                seg_subset(self.snd_buf@, old(self).snd_buf@),
                forall|i: int| 0 <= i < self.rcv_queue@.len()
                    ==> seg_stored(#[trigger] self.rcv_queue@[i], *old(self))
                        || seg_of_datagram(data@, self.rcv_queue@[i]),
                forall|i: int| 0 <= i < self.rcv_buf@.len()
                    ==> seg_stored(#[trigger] self.rcv_buf@[i], *old(self))
                        || seg_of_datagram(data@, self.rcv_buf@[i]),
                (data@.len() == seg_span(data@, 0) && data@[4] == CMD_PUSH && off != 0)
                    ==> {
                    let dsn = le_u32_at(data@, 12) as u32;
                    let dts = le_u32_at(data@, 8) as u32;
                    &&& off == data@.len()
                    &&& ((dsn as int) < old(self).rcv_nxt + old(self).rcv_wnd
                        ==> self.acklist@ == old(self).acklist@.push((dsn, dts)))
                    &&& ((dsn as int) < old(self).rcv_nxt + old(self).rcv_wnd
                        && dsn >= old(self).rcv_nxt && dsn != 0xFFFF_FFFFu32
                        && !(exists|j: int| 0 <= j < old(self).rcv_buf@.len()
                            && (#[trigger] old(self).rcv_buf@[j]).sn == dsn)
                        ==> data_seg_present(*self, dsn, data@[5],
                            data@.subrange(KCP_OVERHEAD as int, seg_span(data@, 0))))
                },
                *self == (Kcp {
                    rmt_wnd: self.rmt_wnd,
                    probe_ask: self.probe_ask,
                    snd_una: self.snd_una,
                    snd_buf: self.snd_buf,
                    rcv_buf: self.rcv_buf,
                    rcv_queue: self.rcv_queue,
                    rcv_nxt: self.rcv_nxt,
                    acklist: self.acklist,
                    ..*old(self)
                }),
            decreases total - off,
        {
            let (seg, n) = match crate::codec::parse_segment(data, off) {
                Err(_) => {
                    proof {
                        assert(!datagram_ok_from(data@, conv0, off as int));
                    }
                    return Err(KcpErr::MalformedPacket);
                },
                Ok(pair) => pair,
            };
            proof {
                let sub = data@.subrange(off as int, n as int);
                assert(sub[0] == data@[off as int]);
                assert(sub[1] == data@[off + 1]);
                assert(sub[2] == data@[off + 2]);
                assert(sub[3] == data@[off + 3]);
                assert(sub[4] == data@[off + 4]);
                assert(sub[5] == data@[off + 5]);
                assert(sub[8] == data@[off + 8]);
                assert(sub[9] == data@[off + 9]);
                assert(sub[10] == data@[off + 10]);
                assert(sub[11] == data@[off + 11]);
                assert(sub[12] == data@[off + 12]);
                assert(sub[13] == data@[off + 13]);
                assert(sub[14] == data@[off + 14]);
                assert(sub[15] == data@[off + 15]);
                assert(sub[20] == data@[off + 20]);
                assert(sub[21] == data@[off + 21]);
                assert(sub[22] == data@[off + 22]);
                assert(sub[23] == data@[off + 23]);
                assert(le_u32_at(data@, off as int) == seg.conv);
                assert(le_u32_at(data@, off + 20) == seg.data@.len());
                assert(le_u32_at(data@, off + 12) == seg.sn);
                assert(le_u32_at(data@, off + 8) == seg.ts);
                assert(data@[off + 4] == seg.cmd);
                assert(data@[off + 5] == seg.frg);
                assert(data@.subrange(off + KCP_OVERHEAD, off + KCP_OVERHEAD
                    + seg.data@.len()) =~= seg.data@);
            }
            if seg.conv != self.conv {
                proof {
                    assert(!datagram_ok_from(data@, conv0, off as int));
                }
                return Err(KcpErr::ConvInconsistent);
            }
            let cmd = seg.cmd;
            if !(cmd == CMD_PUSH || cmd == CMD_ACK || cmd == CMD_WASK || cmd == CMD_WINS) {
                proof {
                    assert(!datagram_ok_from(data@, conv0, off as int));
                }
                return Err(KcpErr::MalformedPacket);
            }
            if cmd == CMD_PUSH && seg.data.len() > KCP_MSS {
                proof {
                    assert(!datagram_ok_from(data@, conv0, off as int));
                }
                return Err(KcpErr::MalformedPacket);
            }
            let ghost pre = *self;
            self.rmt_wnd = seg.wnd;
            self.parse_una(seg.una);
            if cmd == CMD_ACK {
                self.parse_ack(seg.sn);
                proof {
                    lemma_prefix_refl(self.rcv_stream());
                    lemma_prefix_refl(self.acklist@);
                }
            } else if cmd == CMD_PUSH {
                let ghost s_mid = *self;
                let ghost seg_sn = seg.sn;
                let ghost seg_ts = seg.ts;
                let ghost seg_frg = seg.frg;
                let ghost seg_data = seg.data@;
                self.parse_data(seg.sn, seg.ts, seg.frg, seg.data);
                proof {
                    assert(off + KCP_OVERHEAD + seg_data.len() <= data@.len());
                    assert forall|i: int| 0 <= i < self.rcv_queue@.len()
                        implies seg_stored(#[trigger] self.rcv_queue@[i], *old(self))
                            || seg_of_datagram(data@, self.rcv_queue@[i]) by {
                        let e = self.rcv_queue@[i];
                        assert(stored_or_fresh(e, s_mid, seg_sn, seg_frg, seg_data));
                        if seg_stored(e, s_mid) {
                            if exists|j: int| 0 <= j < s_mid.rcv_queue@.len()
                                && e.sn == (#[trigger] s_mid.rcv_queue@[j]).sn
                                && e.frg == s_mid.rcv_queue@[j].frg
                                && e.data == s_mid.rcv_queue@[j].data {
                                let j = choose|j: int| 0 <= j < s_mid.rcv_queue@.len()
                                    && e.sn == (#[trigger] s_mid.rcv_queue@[j]).sn
                                    && e.frg == s_mid.rcv_queue@[j].frg
                                    && e.data == s_mid.rcv_queue@[j].data;
                                lemma_provenance_transfer(e, s_mid.rcv_queue@[j],
                                    *old(self), data@);
                            } else {
                                let j = choose|j: int| 0 <= j < s_mid.rcv_buf@.len()
                                    && e.sn == (#[trigger] s_mid.rcv_buf@[j]).sn
                                    && e.frg == s_mid.rcv_buf@[j].frg
                                    && e.data == s_mid.rcv_buf@[j].data;
                                lemma_provenance_transfer(e, s_mid.rcv_buf@[j],
                                    *old(self), data@);
                            }
                        } else {
                            assert(e.sn == seg_sn && e.frg == seg_frg && e.data@ == seg_data);
                            assert(0 <= off && off + KCP_OVERHEAD + e.data@.len()
                                <= data@.len()
                                && data@[off + 4] == CMD_PUSH
                                && data@[off + 5] == e.frg
                                && le_u32_at(data@, off + 12) == e.sn
                                && data@.subrange(off + KCP_OVERHEAD,
                                    off + KCP_OVERHEAD + e.data@.len()) == e.data@);
                        }
                    }
                    assert forall|i: int| 0 <= i < self.rcv_buf@.len()
                        implies seg_stored(#[trigger] self.rcv_buf@[i], *old(self))
                            || seg_of_datagram(data@, self.rcv_buf@[i]) by {
                        let e = self.rcv_buf@[i];
                        assert(stored_or_fresh(e, s_mid, seg_sn, seg_frg, seg_data));
                        if seg_stored(e, s_mid) {
                            if exists|j: int| 0 <= j < s_mid.rcv_queue@.len()
                                && e.sn == (#[trigger] s_mid.rcv_queue@[j]).sn
                                && e.frg == s_mid.rcv_queue@[j].frg
                                && e.data == s_mid.rcv_queue@[j].data {
                                let j = choose|j: int| 0 <= j < s_mid.rcv_queue@.len()
                                    && e.sn == (#[trigger] s_mid.rcv_queue@[j]).sn
                                    && e.frg == s_mid.rcv_queue@[j].frg
                                    && e.data == s_mid.rcv_queue@[j].data;
                                lemma_provenance_transfer(e, s_mid.rcv_queue@[j],
                                    *old(self), data@);
                            } else {
                                let j = choose|j: int| 0 <= j < s_mid.rcv_buf@.len()
                                    && e.sn == (#[trigger] s_mid.rcv_buf@[j]).sn
                                    && e.frg == s_mid.rcv_buf@[j].frg
                                    && e.data == s_mid.rcv_buf@[j].data;
                                lemma_provenance_transfer(e, s_mid.rcv_buf@[j],
                                    *old(self), data@);
                            }
                        } else {
                            assert(e.sn == seg_sn && e.frg == seg_frg && e.data@ == seg_data);
                            assert(0 <= off && off + KCP_OVERHEAD + e.data@.len()
                                <= data@.len()
                                && data@[off + 4] == CMD_PUSH
                                && data@[off + 5] == e.frg
                                && le_u32_at(data@, off + 12) == e.sn
                                && data@.subrange(off + KCP_OVERHEAD,
                                    off + KCP_OVERHEAD + e.data@.len()) == e.data@);
                        }
                    }
                    // a datagram that is exactly this one data segment:
                    // surface its acceptance effect
                    if off == 0 && data@.len() == seg_span(data@, 0) {
                        assert(n == data@.len());
                        let dsn = le_u32_at(data@, 12) as u32;
                        let dts = le_u32_at(data@, 8) as u32;
                        assert(dsn == seg_sn && dts == seg_ts);
                        assert(data@[5] == seg_frg);
                        assert(data@.subrange(KCP_OVERHEAD as int, seg_span(data@, 0))
                            =~= seg_data);
                        assert(s_mid.acklist@ == old(self).acklist@);
                        assert(s_mid.rcv_buf@ == old(self).rcv_buf@);
                        assert(s_mid.rcv_queue@ == old(self).rcv_queue@);
                        if (dsn as int) < old(self).rcv_nxt + old(self).rcv_wnd {
                            assert(self.acklist@ == old(self).acklist@.push((dsn, dts)));
                        }
                        if (dsn as int) < old(self).rcv_nxt + old(self).rcv_wnd
                            && dsn >= old(self).rcv_nxt && dsn != 0xFFFF_FFFFu32
                            && !(exists|j: int| 0 <= j < old(self).rcv_buf@.len()
                                && (#[trigger] old(self).rcv_buf@[j]).sn == dsn) {
                            assert(!(exists|j: int| 0 <= j < s_mid.rcv_buf@.len()
                                && (#[trigger] s_mid.rcv_buf@[j]).sn == seg_sn));
                            let b = self.rcv_queue@.skip(s_mid.rcv_queue@.len() as int)
                                + self.rcv_buf@;
                            let ip = insert_pos(s_mid.rcv_buf@, seg_sn);
                            assert(is_insert_at(b, s_mid.rcv_buf@, ip, seg_sn, seg_frg,
                                seg_data));
                            let moved = self.rcv_queue@.len() - s_mid.rcv_queue@.len();
                            assert(b[ip].sn == seg_sn && b[ip].frg == seg_frg
                                && b[ip].data@ == seg_data);
                            if ip < moved {
                                assert(b[ip] == self.rcv_queue@
                                    .skip(s_mid.rcv_queue@.len() as int)[ip]);
                                let j = s_mid.rcv_queue@.len() + ip;
                                assert(self.rcv_queue@[j as int] == b[ip]);
                                assert(0 <= j < self.rcv_queue@.len()
                                    && self.rcv_queue@[j as int].sn == dsn
                                    && self.rcv_queue@[j as int].frg == data@[5]
                                    && self.rcv_queue@[j as int].data@
                                        == data@.subrange(KCP_OVERHEAD as int,
                                            seg_span(data@, 0)));
                            } else {
                                let j = ip - moved;
                                assert(b[ip] == self.rcv_buf@[j]);
                                assert(0 <= j < self.rcv_buf@.len()
                                    && self.rcv_buf@[j].sn == dsn
                                    && self.rcv_buf@[j].frg == data@[5]
                                    && self.rcv_buf@[j].data@
                                        == data@.subrange(KCP_OVERHEAD as int,
                                            seg_span(data@, 0)));
                            }
                            assert(data_seg_present(*self, dsn, data@[5],
                                data@.subrange(KCP_OVERHEAD as int, seg_span(data@, 0))));
                        }
                    }
                }
            } else if cmd == CMD_WASK {
                self.probe_ask = true;
                proof {
                    lemma_prefix_refl(self.rcv_stream());
                    lemma_prefix_refl(self.acklist@);
                }
            } else {
                proof {
                    lemma_prefix_refl(self.rcv_stream());
                    lemma_prefix_refl(self.acklist@);
                }
            }
            proof {
                lemma_seg_subset_trans(self.snd_buf@, pre.snd_buf@, old(self).snd_buf@);
                lemma_prefix_trans(
                    old(self).acklist@,
                    pre.acklist@,
                    self.acklist@,
                );
                lemma_prefix_trans(
                    old(self).rcv_stream(),
                    pre.rcv_stream(),
                    self.rcv_stream(),
                );
                assert(datagram_ok_from(data@, conv0, off as int)
                    <==> datagram_ok_from(data@, conv0, n as int));
            }
            off = n;
        }
        Ok(off)
    }

    /// Milliseconds until the next `update` would do useful work;
    /// never more than the configured interval, and 0 when an update
    /// is already due.
    pub fn check(&self, now: u64) -> (r: u64)
        requires
            self.wf(),
        ensures
            r <= self.interval,
            !self.updated ==> r == 0,
            (self.updated && now >= self.ts_flush) ==> r == 0,
            (self.updated && now < self.ts_flush) ==> r == (if self.ts_flush - now
                < self.interval { (self.ts_flush - now) as u64 } else { self.interval }),
    {
        if !self.updated {
            return 0;
        }
        if now >= self.ts_flush {
            return 0;
        }
        let d = self.ts_flush - now;
        if d < self.interval { d } else { self.interval }
    }

    /// Runs one maintenance tick at time `now`: when a flush is due
    /// it emits pending acknowledgments, window probes and answers,
    /// moves queued fragments into the send window, transmits fresh
    /// segments and retransmits expired ones (with exponential
    /// backoff, gentler in no-delay mode), and declares the link dead
    /// once a segment has been sent `dead_link_limit` times.
    ///
    /// The returned datagrams are what the caller must put on the
    /// wire.  Receive-side state is untouched; unacknowledged user
    /// bytes are conserved exactly.
    pub fn update(&mut self, now: u64) -> (out: Vec<Vec<u8>>)
        requires
            old(self).wf(),
        ensures
            final(self).wf(),
            final(self).rcv_queue == old(self).rcv_queue,
            final(self).rcv_buf == old(self).rcv_buf,
            final(self).rcv_nxt == old(self).rcv_nxt,
            final(self).pending_bytes() == old(self).pending_bytes(),
            final(self).snd_una == old(self).snd_una,
            final(self).snd_queue@.len() <= old(self).snd_queue@.len(),
            old(self).dead ==> final(self).dead,
            final(self).conv == old(self).conv,
            final(self).closed == old(self).closed,
            final(self).updated,
            forall|i: int| 0 <= i < out@.len() ==> (#[trigger] out@[i])@.len() >= KCP_OVERHEAD
                && le_u32_at(out@[i]@, 0) == old(self).conv
                && datagram_ok(out@[i]@, old(self).conv),
            forall|k: int| 0 <= k < out@.len() && (#[trigger] out@[k])@[4] == CMD_PUSH
                ==> exists|j: int| 0 <= j < final(self).snd_buf@.len()
                    && le_u32_at(out@[k]@, 12) == (#[trigger] final(self).snd_buf@[j]).sn
                    && out@[k]@.skip(KCP_OVERHEAD as int) == final(self).snd_buf@[j].data@,
            final(self).dead == (old(self).dead
                || (old(self).flush_due(clamp_now(now))
                    && old(self).dead_trigger(clamp_now(now)))),
            old(self).flush_due(clamp_now(now)) ==> {
                &&& final(self).acklist@.len() == 0
                &&& (forall|k: int| 0 <= k < final(self).snd_buf@.len()
                    ==> (#[trigger] final(self).snd_buf@[k]).xmit >= 1
                        && final(self).snd_buf@[k].resendts > clamp_now(now))
                &&& (forall|a: int| 0 <= a < old(self).acklist@.len()
                    ==> ack_emitted(out@, (#[trigger] old(self).acklist@[a]).0,
                        old(self).acklist@[a].1))
                &&& (forall|j: int| 0 <= j < old(self).snd_buf@.len()
                    && seg_due(#[trigger] old(self).snd_buf@[j], clamp_now(now),
                        old(self).fastresend)
                    ==> push_emitted(out@, old(self).snd_buf@[j].sn,
                        old(self).snd_buf@[j].data@))
                &&& (forall|j: int| 0 <= j < old(self).snd_buf@.len()
                    ==> (#[trigger] final(self).snd_buf@[j]).xmit
                        == (if seg_due(old(self).snd_buf@[j], clamp_now(now),
                            old(self).fastresend) {
                            xmit_after(old(self).snd_buf@[j])
                        } else {
                            old(self).snd_buf@[j].xmit as int
                        }))
            },
    {
        let now = if now > 0x4000_0000_0000_0000u64 { 0x4000_0000_0000_0000u64 } else { now };
        if !self.updated {
            self.updated = true;
            self.ts_flush = now;
        }
        if self.ts_flush > now + 10000 {
            // the clock jumped backwards: resynchronise
            self.ts_flush = now;
        }
        if now >= self.ts_flush {
            let nf = self.ts_flush + self.interval;
            self.ts_flush = if nf > now { nf } else { now + self.interval };
            let ghost s0 = *self;
            let out = self.flush(now);
            proof {
                assert forall|a: int| 0 <= a < old(self).acklist@.len()
                    implies ack_emitted(out@, (#[trigger] old(self).acklist@[a]).0,
                        old(self).acklist@[a].1) by {
                    assert(old(self).acklist@[a] == s0.acklist@[a]);
                    assert(ack_emitted(out@, s0.acklist@[a].0, s0.acklist@[a].1));
                }
            }
            out
        } else {
            Vec::new()
        }
    }

    /// Emits everything currently owed to the wire; see `update`.
    #[verifier::rlimit(80)]
    fn flush(&mut self, now: u64) -> (out: Vec<Vec<u8>>)
        requires
            old(self).wf(),
            now <= 0x4000_0000_0000_0000u64,
        ensures
            final(self).wf(),
            final(self).rcv_queue == old(self).rcv_queue,
            final(self).rcv_buf == old(self).rcv_buf,
            final(self).rcv_nxt == old(self).rcv_nxt,
            final(self).pending_bytes() == old(self).pending_bytes(),
            final(self).snd_una == old(self).snd_una,
            final(self).snd_queue@.len() <= old(self).snd_queue@.len(),
            final(self).conv == old(self).conv,
            final(self).closed == old(self).closed,
            final(self).updated == old(self).updated,
            final(self).ts_flush == old(self).ts_flush,
            forall|i: int| 0 <= i < out@.len() ==> (#[trigger] out@[i])@.len() >= KCP_OVERHEAD
                && le_u32_at(out@[i]@, 0) == old(self).conv
                && datagram_ok(out@[i]@, old(self).conv),
            final(self).acklist@.len() == 0,
            forall|k: int| 0 <= k < final(self).snd_buf@.len()
                ==> (#[trigger] final(self).snd_buf@[k]).xmit >= 1
                    && final(self).snd_buf@[k].resendts > now,
            forall|k: int| 0 <= k < out@.len() && (#[trigger] out@[k])@[4] == CMD_PUSH
                ==> exists|j: int| 0 <= j < final(self).snd_buf@.len()
                    && le_u32_at(out@[k]@, 12) == (#[trigger] final(self).snd_buf@[j]).sn
                    && out@[k]@.skip(KCP_OVERHEAD as int) == final(self).snd_buf@[j].data@,
            forall|a: int| 0 <= a < old(self).acklist@.len()
                ==> ack_emitted(out@, (#[trigger] old(self).acklist@[a]).0,
                    old(self).acklist@[a].1),
            forall|j: int| 0 <= j < old(self).snd_buf@.len()
                && seg_due(#[trigger] old(self).snd_buf@[j], now, old(self).fastresend)
                ==> push_emitted(out@, old(self).snd_buf@[j].sn, old(self).snd_buf@[j].data@),
            forall|j: int| 0 <= j < old(self).snd_buf@.len()
                ==> (#[trigger] final(self).snd_buf@[j]).xmit
                    == (if seg_due(old(self).snd_buf@[j], now, old(self).fastresend) {
                        xmit_after(old(self).snd_buf@[j])
                    } else {
                        old(self).snd_buf@[j].xmit as int
                    }),
            final(self).dead == (old(self).dead || old(self).dead_trigger(now)),
    {
        let q_len = self.rcv_queue.len();
        let wnd_unused: u16 = if q_len < self.rcv_wnd as usize {
            (self.rcv_wnd as usize - q_len) as u16
        } else {
            0
        };
        let mut out: Vec<Vec<u8>> = Vec::new();

        // owed acknowledgments
        let mut i: usize = 0;
        while i < self.acklist.len()
            invariant
                self.wf(),
                *self == *old(self),
                i <= self.acklist@.len(),
                forall|k: int| 0 <= k < out@.len() ==> (#[trigger] out@[k])@.len() >= KCP_OVERHEAD
                    && le_u32_at(out@[k]@, 0) == old(self).conv
                    && out@[k]@[4] != CMD_PUSH
                    && datagram_ok(out@[k]@, old(self).conv),
                forall|a: int| 0 <= a < i
                    ==> ack_emitted(out@, (#[trigger] old(self).acklist@[a]).0,
                        old(self).acklist@[a].1),
            decreases self.acklist@.len() - i,
        {
            let pair = self.acklist[i];
            let seg = WireSeg {
                conv: self.conv,
                cmd: CMD_ACK,
                frg: 0,
                wnd: wnd_unused,
                ts: pair.1,
                sn: pair.0,
                una: self.rcv_nxt,
                data: Vec::new(),
            };
            let bytes = crate::codec::encode_segment(&seg);
            proof {
                lemma_emissions_monotone(out@, bytes);
            }
            proof {
                assert(seg_span(bytes@, 0) == bytes@.len());
                assert(datagram_ok_from(bytes@, self.conv, bytes@.len() as int));
                assert(datagram_ok(bytes@, self.conv));
            }
            out.push(bytes);
            proof {
                let ghost k = out@.len() - 1;
                assert(0 <= k < out@.len() && out@[k]@[4] == CMD_ACK
                    && le_u32_at(out@[k]@, 12) == pair.0 && le_u32_at(out@[k]@, 8) == pair.1);
                assert(ack_emitted(out@, pair.0, pair.1));
            }
            i = i + 1;
        }
        self.acklist.clear();

        // window probe and answer
        if self.rmt_wnd == 0 && now >= self.ts_probe {
            self.ts_probe = now + 7000;
            let seg = WireSeg {
                conv: self.conv,
                cmd: CMD_WASK,
                frg: 0,
                wnd: wnd_unused,
                ts: 0,
                sn: 0,
                una: self.rcv_nxt,
                data: Vec::new(),
            };
            let bytes = crate::codec::encode_segment(&seg);
            proof {
                lemma_emissions_monotone(out@, bytes);
                assert(seg_span(bytes@, 0) == bytes@.len());
                assert(datagram_ok_from(bytes@, self.conv, bytes@.len() as int));
                assert(datagram_ok(bytes@, self.conv));
            }
            out.push(bytes);
        }
        if self.probe_ask {
            self.probe_ask = false;
            let seg = WireSeg {
                conv: self.conv,
                cmd: CMD_WINS,
                frg: 0,
                wnd: wnd_unused,
                ts: 0,
                sn: 0,
                una: self.rcv_nxt,
                data: Vec::new(),
            };
            let bytes = crate::codec::encode_segment(&seg);
            proof {
                lemma_emissions_monotone(out@, bytes);
                assert(seg_span(bytes@, 0) == bytes@.len());
                assert(datagram_ok_from(bytes@, self.conv, bytes@.len() as int));
                assert(datagram_ok(bytes@, self.conv));
            }
            out.push(bytes);
        }

        // slide queued fragments into the send window
        let cwnd: u64 = if self.snd_wnd < self.rmt_wnd {
            self.snd_wnd as u64
        } else {
            self.rmt_wnd as u64
        };
        let ghost pend0 = self.pending_bytes();
        let ghost mid0 = *self;
        while self.snd_queue.len() > 0
            && (self.snd_nxt as u64) < (self.snd_una as u64) + cwnd
            && self.snd_nxt < 0xFFFF_FFFFu32
            invariant
                self.wf(),
                self.pending_bytes() == pend0,
                self.snd_queue@.len() <= mid0.snd_queue@.len(),
                *self == (Kcp {
                    snd_queue: self.snd_queue,
                    snd_buf: self.snd_buf,
                    snd_nxt: self.snd_nxt,
                    ..mid0
                }),
                cwnd <= 65535,
                cwnd == mid0.cwnd(),
                self.snd_nxt >= mid0.snd_nxt,
                self.snd_buf@.len() >= mid0.snd_buf@.len(),
                self.snd_buf@.subrange(0, mid0.snd_buf@.len() as int) == mid0.snd_buf@,
                forall|j: int| mid0.snd_buf@.len() <= j < self.snd_buf@.len()
                    ==> (#[trigger] self.snd_buf@[j]).xmit == 0
                        && self.snd_buf@[j].resendts == now,
                self.snd_buf@.len() == mid0.snd_buf@.len() ==> *self == mid0,
                self.snd_buf@.len() > mid0.snd_buf@.len() ==> (mid0.snd_queue@.len() > 0
                    && (mid0.snd_nxt as u64) < (mid0.snd_una as u64) + cwnd
                    && mid0.snd_nxt < 0xFFFF_FFFFu32),
            decreases self.snd_queue@.len(),
        {
            let ghost q0 = self.snd_queue@;
            let ghost b0 = self.snd_buf@;
            proof {
                if self.snd_buf@.len() == mid0.snd_buf@.len() {
                    assert(*self == mid0);
                }
            }
            let mut seg = self.snd_queue.remove(0);
            seg.sn = self.snd_nxt;
            seg.xmit = 0;
            seg.fastack = 0;
            seg.rto = self.rto;
            seg.resendts = now;
            self.snd_buf.push(seg);
            self.snd_nxt = self.snd_nxt + 1;
            proof {
                assert(self.snd_queue@ =~= q0.drop_first());
                lemma_queue_bytes_push(b0, seg);
                assert(queue_bytes(q0) =~= q0[0].data@ + queue_bytes(q0.drop_first()));
                assert(seg.data == q0[0].data);
                assert(self.pending_bytes() =~= pend0);
                assert(sns_sorted(self.snd_buf@)) by {
                    assert(forall|k: int| 0 <= k < b0.len()
                        ==> self.snd_buf@[k] == b0[k]);
                    assert(self.snd_buf@[b0.len() as int] == seg);
                }
                assert(self.snd_buf@.subrange(0, mid0.snd_buf@.len() as int)
                    =~= mid0.snd_buf@);
            }
        }

        // transmit fresh segments and retransmit expired ones
        let ghost orig = self.snd_buf@;
        let ghost mid1 = *self;
        let mut oldbuf: Vec<Segment> = Vec::new();
        core::mem::swap(&mut oldbuf, &mut self.snd_buf);
        let mut newbuf: Vec<Segment> = Vec::new();
        let ghost mut p: int = 0;
        while oldbuf.len() > 0
            invariant
                0 <= p <= orig.len(),
                oldbuf@ == orig.skip(p),
                newbuf@.len() == p,
                forall|k: int| 0 <= k < p ==> (#[trigger] newbuf@[k]).sn == orig[k].sn
                    && newbuf@[k].data == orig[k].data,
                forall|k: int| 0 <= k < p ==> (#[trigger] newbuf@[k]).xmit >= 1
                    && newbuf@[k].resendts > now,
                forall|k: int| 0 <= k < p ==> (#[trigger] newbuf@[k]).xmit
                    == (if seg_due(orig[k], now, mid1.fastresend) {
                        xmit_after(orig[k])
                    } else {
                        orig[k].xmit as int
                    }),
                sns_sorted(orig),
                sns_in(orig, mid1.snd_una as int, mid1.snd_nxt as int),
                datas_bounded(orig),
                self.snd_buf@.len() == 0,
                *self == (Kcp { snd_buf: self.snd_buf, dead: self.dead, ..mid1 }),
                mid1.conv == old(self).conv,
                mid1.wf(),
                now <= 0x4000_0000_0000_0000u64,
                forall|k: int| 0 <= k < out@.len() ==> (#[trigger] out@[k])@.len() >= KCP_OVERHEAD
                    && le_u32_at(out@[k]@, 0) == old(self).conv
                    && datagram_ok(out@[k]@, old(self).conv),
                forall|k: int| 0 <= k < out@.len() && (#[trigger] out@[k])@[4] == CMD_PUSH
                    ==> exists|j: int| 0 <= j < orig.len()
                        && le_u32_at(out@[k]@, 12) == (#[trigger] orig[j]).sn
                        && out@[k]@.skip(KCP_OVERHEAD as int) == orig[j].data@,
                forall|a: int| 0 <= a < old(self).acklist@.len()
                    ==> ack_emitted(out@, (#[trigger] old(self).acklist@[a]).0,
                        old(self).acklist@[a].1),
                forall|j: int| 0 <= j < p && seg_due(#[trigger] orig[j], now, mid1.fastresend)
                    ==> push_emitted(out@, orig[j].sn, orig[j].data@),
                self.dead == (mid1.dead || exists|j: int| 0 <= j < p
                    && seg_dead_after(#[trigger] orig[j], now, mid1.fastresend,
                        mid1.dead_link_limit)),
            decreases oldbuf@.len(),
        {
            let ghost dead_pre = self.dead;
            let mut seg = oldbuf.remove(0);
            proof {
                assert(orig.skip(p)[0] == orig[p]);
                assert(oldbuf@ =~= orig.skip(p + 1));
                assert(orig[p].data@.len() <= KCP_MSS);
            }
            let mut transmit = false;
            if seg.xmit == 0 {
                transmit = true;
                seg.xmit = 1;
                seg.rto = self.rto;
                seg.resendts = now + seg.rto;
            } else if now >= seg.resendts {
                transmit = true;
                if seg.xmit < 0xFFFF_FFFFu32 {
                    seg.xmit = seg.xmit + 1;
                }
                let base = if seg.rto > 60000 { 60000 } else if seg.rto < 1 { 1 } else { seg.rto };
                seg.rto = if self.nodelay { base + base / 2 } else { base * 2 };
                seg.resendts = now + seg.rto;
            } else if self.fastresend > 0 && seg.fastack >= self.fastresend {
                transmit = true;
                seg.fastack = 0;
                if seg.xmit < 0xFFFF_FFFFu32 {
                    seg.xmit = seg.xmit + 1;
                }
                let base = if seg.rto > 60000 { 60000 } else if seg.rto < 1 { 1 } else { seg.rto };
                seg.rto = base;
                seg.resendts = now + seg.rto;
            }
            proof {
                assert(transmit == seg_due(orig[p], now, mid1.fastresend));
                if transmit {
                    assert(seg.xmit == xmit_after(orig[p]));
                }
            }
            if transmit {
                if seg.xmit >= self.dead_link_limit {
                    self.dead = true;
                }
                let wire = WireSeg {
                    conv: self.conv,
                    cmd: CMD_PUSH,
                    frg: seg.frg,
                    wnd: wnd_unused,
                    ts: 0,
                    sn: seg.sn,
                    una: self.rcv_nxt,
                    data: copy_bytes(&seg.data),
                };
                let bytes = crate::codec::encode_segment(&wire);
                proof {
                    assert(0 <= p < orig.len()
                        && le_u32_at(bytes@, 12) == orig[p].sn
                        && bytes@.skip(KCP_OVERHEAD as int) == orig[p].data@);
                    lemma_emissions_monotone(out@, bytes);
                    assert(wire.data@.len() <= KCP_MSS);
                    assert(seg_span(bytes@, 0) == bytes@.len());
                    assert(datagram_ok_from(bytes@, self.conv, bytes@.len() as int));
                    assert(datagram_ok(bytes@, self.conv));
                }
                out.push(bytes);
                proof {
                    let ghost k = out@.len() - 1;
                    assert(0 <= k < out@.len() && out@[k]@[4] == CMD_PUSH
                        && le_u32_at(out@[k]@, 12) == orig[p].sn
                        && out@[k]@.skip(KCP_OVERHEAD as int) == orig[p].data@);
                    assert(push_emitted(out@, orig[p].sn, orig[p].data@));
                }
            }
            proof {
                assert(self.dead == (dead_pre || (transmit && xmit_after(orig[p])
                    >= mid1.dead_link_limit)));
                assert(self.dead == (mid1.dead || exists|j: int| 0 <= j < p + 1
                    && seg_dead_after(#[trigger] orig[j], now, mid1.fastresend,
                        mid1.dead_link_limit))) by {
                    if self.dead {
                        if !dead_pre {
                            assert(seg_dead_after(orig[p], now, mid1.fastresend,
                                mid1.dead_link_limit));
                        } else if !mid1.dead {
                            let j = choose|j: int| 0 <= j < p
                                && seg_dead_after(#[trigger] orig[j], now, mid1.fastresend,
                                    mid1.dead_link_limit);
                            assert(seg_dead_after(orig[j], now, mid1.fastresend,
                                mid1.dead_link_limit));
                        }
                    } else {
                        assert(!seg_dead_after(orig[p], now, mid1.fastresend,
                            mid1.dead_link_limit));
                        assert forall|j: int| 0 <= j < p + 1
                            implies !seg_dead_after(#[trigger] orig[j], now, mid1.fastresend,
                                mid1.dead_link_limit) by {
                            if j < p {
                                assert(!(exists|j2: int| 0 <= j2 < p
                                    && seg_dead_after(#[trigger] orig[j2], now,
                                        mid1.fastresend, mid1.dead_link_limit)));
                            }
                        }
                    }
                }
            }
            let ghost nb0 = newbuf@;
            newbuf.push(seg);
            proof {
                assert(forall|k: int| 0 <= k < nb0.len() ==> newbuf@[k] == nb0[k]);
                assert(newbuf@[nb0.len() as int] == seg);
                assert(seg.sn == orig[p].sn && seg.data == orig[p].data);
                p = p + 1;
            }
        }
        core::mem::swap(&mut self.snd_buf, &mut newbuf);
        proof {
            assert(self.snd_buf@.len() == orig.len());
            assert(sns_sorted(self.snd_buf@)) by {
                assert(forall|i2: int, j2: int| 0 <= i2 < j2 < orig.len()
                    ==> orig[i2].sn < orig[j2].sn);
            }
            assert(sns_in(self.snd_buf@, self.snd_una as int, self.snd_nxt as int));
            assert(datas_bounded(self.snd_buf@)) by {
                assert(forall|k: int| 0 <= k < orig.len()
                    ==> (#[trigger] self.snd_buf@[k]).data == orig[k].data);
            }
            lemma_queue_bytes_data_eq(self.snd_buf@, orig);
            assert(self.pending_bytes() == pend0);
            assert forall|k: int| 0 <= k < out@.len() && (#[trigger] out@[k])@[4] == CMD_PUSH
                implies exists|j: int| 0 <= j < self.snd_buf@.len()
                    && le_u32_at(out@[k]@, 12) == (#[trigger] self.snd_buf@[j]).sn
                    && out@[k]@.skip(KCP_OVERHEAD as int) == self.snd_buf@[j].data@ by {
                let j = choose|j: int| 0 <= j < orig.len()
                    && le_u32_at(out@[k]@, 12) == (#[trigger] orig[j]).sn
                    && out@[k]@.skip(KCP_OVERHEAD as int) == orig[j].data@;
                assert(0 <= j < self.snd_buf@.len()
                    && le_u32_at(out@[k]@, 12) == self.snd_buf@[j].sn
                    && out@[k]@.skip(KCP_OVERHEAD as int) == self.snd_buf@[j].data@);
            }
            // the segments the flush started from are the old in-flight
            // ones followed by the fragments it moved into the window
            assert(forall|j: int| 0 <= j < old(self).snd_buf@.len()
                ==> #[trigger] orig[j] == old(self).snd_buf@[j]) by {
                assert(forall|j: int| 0 <= j < mid0.snd_buf@.len()
                    ==> mid1.snd_buf@.subrange(0, mid0.snd_buf@.len() as int)[j]
                        == #[trigger] mid1.snd_buf@[j]);
            }
            assert forall|j: int| 0 <= j < old(self).snd_buf@.len()
                && seg_due(#[trigger] old(self).snd_buf@[j], now, old(self).fastresend)
                implies push_emitted(out@, old(self).snd_buf@[j].sn,
                    old(self).snd_buf@[j].data@) by {
                assert(orig[j] == old(self).snd_buf@[j]);
                assert(seg_due(orig[j], now, mid1.fastresend));
            }
            assert(self.dead == (old(self).dead || old(self).dead_trigger(now))) by {
                let moved = mid1.snd_buf@.len() > mid0.snd_buf@.len();
                if self.dead && !mid1.dead {
                    let j = choose|j: int| 0 <= j < orig.len()
                        && seg_dead_after(#[trigger] orig[j], now, mid1.fastresend,
                            mid1.dead_link_limit);
                    if j < old(self).snd_buf@.len() {
                        assert(seg_dead_after(old(self).snd_buf@[j], now,
                            old(self).fastresend, old(self).dead_link_limit));
                    } else {
                        assert(orig[j].xmit == 0);
                        assert(xmit_after(orig[j]) == 1);
                        assert(1 >= old(self).dead_link_limit);
                        assert(moved);
                    }
                }
                if !self.dead && old(self).dead_trigger(now) {
                    if exists|j: int| 0 <= j < old(self).snd_buf@.len()
                        && seg_dead_after(#[trigger] old(self).snd_buf@[j], now,
                            old(self).fastresend, old(self).dead_link_limit) {
                        let j = choose|j: int| 0 <= j < old(self).snd_buf@.len()
                            && seg_dead_after(#[trigger] old(self).snd_buf@[j], now,
                                old(self).fastresend, old(self).dead_link_limit);
                        assert(seg_dead_after(orig[j], now, mid1.fastresend,
                            mid1.dead_link_limit));
                        assert(false);
                    } else {
                        // the window had room for a first fragment, so the
                        // move loop ran and the fragment was transmitted
                        assert(1 >= mid0.dead_link_limit && mid0.snd_queue@.len() > 0
                            && (mid0.snd_nxt as u64) < (mid0.snd_una as u64) + cwnd
                            && mid0.snd_nxt < 0xFFFF_FFFFu32);
                        if !moved {
                            assert(mid1 == mid0);
                            assert(false);
                        }
                        let jm = mid0.snd_buf@.len() as int;
                        assert(orig[jm].xmit == 0 && orig[jm].resendts == now);
                        assert(seg_dead_after(orig[jm], now, mid1.fastresend,
                            mid1.dead_link_limit));
                        assert(false);
                    }
                }
            }
        }
        out
    }
}

} // verus!
