//! The library's cross-cutting guarantees, stated and proved over
//! the models that the operation contracts use.

use vstd::prelude::*;
use crate::engine::Kcp;
use crate::session::KcpCore;
use crate::registry::{KcpListener, KcpConnector};

verus! {

/// Law: everything a session has delivered to its user is a prefix
/// of the session's total in-order stream — bytes come out in the
/// order they entered, with nothing skipped or repeated.  Every
/// operation (`input`, `poll_read`, `kcp_update`) moreover ensures
/// the total stream itself only grows, so deliveries of any later
/// state extend deliveries of an earlier one.
///
/// What the stream holds is pinned at every hop: `send` fragments
/// exactly the user's bytes; `update` emits only in-flight segments'
/// numbers and payloads, each as a well-formed chain for the
/// conversation (`datagram_ok`), which is exactly the condition under
/// which the peer's `input` accepts; `input` stores only segments
/// carried by the datagram (matched by number, fragment counter and
/// payload), and stores a single-segment data datagram outright; and
/// delivery takes exactly the store's in-order front.  The remaining
/// step — that a loopback pair composed of these hops reproduces the
/// peer's byte sequence — is exercised by the end-to-end tests.
pub proof fn lemma_delivered_prefix_of_total<W>(c: KcpCore<W>)
    ensures
        c.delivered@.is_prefix_of(c.total_stream()),
{
    assert(c.delivered@ =~= c.total_stream().subrange(0, c.delivered@.len() as int));
}

/// Law: a session that was removed from a listener's registry is
/// never found there again.  `finish_close` and teardown retire the
/// removed session's identity; well-formedness keeps every live
/// identity out of the retired set; and `dispatch` only ever creates
/// sessions with identities that were never retired.
pub proof fn lemma_removed_stays_out<W>(l: KcpListener<W>, pk: u64, conv: u32)
    requires
        l.wf(),
        l.has_session(pk, conv),
    ensures
        !l.retired@.contains(l.session_at(pk, conv).id@),
{
}

/// Law: the connector-side counterpart of `lemma_removed_stays_out`.
pub proof fn lemma_conn_removed_stays_out<W>(c: KcpConnector<W>, conv: u32)
    requires
        c.wf(),
        c.sessions@.contains_key(conv),
    ensures
        !c.retired@.contains(c.sessions@[conv].id@),
{
}

/// Law: when `wait_snd` reports 0 — no segment queued and none in
/// flight — every byte the user ever handed to `send` has been
/// acknowledged: the engine retains no unacknowledged payload.
/// Segments only ever leave the send buffer through acknowledgment
/// (`input`'s contract admits removals alone), so an empty buffer
/// means nothing sent is still owed.
pub proof fn lemma_wait_snd_zero_all_acked(k: Kcp)
    requires
        k.wf(),
        k.snd_buf@.len() + k.snd_queue@.len() == 0,
    ensures
        k.pending_bytes() == Seq::<u8>::empty(),
{
    assert(k.pending_bytes() =~= Seq::<u8>::empty());
}

/// Law: everything the engine puts on the wire is the user's own
/// data.  Each in-flight segment's payload is a contiguous slice of
/// the unacknowledged byte stream — and `update` ensures every data
/// datagram it emits carries exactly one in-flight segment's number
/// and payload, so the wire never carries fabricated bytes.
pub proof fn lemma_transmitted_bytes_are_pending(k: Kcp, j: int)
    requires
        k.wf(),
        0 <= j < k.snd_buf@.len(),
    ensures
        exists|off: int| 0 <= off
            && off + k.snd_buf@[j].data@.len() <= k.pending_bytes().len()
            && #[trigger] k.pending_bytes().subrange(off, off + k.snd_buf@[j].data@.len() as int)
                == k.snd_buf@[j].data@,
{
    crate::engine::lemma_seg_bytes_within(k.snd_buf@, j);
    let off = choose|off: int| 0 <= off
        && off + k.snd_buf@[j].data@.len()
            <= crate::engine::queue_bytes(k.snd_buf@).len()
        && #[trigger] crate::engine::queue_bytes(k.snd_buf@)
            .subrange(off, off + k.snd_buf@[j].data@.len() as int) == k.snd_buf@[j].data@;
    assert(k.pending_bytes().subrange(off, off + k.snd_buf@[j].data@.len() as int)
        =~= crate::engine::queue_bytes(k.snd_buf@)
            .subrange(off, off + k.snd_buf@[j].data@.len() as int));
    assert(0 <= off && off + k.snd_buf@[j].data@.len() <= k.pending_bytes().len()
        && k.pending_bytes().subrange(off, off + k.snd_buf@[j].data@.len() as int)
            == k.snd_buf@[j].data@);
}

/// Law: retransmission counts toward the dead-link verdict.  A due
/// flush transmits every due in-flight segment and advances its
/// transmission count by exactly one below the cap (`update`'s
/// contract), and the flush whose transmission reaches
/// `dead_link_limit` declares the link dead.  A segment that stays
/// unacknowledged therefore meets the verdict after at most
/// `dead_link_limit` transmissions, one per due tick.
pub proof fn lemma_resend_reaches_dead(k: Kcp, j: int, now: u64)
    requires
        k.wf(),
        0 <= j < k.snd_buf@.len(),
        crate::engine::seg_due(k.snd_buf@[j], now, k.fastresend),
        crate::engine::xmit_after(k.snd_buf@[j]) >= k.dead_link_limit,
    ensures
        k.dead_trigger(now),
{
    assert(crate::engine::seg_dead_after(k.snd_buf@[j], now, k.fastresend,
        k.dead_link_limit));
}

/// Law: closing is idempotent.  A ready `poll_close` leaves the
/// engine in the closed state; closing that state again yields the
/// very same state, so two closes are observably one.
pub proof fn lemma_close_idempotent(k: Kcp)
    ensures
        (Kcp { closed: true, ..(Kcp { closed: true, ..k }) }) == (Kcp { closed: true, ..k }),
{
}

} // verus!
