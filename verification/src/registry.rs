//! Sessions, streams, and the two registries around them: the
//! listener-side demultiplexer (sessions keyed by peer and
//! conversation id) and the connector-side registry (sessions keyed
//! by conversation id, with a wrapping conversation-id allocator).
//!
//! Each registry carries a close queue: dropping a stream can only
//! enqueue a finish-close, which the accepting or connecting poll
//! loop later drains.  A ghost retirement set records the identity of
//! every session ever removed; the well-formedness invariant keeps
//! live identities out of it, so a removed session is never found in
//! the registry again.

use vstd::prelude::*;
use std::collections::HashMap;
use crate::KcpErr;
use crate::KCP_OVERHEAD;
use crate::engine::{Kcp, datagram_ok, data_seg_present, lemma_concat_prefix, seg_stored,
    seg_of_datagram};
use crate::session::KcpCore;

verus! {

broadcast use vstd::std_specs::hash::group_hash_axioms;

/// The conversation id carried by a datagram.
pub open spec fn conv_of(b: Seq<u8>) -> u32 {
    crate::codec::le_u32_at(b, 0) as u32
}

/// The listener keys sessions by peer and conversation id combined:
/// the peer key in the upper and the conversation id in the lower
/// half of a 128-bit key.
pub open spec fn pair_key(pk: u64, conv: u32) -> u128 {
    (pk * 0x1_0000_0000 + conv) as u128
}

/// The wrapping successor used by the conversation-id counter.
pub open spec fn wrap_add(a: u32, k: int) -> u32 {
    (((a as int) + k) % 0x1_0000_0000) as u32
}

/// The connector's conversation-id counter: a 32-bit value that
/// advances with plain wrap-around.
pub struct Increment {
    /// Current counter value; the next allocation candidate.
    pub value: u32,
}

impl Increment {
    /// A counter seeded at `seed`.
    pub fn new(seed: u32) -> (r: Increment)
        ensures
            r.value == seed,
    {
        Increment { value: seed }
    }

    /// The current counter value.
    pub fn current(&self) -> (r: u32)
        ensures
            r == self.value,
    {
        self.value
    }

    /// Advances the counter by one, wrapping over the full 32-bit
    /// space, and returns the new value.
    pub fn next(&mut self) -> (r: u32)
        ensures
            final(self).value == wrap_add(old(self).value, 1),
            r == final(self).value,
    {
        let v = if self.value == 0xFFFF_FFFFu32 { 0 } else { self.value + 1 };
        proof {
            let ghost w = old(self).value;
            if w == 0xFFFF_FFFFu32 {
                assert((w + 1) % 0x1_0000_0000 == 0) by (nonlinear_arith)
                    requires w == 0xFFFF_FFFFu32;
            } else {
                assert((w + 1) % 0x1_0000_0000 == w + 1) by (nonlinear_arith)
                    requires w < 0xFFFF_FFFFu32, 0 <= w;
            }
        }
        self.value = v;
        v
    }
}

impl Default for Increment {
    /// The counter the connector starts with: seeded at 1.
    fn default() -> (r: Increment)
        ensures
            r.value == 1,
    {
        Increment { value: 1 }
    }
}

/// One session: a conversation id, the optional peer key it is fixed
/// to (present for listener-created sessions), and the shared core.
pub struct Session<W> {
    /// Conversation id on the wire.
    pub conv: u32,
    /// Peer key for listener-created sessions; the connector's socket
    /// is already connected, so its sessions carry none.
    pub target: Option<u64>,
    /// The engine, overflow buffer and suspended-task slots.
    pub kcore: KcpCore<W>,
    /// Identity for the registry's retirement tracking.
    pub id: Ghost<nat>,
}

impl<W> Session<W> {
    /// Internal consistency.
    pub open spec fn wf(self) -> bool {
        &&& self.kcore.wf()
        &&& self.kcore.kcp.conv == self.conv
    }

    /// A fresh session for conversation `conv`, configured as the
    /// transport prescribes: windows 512/521, no-delay mode with a
    /// 20 ms interval and fast resend after 2 duplicate acks, dead
    /// link after 10 resends.
    pub fn new(conv: u32, target: Option<u64>) -> (r: Session<W>)
        ensures
            r.wf(),
            r.conv == conv,
            r.target == target,
            r.id@ == 0,
            r.kcore.kcp.snd_wnd == 512 && r.kcore.kcp.rcv_wnd == 521,
            r.kcore.kcp.nodelay && r.kcore.kcp.interval == 20
                && r.kcore.kcp.fastresend == 2,
            r.kcore.kcp.dead_link_limit == 10,
            r.kcore.kcp.snd_queue@.len() == 0 && r.kcore.kcp.snd_buf@.len() == 0,
            r.kcore.kcp.rcv_queue@.len() == 0 && r.kcore.kcp.rcv_buf@.len() == 0,
            r.kcore.overflow@.len() == 0,
            r.kcore.read_waker is None && r.kcore.write_waker is None
                && r.kcore.close_waker is None,
            !r.kcore.kcp.dead && !r.kcore.kcp.closed,
            r.kcore.delivered@ == Seq::<u8>::empty(),
    {
        let mut kcp = Kcp::new(conv);
        kcp.set_wndsize(512, 521);
        kcp.set_nodelay(true, 20, 2);
        kcp.set_maximum_resend_times(10);
        Session { conv, target, kcore: KcpCore::new(kcp), id: Ghost(0nat) }
    }

    /// Feeds one inbound datagram to the session's engine.  On
    /// success the read-suspended task's handle is returned so the
    /// caller can resume it; the engine's acceptance condition is the
    /// one `Kcp::input` states.
    pub fn input(&mut self, data: &[u8]) -> (r: (Result<usize, KcpErr>, Option<W>))
        requires
            old(self).wf(),
        ensures
            final(self).wf(),
            final(self).conv == old(self).conv,
            final(self).target == old(self).target,
            final(self).id == old(self).id,
            data@.len() < KCP_OVERHEAD ==> (r.0 matches Err(_))
                && final(self).kcore.kcp == old(self).kcore.kcp,
            data@.len() >= KCP_OVERHEAD ==> ((r.0 matches Ok(_))
                <==> datagram_ok(data@, old(self).kcore.kcp.conv)),
            old(self).kcore.read_view().is_prefix_of(final(self).kcore.read_view()),
            old(self).kcore.total_stream().is_prefix_of(final(self).kcore.total_stream()),
            final(self).kcore.kcp.snd_queue == old(self).kcore.kcp.snd_queue,
            final(self).kcore.delivered == old(self).kcore.delivered,
            final(self).kcore.overflow == old(self).kcore.overflow,
            final(self).kcore.kcp.dead == old(self).kcore.kcp.dead,
            final(self).kcore.kcp.closed == old(self).kcore.kcp.closed,
            final(self).kcore.kcp == (Kcp {
                rmt_wnd: final(self).kcore.kcp.rmt_wnd,
                probe_ask: final(self).kcore.kcp.probe_ask,
                snd_una: final(self).kcore.kcp.snd_una,
                snd_buf: final(self).kcore.kcp.snd_buf,
                rcv_buf: final(self).kcore.kcp.rcv_buf,
                rcv_queue: final(self).kcore.kcp.rcv_queue,
                rcv_nxt: final(self).kcore.kcp.rcv_nxt,
                acklist: final(self).kcore.kcp.acklist,
                ..old(self).kcore.kcp
            }),
            forall|i: int| 0 <= i < final(self).kcore.kcp.rcv_queue@.len()
                ==> seg_stored(#[trigger] final(self).kcore.kcp.rcv_queue@[i],
                    old(self).kcore.kcp)
                    || seg_of_datagram(data@, final(self).kcore.kcp.rcv_queue@[i]),
            forall|i: int| 0 <= i < final(self).kcore.kcp.rcv_buf@.len()
                ==> seg_stored(#[trigger] final(self).kcore.kcp.rcv_buf@[i],
                    old(self).kcore.kcp)
                    || seg_of_datagram(data@, final(self).kcore.kcp.rcv_buf@[i]),
            r.1 == (if r.0 matches Ok(_) { old(self).kcore.read_waker } else { Option::<W>::None }),
            (r.0 matches Ok(_)) ==> final(self).kcore.read_waker is None,
            (r.0 matches Err(_)) ==> final(self).kcore.read_waker == old(self).kcore.read_waker,
            final(self).kcore.write_waker == old(self).kcore.write_waker,
            final(self).kcore.close_waker == old(self).kcore.close_waker,
    {
        let res = self.kcore.kcp.input(data);
        proof {
            lemma_concat_prefix(
                self.kcore.overflow@,
                old(self).kcore.kcp.rcv_stream(),
                self.kcore.kcp.rcv_stream(),
            );
            lemma_concat_prefix(
                self.kcore.delivered@,
                old(self).kcore.read_view(),
                self.kcore.read_view(),
            );
        }
        let wake = match res {
            Ok(_) => self.kcore.try_wake_read(),
            Err(_) => None,
        };
        (res, wake)
    }

    /// Marks the session's engine closed; idempotent.
    pub fn close(&mut self)
        ensures
            *final(self) == (Session {
                kcore: (KcpCore {
                    kcp: (Kcp { closed: true, ..old(self).kcore.kcp }),
                    ..old(self).kcore
                }),
                ..*old(self)
            }),
    {
        self.kcore.kcp.close();
    }

    /// Wraps this session as the server-side stream handed out by
    /// `accept`.
    pub fn new_server(self) -> (r: KcpStream<W>)
        ensures
            r.conv == self.conv,
            r.kcore == self.kcore,
    {
        KcpStream::new_server(self.conv, self.kcore)
    }

    /// Wraps this session as the client-side stream returned by
    /// `connect`.
    pub fn new_client(self) -> (r: KcpStream<W>)
        ensures
            r.conv == self.conv,
            r.kcore == self.kcore,
    {
        KcpStream::new_client(self.conv, self.kcore)
    }
}

/// A reliable byte stream over one session.  The embedder shares the
/// core with the registry and the update driver; the drop-time close
/// callback and the driver task live with the embedder.
pub struct KcpStream<W> {
    /// Conversation id of the underlying session.
    pub conv: u32,
    /// The session core the stream polls.
    pub kcore: KcpCore<W>,
}

impl<W> KcpStream<W> {
    /// A server-side stream over `core`.
    pub fn new_server(conv: u32, core: KcpCore<W>) -> (r: KcpStream<W>)
        ensures
            r.conv == conv,
            r.kcore == core,
    {
        KcpStream { conv, kcore: core }
    }

    /// A client-side stream over `core`.
    pub fn new_client(conv: u32, core: KcpCore<W>) -> (r: KcpStream<W>)
        ensures
            r.conv == conv,
            r.kcore == core,
    {
        KcpStream { conv, kcore: core }
    }
}

/// What the listener decided about one inbound datagram.
pub enum Dispatch {
    /// Shorter than a header: dropped without any state change.
    TooShort,
    /// First datagram of an unknown pair: a session was created and
    /// accepted it; yield it as a new stream.
    Opened(u32),
    /// An existing session accepted the datagram.
    Accepted(u32),
    /// The engine rejected the datagram: the session (new or old) was
    /// torn down.
    Rejected(u32),
}

/// The listener-side demultiplexer: sessions keyed by peer key and
/// conversation id, plus the queue of pending finish-closes.
pub struct KcpListener<W> {
    /// Sessions keyed by `pair_key(peer_key, conv)`.
    pub manager: HashMap<u128, Session<W>>,
    /// Pending finish-close requests, enqueued from stream drops.
    pub close_queue: Vec<(u64, u32)>,
    /// Next session identity to hand out.
    pub next_id: Ghost<nat>,
    /// Identities of all sessions ever removed.
    pub retired: Ghost<Set<nat>>,
}

impl<W> KcpListener<W> {
    /// The session stored under this peer/conversation pair.
    pub open spec fn session_at(self, pk: u64, conv: u32) -> Session<W> {
        self.manager@[pair_key(pk, conv)]
    }

    /// Whether the registry holds this peer/conversation pair.
    pub open spec fn has_session(self, pk: u64, conv: u32) -> bool {
        self.manager@.contains_key(pair_key(pk, conv))
    }

    /// Internal consistency: every live session is well formed, keyed
    /// by its own conversation id, and its identity is fresh —
    /// strictly below the next identity and not retired.
    pub open spec fn wf(self) -> bool {
        &&& (forall|k: u128| #[trigger] self.manager@.contains_key(k) ==> {
            let s = self.manager@[k];
            &&& s.wf()
            &&& s.conv == k % 0x1_0000_0000
            &&& s.id@ < self.next_id@
            &&& !self.retired@.contains(s.id@)
        })
        &&& (forall|id: nat| #[trigger] self.retired@.contains(id) ==> id < self.next_id@)
        &&& (forall|k1: u128, k2: u128| #[trigger] self.manager@.contains_key(k1)
            && #[trigger] self.manager@.contains_key(k2) && k1 != k2
            ==> self.manager@[k1].id@ != self.manager@[k2].id@)
    }

    /// A fresh listener with an empty registry.
    pub fn bind() -> (r: KcpListener<W>)
        ensures
            r.wf(),
            r.manager@ == Map::<u128, Session<W>>::empty(),
            r.close_queue@.len() == 0,
            r.retired@ == Set::<nat>::empty(),
    {
        KcpListener {
            manager: HashMap::new(),
            close_queue: Vec::new(),
            next_id: Ghost(0nat),
            retired: Ghost(Set::empty()),
        }
    }

    /// Routes one inbound datagram from peer `peer_key`.
    ///
    /// Too-short datagrams are dropped without any state change.
    /// Otherwise the conversation id is read from the header, a
    /// session is created on first sight, and the datagram goes to
    /// the session's engine; a rejected datagram tears the session
    /// down.  A newly created session's identity is fresh: it has
    /// never been retired, so a session removed earlier is never
    /// re-inserted.  The returned handle, if any, is the session's
    /// read-suspended task.
    pub fn dispatch(&mut self, peer_key: u64, data: &[u8]) -> (r: (Dispatch, Option<W>))
        requires
            old(self).wf(),
        ensures
            final(self).wf(),
            final(self).close_queue == old(self).close_queue,
            data@.len() < KCP_OVERHEAD <==> r.0 matches Dispatch::TooShort,
            match r.0 {
                Dispatch::TooShort => *final(self) == *old(self),
                Dispatch::Opened(c) => {
                    &&& c == conv_of(data@)
                    &&& !old(self).has_session(peer_key, c)
                    &&& final(self).has_session(peer_key, c)
                    &&& final(self).manager@ == old(self).manager@.insert(
                        pair_key(peer_key, c),
                        final(self).session_at(peer_key, c),
                    )
                    &&& final(self).session_at(peer_key, c).id@ == old(self).next_id@
                    &&& !old(self).retired@.contains(old(self).next_id@)
                    &&& final(self).next_id@ == old(self).next_id@ + 1
                    &&& datagram_ok(data@, c)
                    &&& final(self).session_at(peer_key, c).conv == c
                    &&& final(self).session_at(peer_key, c).target == Some(peer_key)
                    &&& final(self).session_at(peer_key, c).kcore.kcp.snd_queue@.len() == 0
                    &&& final(self).session_at(peer_key, c).kcore.delivered@
                        == Seq::<u8>::empty()
                    &&& final(self).session_at(peer_key, c).kcore.overflow@.len() == 0
                    &&& final(self).session_at(peer_key, c).kcore.kcp.snd_wnd == 512
                    &&& final(self).session_at(peer_key, c).kcore.kcp.rcv_wnd == 521
                    &&& final(self).session_at(peer_key, c).kcore.kcp.nodelay
                    &&& final(self).session_at(peer_key, c).kcore.kcp.interval == 20
                    &&& final(self).session_at(peer_key, c).kcore.kcp.fastresend == 2
                    &&& final(self).session_at(peer_key, c).kcore.kcp.dead_link_limit == 10
                    &&& !final(self).session_at(peer_key, c).kcore.kcp.dead
                    &&& !final(self).session_at(peer_key, c).kcore.kcp.closed
                    &&& (forall|i: int| 0 <= i
                        < final(self).session_at(peer_key, c).kcore.kcp.rcv_queue@.len()
                        ==> seg_of_datagram(data@, #[trigger] final(self).session_at(
                            peer_key, c).kcore.kcp.rcv_queue@[i]))
                },
                Dispatch::Accepted(c) => {
                    &&& c == conv_of(data@)
                    &&& old(self).has_session(peer_key, c)
                    &&& final(self).has_session(peer_key, c)
                    &&& final(self).manager@ == old(self).manager@.insert(
                        pair_key(peer_key, c),
                        final(self).session_at(peer_key, c),
                    )
                    &&& final(self).session_at(peer_key, c).id@
                        == old(self).session_at(peer_key, c).id@
                    &&& final(self).session_at(peer_key, c).conv
                        == old(self).session_at(peer_key, c).conv
                    &&& final(self).session_at(peer_key, c).target
                        == old(self).session_at(peer_key, c).target
                    &&& old(self).session_at(peer_key, c).kcore.read_view().is_prefix_of(
                        final(self).session_at(peer_key, c).kcore.read_view(),
                    )
                    &&& final(self).session_at(peer_key, c).kcore.delivered
                        == old(self).session_at(peer_key, c).kcore.delivered
                    &&& final(self).session_at(peer_key, c).kcore.kcp.snd_queue
                        == old(self).session_at(peer_key, c).kcore.kcp.snd_queue
                    &&& (forall|i: int| 0 <= i
                        < final(self).session_at(peer_key, c).kcore.kcp.rcv_queue@.len()
                        ==> seg_stored(#[trigger] final(self).session_at(
                                peer_key, c).kcore.kcp.rcv_queue@[i],
                            old(self).session_at(peer_key, c).kcore.kcp)
                            || seg_of_datagram(data@, final(self).session_at(
                                peer_key, c).kcore.kcp.rcv_queue@[i]))
                    &&& datagram_ok(data@, c)
                },
                Dispatch::Rejected(c) => {
                    &&& c == conv_of(data@)
                    &&& !final(self).has_session(peer_key, c)
                    &&& final(self).manager@
                        == old(self).manager@.remove(pair_key(peer_key, c))
                    &&& !datagram_ok(data@, c)
                },
            },
    {
        let total = data.len();
        if total < KCP_OVERHEAD {
            return (Dispatch::TooShort, None);
        }
        let conv = crate::codec::get_conv(data);
        let key = key_of(peer_key, conv);
        let (mut session, is_new) = match self.manager.remove(&key) {
            Some(s) => (s, false),
            None => {
                let mut s = Session::new(conv, Some(peer_key));
                s.id = Ghost(self.next_id@);
                (s, true)
            },
        };
        proof {
            if !is_new {
                assert(old(self).manager@.contains_key(key));
                assert(session.conv == key % 0x1_0000_0000);
                lemma_pair_key_mod(peer_key, conv);
            }
        }
        let (res, wake) = session.input(data);
        match res {
            Ok(_) => {
                if is_new {
                    self.next_id = Ghost(self.next_id@ + 1);
                }
                self.manager.insert(key, session);
                proof {
                    lemma_pair_key_mod(peer_key, conv);
                    assert(self.manager@
                        =~= old(self).manager@.insert(pair_key(peer_key, conv), session));
                }
                if is_new {
                    (Dispatch::Opened(conv), wake)
                } else {
                    (Dispatch::Accepted(conv), wake)
                }
            },
            Err(_) => {
                // tear the session down; its engine is closed best-effort
                session.close();
                proof {
                    if !is_new {
                        self.retired@ = self.retired@.insert(session.id@);
                    }
                }
                (Dispatch::Rejected(conv), wake)
            },
        }
    }

    /// Remembers that the stream for `(peer_key, conv)` was dropped;
    /// the actual removal happens when the close queue is drained.
    pub fn enqueue_close(&mut self, peer_key: u64, conv: u32)
        requires
            old(self).wf(),
        ensures
            final(self).wf(),
            *final(self) == (KcpListener { close_queue: final(self).close_queue, ..*old(self) }),
            final(self).close_queue@ == old(self).close_queue@.push((peer_key, conv)),
    {
        self.close_queue.push((peer_key, conv));
    }

    /// Removes the session for `(peer_key, conv)` from the registry,
    /// closes its engine, and retires its identity: it will never be
    /// found in the registry again.  Reports `Lock` when the pair is
    /// no longer present.
    pub fn finish_close(&mut self, peer_key: u64, conv: u32) -> (r: Result<(), KcpErr>)
        requires
            old(self).wf(),
        ensures
            final(self).wf(),
            !final(self).has_session(peer_key, conv),
            (r matches Ok(_)) <==> old(self).has_session(peer_key, conv),
            r matches Ok(_) ==> final(self).manager@
                == old(self).manager@.remove(pair_key(peer_key, conv))
                && final(self).retired@ == old(self).retired@
                    .insert(old(self).session_at(peer_key, conv).id@),
            r matches Err(e) ==> e == KcpErr::Lock
                && final(self).manager@ == old(self).manager@
                && final(self).retired@ == old(self).retired@,
            final(self).close_queue == old(self).close_queue,
            final(self).next_id == old(self).next_id,
    {
        let key = key_of(peer_key, conv);
        match self.manager.remove(&key) {
            Some(mut s) => {
                s.close();
                proof {
                    self.retired@ = self.retired@.insert(s.id@);
                }
                Ok(())
            },
            None => Err(KcpErr::Lock),
        }
    }

    /// Drains the close queue: every enqueued pair is removed from
    /// the registry (absent ones are skipped), the queue is left
    /// empty, and nothing else changes — a session no queue entry
    /// names survives with its state intact.
    pub fn drain_closes(&mut self)
        requires
            old(self).wf(),
        ensures
            final(self).wf(),
            final(self).close_queue@.len() == 0,
            forall|i: int| 0 <= i < old(self).close_queue@.len()
                ==> !final(self).has_session(
                    (#[trigger] old(self).close_queue@[i]).0,
                    old(self).close_queue@[i].1,
                ),
            forall|k: u128| final(self).manager@.contains_key(k)
                ==> old(self).manager@.contains_key(k)
                    && #[trigger] final(self).manager@[k] == old(self).manager@[k],
            forall|k: u128| old(self).manager@.contains_key(k)
                && (forall|j: int| 0 <= j < old(self).close_queue@.len()
                    ==> pair_key(
                        (#[trigger] old(self).close_queue@[j]).0,
                        old(self).close_queue@[j].1,
                    ) != k)
                ==> #[trigger] final(self).manager@.contains_key(k),
            final(self).next_id == old(self).next_id,
    {
        let mut entries: Vec<(u64, u32)> = Vec::new();
        core::mem::swap(&mut entries, &mut self.close_queue);
        let ghost all = entries@;
        let mut i: usize = 0;
        while i < entries.len()
            invariant
                self.wf(),
                i <= all.len(),
                entries@ == all,
                self.close_queue@.len() == 0,
                forall|j: int| 0 <= j < i
                    ==> !self.has_session((#[trigger] all[j]).0, all[j].1),
                forall|k: u128| self.manager@.contains_key(k)
                    ==> old(self).manager@.contains_key(k)
                        && #[trigger] self.manager@[k] == old(self).manager@[k],
                forall|k: u128| old(self).manager@.contains_key(k)
                    && (forall|j: int| 0 <= j < all.len()
                        ==> pair_key((#[trigger] all[j]).0, all[j].1) != k)
                    ==> #[trigger] self.manager@.contains_key(k),
                self.next_id == old(self).next_id,
            decreases all.len() - i,
        {
            let (pk, c) = entries[i];
            let ghost pre = *self;
            let _ = self.finish_close(pk, c);
            proof {
                assert(self.manager@ == pre.manager@
                    || self.manager@ == pre.manager@.remove(pair_key(pk, c)));
                assert forall|j: int| 0 <= j < i + 1
                    implies !self.has_session((#[trigger] all[j]).0, all[j].1) by {
                    if j < i {
                        assert(!pre.has_session(all[j].0, all[j].1));
                    }
                }
                assert forall|k: u128| old(self).manager@.contains_key(k)
                    && (forall|j: int| 0 <= j < all.len()
                        ==> pair_key((#[trigger] all[j]).0, all[j].1) != k)
                    implies #[trigger] self.manager@.contains_key(k) by {
                    assert(pair_key((all[i as int]).0, all[i as int].1) != k);
                    assert(pre.manager@.contains_key(k));
                }
            }
            i = i + 1;
        }
    }
}

/// What the connector decided about one inbound datagram.
pub enum ConnDispatch {
    /// Shorter than a header: dropped without any state change.
    TooShort,
    /// No session is registered under the datagram's conversation id.
    NoSession,
    /// The session accepted the datagram.
    Accepted(u32),
    /// The engine rejected the datagram: the session was removed and
    /// closed.
    Rejected(u32),
}

/// The connector-side registry: sessions keyed by conversation id,
/// with a wrapping allocator for new ids.
pub struct KcpConnector<W> {
    /// Live sessions by conversation id.
    pub sessions: HashMap<u32, Session<W>>,
    /// The conversation-id counter.
    pub increment: Increment,
    /// Pending finish-close requests, enqueued from stream drops.
    pub close_queue: Vec<u32>,
    /// Next session identity to hand out.
    pub next_id: Ghost<nat>,
    /// Identities of all sessions ever removed.
    pub retired: Ghost<Set<nat>>,
}

impl<W> KcpConnector<W> {
    /// Internal consistency: live sessions are well formed, keyed by
    /// their own conversation id, with fresh identities.
    pub open spec fn wf(self) -> bool {
        &&& (forall|c: u32| #[trigger] self.sessions@.contains_key(c) ==> {
            let s = self.sessions@[c];
            &&& s.wf()
            &&& s.conv == c
            &&& s.id@ < self.next_id@
            &&& !self.retired@.contains(s.id@)
        })
        &&& (forall|id: nat| #[trigger] self.retired@.contains(id) ==> id < self.next_id@)
        &&& (forall|c1: u32, c2: u32| #[trigger] self.sessions@.contains_key(c1)
            && #[trigger] self.sessions@.contains_key(c2) && c1 != c2
            ==> self.sessions@[c1].id@ != self.sessions@[c2].id@)
    }

    /// A fresh connector with an empty registry and the counter at 1.
    pub fn new() -> (r: KcpConnector<W>)
        ensures
            r.wf(),
            r.sessions@ == Map::<u32, Session<W>>::empty(),
            r.increment.value == 1,
            r.close_queue@.len() == 0,
            r.retired@ == Set::<nat>::empty(),
    {
        KcpConnector {
            sessions: HashMap::new(),
            increment: Increment::default(),
            close_queue: Vec::new(),
            next_id: Ghost(0nat),
            retired: Ghost(Set::empty()),
        }
    }

    /// Opens a new session: sweeps the counter for a conversation id
    /// not currently registered, creates a session under it and
    /// registers it.
    ///
    /// The returned id is never one already present; only when every
    /// one of the `2^32` ids is in use does the sweep fail with
    /// `NoMoreConv`.
    pub fn connect(&mut self) -> (r: Result<u32, KcpErr>)
        requires
            old(self).wf(),
        ensures
            final(self).wf(),
            match r {
                Ok(conv) => {
                    &&& !old(self).sessions@.contains_key(conv)
                    &&& final(self).sessions@
                        == old(self).sessions@.insert(conv, final(self).sessions@[conv])
                    &&& final(self).sessions@.contains_key(conv)
                    &&& final(self).sessions@[conv].conv == conv
                    &&& final(self).sessions@[conv].id@ == old(self).next_id@
                    &&& !old(self).retired@.contains(old(self).next_id@)
                    &&& final(self).next_id@ == old(self).next_id@ + 1
                    &&& final(self).sessions@[conv].target is None
                    &&& final(self).sessions@[conv].kcore.kcp.snd_queue@.len() == 0
                    &&& final(self).sessions@[conv].kcore.kcp.snd_buf@.len() == 0
                    &&& final(self).sessions@[conv].kcore.kcp.rcv_queue@.len() == 0
                    &&& final(self).sessions@[conv].kcore.delivered@ == Seq::<u8>::empty()
                    &&& final(self).sessions@[conv].kcore.overflow@.len() == 0
                    &&& final(self).sessions@[conv].kcore.kcp.snd_wnd == 512
                    &&& final(self).sessions@[conv].kcore.kcp.rcv_wnd == 521
                    &&& final(self).sessions@[conv].kcore.kcp.nodelay
                    &&& final(self).sessions@[conv].kcore.kcp.interval == 20
                    &&& final(self).sessions@[conv].kcore.kcp.fastresend == 2
                    &&& final(self).sessions@[conv].kcore.kcp.dead_link_limit == 10
                    &&& !final(self).sessions@[conv].kcore.kcp.dead
                    &&& !final(self).sessions@[conv].kcore.kcp.closed
                },
                Err(e) => {
                    &&& e == KcpErr::NoMoreConv
                    &&& (forall|c: u32| old(self).sessions@.contains_key(c))
                    &&& final(self).sessions@ == old(self).sessions@
                },
            },
            final(self).close_queue == old(self).close_queue,
            final(self).retired == old(self).retired,
    {
        let start = self.increment.current();
        let mut cand = start;
        let mut steps: u64 = 0;
        let mut found = false;
        while steps < 0x1_0000_0000u64 && !found
            invariant
                old(self).wf(),
                *self == (KcpConnector { increment: self.increment, ..*old(self) }),
                steps <= 0x1_0000_0000u64,
                cand == wrap_add(start, steps as int),
                self.increment.value == cand,
                !found ==> forall|j: int| 0 <= j < steps
                    ==> old(self).sessions@.contains_key(wrap_add(start, j)),
                found ==> !old(self).sessions@.contains_key(cand),
            decreases 0x1_0000_0000u64 - steps, (if found { 0int } else { 1int }),
        {
            if !self.sessions.contains_key(&cand) {
                found = true;
            } else {
                cand = self.increment.next();
                proof {
                    vstd::arithmetic::div_mod::lemma_add_mod_noop(
                        start + steps,
                        1,
                        0x1_0000_0000,
                    );
                    vstd::arithmetic::div_mod::lemma_small_mod(1nat, 0x1_0000_0000nat);
                    vstd::arithmetic::div_mod::lemma_mod_bound(
                        start + steps,
                        0x1_0000_0000,
                    );
                    vstd::arithmetic::div_mod::lemma_small_mod(
                        ((start + steps) % 0x1_0000_0000) as nat,
                        0x1_0000_0000nat,
                    );
                    assert(wrap_add(wrap_add(start, steps as int), 1)
                        == wrap_add(start, steps + 1));
                }
                steps = steps + 1;
            }
        }
        if !found {
            proof {
                assert forall|c: u32| old(self).sessions@.contains_key(c) by {
                    let j: int = if c >= start {
                        c - start
                    } else {
                        c + 0x1_0000_0000 - start
                    };
                    assert(0 <= j < 0x1_0000_0000);
                    assert(wrap_add(start, j) == c) by (nonlinear_arith)
                        requires
                            j == (if c >= start { c - start } else { c + 0x1_0000_0000 - start }),
                            c < 0x1_0000_0000,
                            start < 0x1_0000_0000,
                            0 <= j < 0x1_0000_0000,
                    ;
                    assert(old(self).sessions@.contains_key(wrap_add(start, j)));
                }
            }
            return Err(KcpErr::NoMoreConv);
        }
        let conv = cand;
        let mut s = Session::new(conv, None);
        s.id = Ghost(self.next_id@);
        self.next_id = Ghost(self.next_id@ + 1);
        self.sessions.insert(conv, s);
        Ok(conv)
    }

    /// Routes one inbound datagram on the connected socket.  A
    /// datagram whose engine rejects it removes and closes its
    /// session; one for an unknown conversation id is dropped.  The
    /// returned handle, if any, is the session's read-suspended task.
    pub fn dispatch(&mut self, data: &[u8]) -> (r: (ConnDispatch, Option<W>))
        requires
            old(self).wf(),
        ensures
            final(self).wf(),
            final(self).close_queue == old(self).close_queue,
            data@.len() < KCP_OVERHEAD <==> r.0 matches ConnDispatch::TooShort,
            match r.0 {
                ConnDispatch::TooShort => *final(self) == *old(self),
                ConnDispatch::NoSession => {
                    &&& final(self).sessions@ == old(self).sessions@
                    &&& final(self).retired == old(self).retired
                    &&& final(self).next_id == old(self).next_id
                    &&& final(self).increment == old(self).increment
                    &&& !old(self).sessions@.contains_key(conv_of(data@))
                },
                ConnDispatch::Accepted(c) => {
                    &&& c == conv_of(data@)
                    &&& old(self).sessions@.contains_key(c)
                    &&& final(self).sessions@.contains_key(c)
                    &&& final(self).sessions@
                        == old(self).sessions@.insert(c, final(self).sessions@[c])
                    &&& final(self).sessions@[c].id@ == old(self).sessions@[c].id@
                    &&& final(self).sessions@[c].conv == old(self).sessions@[c].conv
                    &&& final(self).sessions@[c].target == old(self).sessions@[c].target
                    &&& old(self).sessions@[c].kcore.read_view().is_prefix_of(
                        final(self).sessions@[c].kcore.read_view(),
                    )
                    &&& final(self).sessions@[c].kcore.delivered
                        == old(self).sessions@[c].kcore.delivered
                    &&& final(self).sessions@[c].kcore.kcp.snd_queue
                        == old(self).sessions@[c].kcore.kcp.snd_queue
                    &&& (forall|i: int| 0 <= i
                        < final(self).sessions@[c].kcore.kcp.rcv_queue@.len()
                        ==> seg_stored(
                            #[trigger] final(self).sessions@[c].kcore.kcp.rcv_queue@[i],
                            old(self).sessions@[c].kcore.kcp)
                            || seg_of_datagram(data@,
                                final(self).sessions@[c].kcore.kcp.rcv_queue@[i]))
                    &&& datagram_ok(data@, c)
                },
                ConnDispatch::Rejected(c) => {
                    &&& c == conv_of(data@)
                    &&& old(self).sessions@.contains_key(c)
                    &&& !final(self).sessions@.contains_key(c)
                    &&& final(self).sessions@ == old(self).sessions@.remove(c)
                    &&& final(self).retired@ == old(self).retired@
                        .insert(old(self).sessions@[c].id@)
                    &&& !datagram_ok(data@, c)
                },
            },
    {
        let total = data.len();
        if total < KCP_OVERHEAD {
            return (ConnDispatch::TooShort, None);
        }
        let conv = crate::codec::get_conv(data);
        let mut session = match self.sessions.remove(&conv) {
            Some(s) => s,
            None => {
                proof {
                    assert(self.sessions@ =~= old(self).sessions@);
                }
                return (ConnDispatch::NoSession, None);
            },
        };
        let (res, wake) = session.input(data);
        match res {
            Ok(_) => {
                self.sessions.insert(conv, session);
                proof {
                    assert(self.sessions@ =~= old(self).sessions@.insert(conv, session));
                }
                (ConnDispatch::Accepted(conv), wake)
            },
            Err(_) => {
                session.close();
                proof {
                    self.retired@ = self.retired@.insert(session.id@);
                }
                (ConnDispatch::Rejected(conv), wake)
            },
        }
    }

    /// Remembers that the stream for `conv` was dropped; the removal
    /// happens when the close queue is drained.
    pub fn enqueue_close(&mut self, conv: u32)
        requires
            old(self).wf(),
        ensures
            final(self).wf(),
            *final(self) == (KcpConnector { close_queue: final(self).close_queue, ..*old(self) }),
            final(self).close_queue@ == old(self).close_queue@.push(conv),
    {
        self.close_queue.push(conv);
    }

    /// Drains the close queue: every enqueued conversation id is
    /// removed from the registry (absent ones are skipped), its
    /// session closed and its identity retired.  Nothing else
    /// changes: a session no queue entry names survives with its
    /// state intact.
    pub fn drain_closes(&mut self)
        requires
            old(self).wf(),
        ensures
            final(self).wf(),
            final(self).close_queue@.len() == 0,
            forall|i: int| 0 <= i < old(self).close_queue@.len()
                ==> !final(self).sessions@.contains_key(
                    #[trigger] old(self).close_queue@[i],
                ),
            forall|c: u32| final(self).sessions@.contains_key(c)
                ==> old(self).sessions@.contains_key(c)
                    && #[trigger] final(self).sessions@[c] == old(self).sessions@[c],
            forall|c: u32| old(self).sessions@.contains_key(c)
                && !old(self).close_queue@.contains(c)
                ==> #[trigger] final(self).sessions@.contains_key(c),
            final(self).next_id == old(self).next_id,
    {
        let mut entries: Vec<u32> = Vec::new();
        core::mem::swap(&mut entries, &mut self.close_queue);
        let ghost all = entries@;
        let mut i: usize = 0;
        while i < entries.len()
            invariant
                self.wf(),
                i <= all.len(),
                entries@ == all,
                self.close_queue@.len() == 0,
                forall|j: int| 0 <= j < i
                    ==> !self.sessions@.contains_key(#[trigger] all[j]),
                forall|c: u32| self.sessions@.contains_key(c)
                    ==> old(self).sessions@.contains_key(c)
                        && #[trigger] self.sessions@[c] == old(self).sessions@[c],
                forall|c: u32| old(self).sessions@.contains_key(c) && !all.contains(c)
                    ==> #[trigger] self.sessions@.contains_key(c),
                self.next_id == old(self).next_id,
            decreases all.len() - i,
        {
            let c = entries[i];
            let ghost pre = *self;
            match self.sessions.remove(&c) {
                Some(mut s) => {
                    s.close();
                    proof {
                        self.retired@ = self.retired@.insert(s.id@);
                    }
                },
                None => {},
            }
            proof {
                assert(self.sessions@ == pre.sessions@.remove(c)
                    || self.sessions@ == pre.sessions@);
                assert forall|j: int| 0 <= j < i + 1
                    implies !self.sessions@.contains_key(#[trigger] all[j]) by {
                    if j < i {
                        assert(!pre.sessions@.contains_key(all[j]));
                    }
                }
                assert forall|c2: u32| old(self).sessions@.contains_key(c2)
                    && !all.contains(c2)
                    implies #[trigger] self.sessions@.contains_key(c2) by {
                    assert(all[i as int] == c);
                    assert(c2 != c);
                    assert(pre.sessions@.contains_key(c2));
                }
            }
            i = i + 1;
        }
    }
}

/// The combined registry key for a peer/conversation pair.
fn key_of(peer_key: u64, conv: u32) -> (r: u128)
    ensures
        r == pair_key(peer_key, conv),
{
    (peer_key as u128) * 0x1_0000_0000u128 + (conv as u128)
}

/// A combined key reduces to its conversation id modulo `2^32`.
proof fn lemma_pair_key_mod(pk: u64, c: u32)
    ensures
        pair_key(pk, c) % 0x1_0000_0000 == c,
{
    assert((pk * 0x1_0000_0000 + c) % 0x1_0000_0000 == c) by (nonlinear_arith)
        requires c < 0x1_0000_0000;
}

} // verus!
