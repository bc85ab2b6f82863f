//! The per-session byte-stream core: one engine, a small overflow
//! buffer for partially delivered messages, and one suspended-task
//! slot each for read, write and close.
//!
//! The session is generic over `W`, the handle of a suspended task.
//! Storing a handle replaces (and drops) any older one, so at most
//! one task is suspended per slot; "waking" hands the stored handle
//! back to the caller, who actually resumes it.

use vstd::prelude::*;
use crate::KcpErr;
use crate::engine::{Kcp, lemma_prefix_refl};

verus! {

/// Outcome of a polled operation: ready with a result, or suspended.
pub enum Poll<T> {
    Ready(T),
    Pending,
}

/// One session's shared state: the engine, the overflow buffer, and
/// the three suspended-task slots.
pub struct KcpCore<W> {
    /// The ARQ engine.
    pub kcp: Kcp,
    /// Bytes of a message already taken out of the engine but not yet
    /// handed to the user (the user's buffer was too small).
    pub overflow: Vec<u8>,
    /// Task suspended waiting for readable bytes.
    pub read_waker: Option<W>,
    /// Task suspended waiting to write.
    pub write_waker: Option<W>,
    /// Task suspended waiting for the send queues to drain on close.
    pub close_waker: Option<W>,
    /// All bytes ever delivered to the user by `poll_read`.
    pub delivered: Ghost<Seq<u8>>,
}

/// What one maintenance tick decided: datagrams for the wire, the
/// suspended tasks to resume, and whether the link died.
pub struct UpdateOutcome<W> {
    /// Datagrams the engine owes the wire.
    pub datagrams: Vec<Vec<u8>>,
    /// Read-suspended task to resume, if its bytes arrived.
    pub wake_read: Option<W>,
    /// Write-suspended task to resume, if data is in flight.
    pub wake_write: Option<W>,
    /// Close-suspended task to resume, if the send queues drained or
    /// the link died.
    pub wake_close: Option<W>,
    /// The engine declared the link dead; the driver must stop.
    pub dead: bool,
}

impl<W> KcpCore<W> {
    /// Internal consistency.
    pub open spec fn wf(self) -> bool {
        self.kcp.wf()
    }

    /// Bytes available to the user, oldest first: the overflow buffer
    /// followed by the engine's undelivered in-order stream.
    pub open spec fn read_view(self) -> Seq<u8> {
        self.overflow@ + self.kcp.rcv_stream()
    }

    /// Everything that ever entered this session's in-order stream:
    /// what was delivered followed by what still waits.
    pub open spec fn total_stream(self) -> Seq<u8> {
        self.delivered@ + self.read_view()
    }

    /// A fresh core around engine `kcp`.
    pub fn new(kcp: Kcp) -> (r: KcpCore<W>)
        requires
            kcp.wf(),
        ensures
            r.wf(),
            r.kcp == kcp,
            r.overflow@.len() == 0,
            r.read_waker is None && r.write_waker is None && r.close_waker is None,
            r.delivered@ == Seq::<u8>::empty(),
    {
        KcpCore {
            kcp,
            overflow: Vec::new(),
            read_waker: None,
            write_waker: None,
            close_waker: None,
            delivered: Ghost(Seq::empty()),
        }
    }

    /// Takes the read-suspended task's handle, leaving the slot empty.
    pub fn try_wake_read(&mut self) -> (r: Option<W>)
        ensures
            r == old(self).read_waker,
            *final(self) == (KcpCore { read_waker: None, ..*old(self) }),
    {
        self.read_waker.take()
    }

    /// Takes the write-suspended task's handle, leaving the slot empty.
    pub fn try_wake_write(&mut self) -> (r: Option<W>)
        ensures
            r == old(self).write_waker,
            *final(self) == (KcpCore { write_waker: None, ..*old(self) }),
    {
        self.write_waker.take()
    }

    /// Takes the close-suspended task's handle, leaving the slot empty.
    pub fn try_wake_close(&mut self) -> (r: Option<W>)
        ensures
            r == old(self).close_waker,
            *final(self) == (KcpCore { close_waker: None, ..*old(self) }),
    {
        self.close_waker.take()
    }

    /// Stores `w` as the read-suspended task, dropping any older one.
    pub fn set_read_waker(&mut self, w: W)
        ensures
            *final(self) == (KcpCore { read_waker: Some(w), ..*old(self) }),
    {
        self.read_waker = Some(w);
    }

    /// Stores `w` as the write-suspended task, dropping any older one.
    pub fn set_write_waker(&mut self, w: W)
        ensures
            *final(self) == (KcpCore { write_waker: Some(w), ..*old(self) }),
    {
        self.write_waker = Some(w);
    }

    /// Reads up to `buf_len` bytes.
    ///
    /// Ready exactly when buffered or in-order bytes exist: the
    /// result is then the front of the session's undelivered stream,
    /// of length `min(buf_len, what is available contiguously)`; a
    /// message larger than `buf_len` is truncated to `buf_len` and
    /// the rest is kept for the next read.  Otherwise the caller is
    /// registered as the (single) read-suspended task.
    pub fn poll_read(&mut self, buf_len: usize, waker: W) -> (r: Poll<Result<Vec<u8>, KcpErr>>)
        requires
            old(self).wf(),
        ensures
            final(self).wf(),
            (r matches Poll::Pending) <==> (old(self).overflow@.len() == 0
                && !(old(self).kcp.peek_spec() matches Ok(_))),
            match r {
                Poll::Pending => *final(self) == (KcpCore {
                    read_waker: Some(waker),
                    ..*old(self)
                }),
                Poll::Ready(res) => {
                    &&& res matches Ok(m)
                    &&& (res matches Ok(m) ==> {
                        &&& m@.len() == if old(self).overflow@.len() > 0 {
                            if buf_len <= old(self).overflow@.len() {
                                buf_len as int
                            } else {
                                old(self).overflow@.len() as int
                            }
                        } else {
                            let sz = old(self).kcp.peek_spec()->Ok_0;
                            if buf_len <= sz { buf_len as int } else { sz }
                        }
                        &&& m@ == old(self).read_view().take(m@.len() as int)
                        &&& old(self).read_view().skip(m@.len() as int)
                            .is_prefix_of(final(self).read_view())
                        &&& final(self).delivered@ == old(self).delivered@ + m@
                        &&& final(self).read_waker == old(self).read_waker
                        &&& final(self).write_waker == old(self).write_waker
                        &&& final(self).close_waker == old(self).close_waker
                        &&& final(self).kcp.pending_bytes() == old(self).kcp.pending_bytes()
                        &&& final(self).kcp.closed == old(self).kcp.closed
                        &&& final(self).kcp.dead == old(self).kcp.dead
                        &&& final(self).overflow@ == (if old(self).overflow@.len() > 0 {
                            old(self).overflow@.skip(m@.len() as int)
                        } else {
                            crate::engine::msg_bytes(old(self).kcp.rcv_queue@)
                                .skip(m@.len() as int)
                        })
                    })
                },
            },
            old(self).total_stream().is_prefix_of(final(self).total_stream()),
            old(self).overflow@.len() > 0 ==> final(self).kcp == old(self).kcp,
    {
        let ghost pre = *self;
        if self.overflow.len() > 0 {
            let n = if buf_len <= self.overflow.len() { buf_len } else { self.overflow.len() };
            let mut rest = self.overflow.split_off(n);
            core::mem::swap(&mut rest, &mut self.overflow);
            let m = rest;
            proof {
                self.delivered@ = pre.delivered@ + m@;
                assert(self.overflow@ =~= pre.overflow@.skip(n as int));
                assert(m@ =~= pre.read_view().take(n as int));
                assert(self.read_view() =~= pre.read_view().skip(n as int));
                lemma_prefix_refl(self.read_view());
                assert(pre.total_stream() =~= self.total_stream());
                lemma_prefix_refl(self.total_stream());
            }
            return Poll::Ready(Ok(m));
        }
        let size = match self.kcp.peeksize() {
            Err(_) => {
                self.read_waker = Some(waker);
                proof {
                    assert(pre.total_stream() =~= self.total_stream());
                    lemma_prefix_refl(self.total_stream());
                }
                return Poll::Pending;
            },
            Ok(size) => size,
        };
        let m = match self.kcp.recv_msg() {
            Err(_) => {
                // the engine promised a message after a successful peek
                proof { assert(false); }
                return Poll::Pending;
            },
            Ok(m) => m,
        };
        if m.len() <= buf_len {
            proof {
                self.delivered@ = pre.delivered@ + m@;
                assert(pre.overflow@ + pre.kcp.rcv_stream() =~= pre.kcp.rcv_stream());
                assert(m@ =~= pre.read_view().take(m@.len() as int));
                assert(self.overflow@
                    =~= crate::engine::msg_bytes(pre.kcp.rcv_queue@).skip(m@.len() as int));
                assert(self.read_view() =~= self.kcp.rcv_stream());
                assert(pre.read_view().skip(m@.len() as int)
                    .is_prefix_of(self.read_view()));
                crate::engine::lemma_concat_prefix(
                    self.delivered@,
                    pre.read_view().skip(m@.len() as int),
                    self.read_view(),
                );
                assert(pre.total_stream()
                    =~= self.delivered@ + pre.read_view().skip(m@.len() as int));
                assert(pre.total_stream().is_prefix_of(self.total_stream()));
            }
            Poll::Ready(Ok(m))
        } else {
            // the user's buffer is smaller than the message: deliver
            // the prefix that fits and keep the remainder
            let mut head = m;
            let tail = head.split_off(buf_len);
            self.overflow = tail;
            proof {
                self.delivered@ = pre.delivered@ + head@;
                assert(pre.overflow@ + pre.kcp.rcv_stream() =~= pre.kcp.rcv_stream());
                assert(self.overflow@
                    =~= crate::engine::msg_bytes(pre.kcp.rcv_queue@)
                        .skip(head@.len() as int));
                assert(head@ =~= pre.read_view().take(buf_len as int));
                let s0 = pre.kcp.rcv_stream();
                let mlen = (head@.len() + self.overflow@.len()) as int;
                assert(head@ + self.overflow@ =~= s0.take(mlen));
                crate::engine::lemma_concat_prefix(
                    self.overflow@,
                    s0.skip(mlen),
                    self.kcp.rcv_stream(),
                );
                assert(pre.read_view().skip(buf_len as int)
                    =~= self.overflow@ + s0.skip(mlen));
                assert(pre.read_view().skip(buf_len as int)
                    .is_prefix_of(self.read_view()));
                crate::engine::lemma_concat_prefix(
                    self.delivered@,
                    pre.read_view().skip(buf_len as int),
                    self.read_view(),
                );
                assert(pre.total_stream()
                    =~= self.delivered@ + pre.read_view().skip(buf_len as int));
                assert(pre.total_stream().is_prefix_of(self.total_stream()));
            }
            Poll::Ready(Ok(head))
        }
    }

    /// Writes `buf` into the engine.  Always ready in this model
    /// (suspension on lock contention is the embedder's concern): the
    /// engine either queues all of `buf` or reports backpressure.
    pub fn poll_write(&mut self, buf: &[u8]) -> (r: Poll<Result<usize, KcpErr>>)
        requires
            old(self).wf(),
        ensures
            final(self).wf(),
            r matches Poll::Ready(res) && match res {
                Ok(n) => n == buf@.len()
                    && final(self).kcp.pending_bytes()
                        == old(self).kcp.pending_bytes() + buf@,
                Err(e) => e == KcpErr::SendQueueFull && *final(self) == *old(self),
            },
            (r matches Poll::Ready(res) && res matches Ok(_)) <==> (buf@.len()
                <= crate::engine::MAX_MESSAGE
                && old(self).kcp.snd_queue@.len()
                    + crate::engine::frag_count(buf@.len() as int)
                    <= crate::engine::SND_QUEUE_CAP),
            final(self).read_view() == old(self).read_view(),
            final(self).delivered == old(self).delivered,
            final(self).read_waker == old(self).read_waker,
            final(self).write_waker == old(self).write_waker,
            final(self).close_waker == old(self).close_waker,
    {
        let res = self.kcp.send(buf);
        Poll::Ready(res)
    }

    /// Flushing is a no-op: the update driver drains the engine.  The
    /// state after the call is exactly the state before it.
    pub fn poll_flush(&mut self) -> (r: Poll<Result<(), KcpErr>>)
        ensures
            *final(self) == *old(self),
            r matches Poll::Ready(res) && res matches Ok(_),
    {
        Poll::Ready(Ok(()))
    }

    /// Closes the stream.
    ///
    /// Ready (and the engine marked closed) exactly when nothing the
    /// user sent is still unacknowledged; otherwise the caller is
    /// registered as the (single) close-suspended task.  Closing is
    /// idempotent.
    pub fn poll_close(&mut self, waker: W) -> (r: Poll<Result<(), KcpErr>>)
        requires
            old(self).wf(),
        ensures
            final(self).wf(),
            r matches Poll::Ready(res) ==> res matches Ok(_),
            (r matches Poll::Ready(res) && res matches Ok(_)) <==> (old(self).kcp.snd_buf@.len()
                + old(self).kcp.snd_queue@.len() == 0),
            match r {
                Poll::Pending => *final(self) == (KcpCore {
                    close_waker: Some(waker),
                    ..*old(self)
                }),
                Poll::Ready(_) => *final(self) == (KcpCore {
                    kcp: (Kcp { closed: true, ..old(self).kcp }),
                    ..*old(self)
                }),
            },
    {
        let wait = self.kcp.wait_snd();
        if wait > 0 {
            self.close_waker = Some(waker);
            Poll::Pending
        } else {
            self.kcp.close();
            Poll::Ready(Ok(()))
        }
    }

    /// One tick of the update driver: runs the engine's maintenance,
    /// then applies the wake discipline — resume the reader if a
    /// message became deliverable, the writer if data is in flight,
    /// the closer if the send queues drained or the link died.
    /// Returned handles are taken out of their slots; the caller
    /// resumes them and puts the datagrams on the wire.
    pub fn kcp_update(&mut self, now: u64) -> (r: UpdateOutcome<W>)
        requires
            old(self).wf(),
        ensures
            final(self).wf(),
            final(self).kcp.pending_bytes() == old(self).kcp.pending_bytes(),
            final(self).read_view() == old(self).read_view(),
            final(self).delivered == old(self).delivered,
            old(self).total_stream().is_prefix_of(final(self).total_stream()),
            old(self).kcp.dead ==> final(self).kcp.dead,
            r.dead == final(self).kcp.dead,
            forall|i: int| 0 <= i < r.datagrams@.len()
                ==> (#[trigger] r.datagrams@[i])@.len() >= crate::KCP_OVERHEAD
                    && crate::codec::le_u32_at(r.datagrams@[i]@, 0) == old(self).kcp.conv
                    && crate::engine::datagram_ok(r.datagrams@[i]@, old(self).kcp.conv),
            forall|i: int| 0 <= i < r.datagrams@.len()
                && (#[trigger] r.datagrams@[i])@[4] == crate::codec::CMD_PUSH
                ==> exists|j: int| 0 <= j < final(self).kcp.snd_buf@.len()
                    && crate::codec::le_u32_at(r.datagrams@[i]@, 12)
                        == (#[trigger] final(self).kcp.snd_buf@[j]).sn
                    && r.datagrams@[i]@.skip(crate::KCP_OVERHEAD as int)
                        == final(self).kcp.snd_buf@[j].data@,
            r.wake_read == (if final(self).kcp.peek_spec() matches Ok(_) {
                old(self).read_waker
            } else {
                Option::<W>::None
            }),
            final(self).read_waker == (if final(self).kcp.peek_spec() matches Ok(_) {
                Option::<W>::None
            } else {
                old(self).read_waker
            }),
            r.wake_write == (if final(self).kcp.snd_buf@.len()
                + final(self).kcp.snd_queue@.len() > 0 {
                old(self).write_waker
            } else {
                Option::<W>::None
            }),
            final(self).write_waker == (if final(self).kcp.snd_buf@.len()
                + final(self).kcp.snd_queue@.len() > 0 {
                Option::<W>::None
            } else {
                old(self).write_waker
            }),
            r.wake_close == (if final(self).kcp.snd_buf@.len()
                + final(self).kcp.snd_queue@.len() == 0 || final(self).kcp.dead {
                old(self).close_waker
            } else {
                Option::<W>::None
            }),
            final(self).close_waker == (if final(self).kcp.snd_buf@.len()
                + final(self).kcp.snd_queue@.len() == 0 || final(self).kcp.dead {
                Option::<W>::None
            } else {
                old(self).close_waker
            }),
            final(self).kcp.dead == (old(self).kcp.dead
                || (old(self).kcp.flush_due(crate::engine::clamp_now(now))
                    && old(self).kcp.dead_trigger(crate::engine::clamp_now(now)))),
            old(self).kcp.flush_due(crate::engine::clamp_now(now)) ==> {
                &&& final(self).kcp.acklist@.len() == 0
                &&& (forall|a: int| 0 <= a < old(self).kcp.acklist@.len()
                    ==> crate::engine::ack_emitted(r.datagrams@,
                        (#[trigger] old(self).kcp.acklist@[a]).0,
                        old(self).kcp.acklist@[a].1))
                &&& (forall|j: int| 0 <= j < old(self).kcp.snd_buf@.len()
                    && crate::engine::seg_due(#[trigger] old(self).kcp.snd_buf@[j],
                        crate::engine::clamp_now(now), old(self).kcp.fastresend)
                    ==> crate::engine::push_emitted(r.datagrams@,
                        old(self).kcp.snd_buf@[j].sn, old(self).kcp.snd_buf@[j].data@))
            },
    {
        let ghost pre = *self;
        let datagrams = self.kcp.update(now);
        let peek_ok = match self.kcp.peeksize() {
            Ok(_) => true,
            Err(_) => false,
        };
        let wait = self.kcp.wait_snd();
        let dead = self.kcp.is_dead_link();
        let wake_read = if peek_ok { self.try_wake_read() } else { None };
        let wake_write = if wait > 0 { self.try_wake_write() } else { None };
        let wake_close = if wait == 0 || dead { self.try_wake_close() } else { None };
        proof {
            assert(self.read_view() =~= pre.read_view());
            assert(pre.total_stream() =~= self.total_stream());
            lemma_prefix_refl(self.total_stream());
        }
        UpdateOutcome { datagrams, wake_read, wake_write, wake_close, dead }
    }
}

} // verus!
