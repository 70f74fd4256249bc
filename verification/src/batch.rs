//! Grouping of protocol events into batch messages: events collect until the
//! batch is full or holds about 2 MiB, and a batch of one event goes out as
//! that event.
use crate::proto as pb;
use vstd::prelude::*;

verus! {

/// A batch is sent once its encoded events reach 2 MiB.
pub const MAX_BATCH_BYTES: usize = 2097152;

/// The protocol events a message carries, batches flattened.
pub open spec fn flat(e: pb::ParseWarcResponse) -> Seq<pb::ParseWarcResponse>
    decreases e,
{
    match e.kind {
        Some(pb::ResponseKind::Batch(b)) => flat_all(b.items@),
        _ => seq![e],
    }
}

/// The protocol events that messages carry, in order.
pub open spec fn flat_all(s: Seq<pb::ParseWarcResponse>) -> Seq<pb::ParseWarcResponse>
    decreases s,
{
    if s.len() == 0 {
        Seq::empty()
    } else {
        flat_all(s.subrange(0, s.len() - 1)) + flat(s[s.len() - 1])
    }
}

/// Flattening distributes over concatenation.
pub proof fn lemma_flat_all_concat(a: Seq<pb::ParseWarcResponse>, b: Seq<pb::ParseWarcResponse>)
    ensures
        flat_all(a + b) == flat_all(a) + flat_all(b),
    decreases b.len(),
{
    if b.len() == 0 {
        assert(a + b =~= a);
        assert(flat_all(a) + flat_all(b) =~= flat_all(a));
    } else {
        let c = a + b;
        assert(c.subrange(0, c.len() - 1) =~= a + b.subrange(0, b.len() - 1));
        assert(c[c.len() - 1] == b[b.len() - 1]);
        lemma_flat_all_concat(a, b.subrange(0, b.len() - 1));
        assert(flat_all(a) + flat_all(b.subrange(0, b.len() - 1)) + flat(b[b.len() - 1]) =~= flat_all(a) + (
        flat_all(b.subrange(0, b.len() - 1)) + flat(b[b.len() - 1])));
    }
}

proof fn lemma_flat_all_one(e: pb::ParseWarcResponse)
    ensures
        flat_all(seq![e]) == flat(e),
{
    let s = seq![e];
    assert(s.subrange(0, 0) =~= Seq::<pb::ParseWarcResponse>::empty());
    assert(flat_all(s.subrange(0, 0)) == Seq::<pb::ParseWarcResponse>::empty());
    assert(s[0] == e);
    assert(Seq::<pb::ParseWarcResponse>::empty() + flat(e) =~= flat(e));
}

/// `n`, or `usize::MAX` if it is larger (a saturating sum).
pub open spec fn capped(n: int) -> nat {
    if n > usize::MAX {
        usize::MAX as nat
    } else {
        n as nat
    }
}

/// Groups protocol events into messages of up to `batch_size` events.
pub struct BatchEmitter {
    batch: Vec<pb::ParseWarcResponse>,
    batch_size: usize,
    batch_bytes: usize,
}

impl BatchEmitter {
    /// The events waiting to be sent.
    pub closed spec fn pending(&self) -> Seq<pb::ParseWarcResponse> {
        self.batch@
    }

    /// Number of events a batch holds at most.
    pub closed spec fn size(&self) -> usize {
        self.batch_size
    }

    /// Encoded bytes of the events waiting to be sent (saturating).
    pub closed spec fn bytes(&self) -> nat {
        self.batch_bytes as nat
    }

    /// Events are only held back when batches hold more than one event, and
    /// then fewer than a batch holds and under 2 MiB; no events, no bytes.
    pub closed spec fn wf(&self) -> bool {
        &&& self.batch_size <= 1 ==> self.batch@.len() == 0
        &&& self.batch_size > 1 ==> self.batch@.len() < self.batch_size && self.batch_bytes < MAX_BATCH_BYTES
        &&& self.batch@.len() == 0 ==> self.batch_bytes == 0
    }

    /// An emitter for batches of `batch_size` events (1 or less: every
    /// event is sent on its own).
    pub fn new(batch_size: usize) -> (r: Self)
        ensures
            r.wf(),
            r.size() == batch_size,
            r.pending().len() == 0,
            r.bytes() == 0,
    {
        BatchEmitter { batch: Vec::new(), batch_size, batch_bytes: 0 }
    }

    /// The message for the pending events, if there are any: the event
    /// itself for one, a batch for several. Nothing is pending afterwards.
    pub fn flush(&mut self) -> (r: Option<pb::ParseWarcResponse>)
        ensures
            final(self).wf(),
            final(self).size() == old(self).size(),
            final(self).pending().len() == 0,
            final(self).bytes() == 0,
            match r {
                Some(m) => flat(m) == flat_all(old(self).pending()) && old(self).pending().len() > 0,
                None => old(self).pending().len() == 0,
            },
    {
        self.batch_bytes = 0;
        if self.batch.len() == 0 {
            return None;
        }
        let mut items: Vec<pb::ParseWarcResponse> = Vec::new();
        std::mem::swap(&mut items, &mut self.batch);
        if items.len() == 1 {
            let only = items.remove(0);
            proof {
                lemma_flat_all_one(only);
                assert(old(self).pending() =~= seq![only]);
            }
            Some(only)
        } else {
            let ghost all = items@;
            let m = pb::ParseWarcResponse { kind: Some(pb::ResponseKind::Batch(pb::RecordBatch { items })) };
            assert(flat(m) == flat_all(all));
            Some(m)
        }
    }

    /// Take an event whose encoded size, with its framing as a batch item,
    /// is `response_bytes`. Returns the messages to send now, in order: with
    /// batches of at most one event the event itself; else the pending
    /// batch if the event would push it past 2 MiB, then the batch with the
    /// event as soon as it holds `size()` events or has reached 2 MiB.
    pub fn emit(&mut self, response: pb::ParseWarcResponse, response_bytes: usize) -> (r: Vec<pb::ParseWarcResponse>)
        requires
            old(self).wf(),
        ensures
            final(self).wf(),
            final(self).size() == old(self).size(),
            flat_all(r@) + flat_all(final(self).pending()) == flat_all(old(self).pending()) + flat(response),
            old(self).size() <= 1 ==> r@ == seq![response] && final(self).pending().len() == 0,
            old(self).size() > 1 ==> ({
                let first = old(self).pending().len() > 0 && old(self).bytes() + response_bytes > MAX_BATCH_BYTES;
                let kept = if first {
                    Seq::<pb::ParseWarcResponse>::empty()
                } else {
                    old(self).pending()
                };
                let kept_bytes: nat = if first {
                    0
                } else {
                    old(self).bytes()
                };
                let joined = kept.push(response);
                let joined_bytes = capped(kept_bytes + response_bytes);
                let second = joined.len() >= old(self).size() || joined_bytes >= MAX_BATCH_BYTES;
                &&& r@.len() == (if first {
                    1int
                } else {
                    0int
                }) + (if second {
                    1int
                } else {
                    0int
                })
                &&& first ==> flat(r@[0]) == flat_all(old(self).pending())
                &&& second ==> flat(r@[r@.len() - 1]) == flat_all(joined)
                &&& final(self).pending() == if second {
                    Seq::<pb::ParseWarcResponse>::empty()
                } else {
                    joined
                }
                &&& final(self).bytes() == if second {
                    0
                } else {
                    joined_bytes
                }
            }),
    {
        let mut out: Vec<pb::ParseWarcResponse> = Vec::new();
        if self.batch_size <= 1 {
            let ghost e = response;
            out.push(response);
            proof {
                lemma_flat_all_one(e);
                assert(out@ =~= seq![e]);
                assert(flat_all(Seq::<pb::ParseWarcResponse>::empty()) =~= Seq::<pb::ParseWarcResponse>::empty());
                assert(flat(e) + Seq::<pb::ParseWarcResponse>::empty() =~= flat(e));
                assert(Seq::<pb::ParseWarcResponse>::empty() + flat(e) =~= flat(e));
            }
            return out;
        }
        let ghost start = self.batch@;
        if self.batch.len() > 0 && self.batch_bytes.saturating_add(response_bytes) > MAX_BATCH_BYTES {
            match self.flush() {
                Some(m) => {
                    out.push(m);
                    proof {
                        lemma_flat_all_one(m);
                        assert(out@ =~= seq![m]);
                    }
                },
                None => {},
            }
        }
        proof {
            assert(flat_all(Seq::<pb::ParseWarcResponse>::empty()) =~= Seq::<pb::ParseWarcResponse>::empty());
            assert(flat_all(out@) + flat_all(self.batch@) =~= flat_all(start));
        }
        let ghost sent = out@;
        let ghost before = self.batch@;
        self.batch_bytes = self.batch_bytes.saturating_add(response_bytes);
        let ghost e = response;
        self.batch.push(response);
        proof {
            assert(self.batch@ == before + seq![e]);
            lemma_flat_all_concat(before, seq![e]);
            lemma_flat_all_one(e);
        }
        if self.batch.len() >= self.batch_size || self.batch_bytes >= MAX_BATCH_BYTES {
            let ghost pend = self.batch@;
            match self.flush() {
                Some(m) => {
                    out.push(m);
                    proof {
                        assert(out@ == sent + seq![m]);
                        lemma_flat_all_concat(sent, seq![m]);
                        lemma_flat_all_one(m);
                        assert(flat_all(Seq::<pb::ParseWarcResponse>::empty()) =~= Seq::<pb::ParseWarcResponse>::empty());
                        assert(flat_all(out@) + flat_all(self.batch@) =~= flat_all(sent) + flat_all(pend));
                    }
                },
                None => {},
            }
        }
        out
    }
}

} // verus!
