//! The sender: groups payloads into messages and hands them to a sink.

use crate::greedy::{
    MAX_MSG_SIZE, all_fit, batches, is_oversized, is_run, lemma_run_len_unique, lemma_run_len_zero,
    lemma_total_len_bounds_each, lemma_total_len_take_next, run_len, total_len,
};
use crate::payload::{payload_len, payload_slice, views};
use crate::sink::{Sink, group_view};
use bytes::Bytes;
use vstd::prelude::*;
use vstd::slice::slice_subrange;

verus! {

/// A payload that can be part of no message: alone it reaches
/// [`MAX_MSG_SIZE`]. Batching stops in front of such a payload.
#[derive(Debug, Clone, Copy, PartialEq, Eq, Structural)]
pub struct Oversized {
    /// The payload's position in the sequence that was to be sent.
    pub index: usize,
    /// The payload's length in bytes.
    pub len: usize,
}

/// What one batching call on `payloads` does to a sink and what it returns.
///
/// `before` and `after` are the sink's history before and after the call.
/// The call sends `batches(payloads)` and nothing else. It returns the number
/// of messages if no payload is oversized; otherwise it returns the first
/// oversized payload, in front of which it has stopped.
pub open spec fn delivered(
    payloads: Seq<Seq<u8>>,
    before: Seq<Seq<Seq<u8>>>,
    after: Seq<Seq<Seq<u8>>>,
    r: Result<usize, Oversized>,
) -> bool {
    &&& after == before + batches(payloads)
    &&& match r {
        Ok(count) => all_fit(payloads) && count == batches(payloads).len(),
        Err(e) => {
            &&& e.index < payloads.len()
            &&& all_fit(payloads.take(e.index as int))
            &&& is_oversized(payloads[e.index as int])
            &&& e.len == payloads[e.index as int].len()
        },
    }
}

/// What a batching call on `payloads` leaves in the group buffer: the last
/// message it sent, or nothing if it sent none or stopped at an oversized
/// payload.
pub open spec fn residue(payloads: Seq<Seq<u8>>) -> Seq<Seq<u8>> {
    if all_fit(payloads) && batches(payloads).len() > 0 {
        batches(payloads).last()
    } else {
        Seq::empty()
    }
}

/// Groups payloads into messages. The group buffer that holds the message
/// under construction lives as long as the sender, so its allocation is
/// reused from message to message and from call to call.
pub struct Sender<'b> {
    id: usize,
    buffer: Vec<&'b [u8]>,
}

impl<'b> View for Sender<'b> {
    type V = Seq<Seq<u8>>;

    /// The payloads in the group buffer.
    closed spec fn view(&self) -> Seq<Seq<u8>> {
        group_view(self.buffer@)
    }
}

impl<'b> Sender<'b> {
    /// The sender's identity.
    pub closed spec fn spec_id(&self) -> usize {
        self.id
    }

    /// What [`Sender::send_payloads`] does, as a relation: called on this
    /// sender with `payloads` and a sink whose history is `before`, it leaves
    /// the sender as `done` and the sink's history as `after`, and returns
    /// `r`. The relation asks nothing of this sender's group buffer.
    pub open spec fn sends(
        &self,
        payloads: Seq<Seq<u8>>,
        before: Seq<Seq<Seq<u8>>>,
        done: Self,
        after: Seq<Seq<Seq<u8>>>,
        r: Result<usize, Oversized>,
    ) -> bool {
        &&& delivered(payloads, before, after, r)
        &&& done@ == residue(payloads)
        &&& done.id() == self.id()
    }

    /// A sender with an empty group buffer.
    pub fn new(id: usize) -> (sender: Self)
        ensures
            sender.id() == id,
            sender@ == Seq::<Seq<u8>>::empty(),
    {
        let sender = Sender { id, buffer: Vec::new() };
        assert(sender@ =~= Seq::<Seq<u8>>::empty());
        sender
    }

    /// The sender's identity.
    #[verifier::when_used_as_spec(spec_id)]
    pub fn id(&self) -> (id: usize)
        ensures
            id == self.id(),
    {
        self.id
    }

    /// The message in the group buffer: one slice per payload, each borrowed
    /// from its payload.
    pub fn message(&self) -> (group: &[&'b [u8]])
        ensures
            group_view(group@) == self@,
    {
        self.buffer.as_slice()
    }

    /// Builds the next message in the group buffer: empties the buffer, then
    /// takes payloads from the front of `payloads` for as long as the total
    /// stays below [`MAX_MSG_SIZE`]. Returns how many it took. That is 0 only
    /// if `payloads` is empty or its first payload is oversized.
    pub fn next_message(&mut self, payloads: &[&'b Bytes]) -> (taken: usize)
        ensures
            taken == run_len(views(payloads@)),
            is_run(views(payloads@), taken as int),
            final(self)@ == views(payloads@).take(taken as int),
            final(self).id() == old(self).id(),
    {
        self.buffer.clear();
        let mut msg_size: usize = 0;
        let mut i: usize = 0;
        assert(self@ =~= views(payloads@).take(0));
        while i < payloads.len()
            invariant
                i <= payloads.len(),
                msg_size == total_len(views(payloads@).take(i as int)),
                msg_size < MAX_MSG_SIZE,
                self@ == views(payloads@).take(i as int),
                self.id() == old(self).id(),
            ensures
                i <= payloads.len(),
                is_run(views(payloads@), i as int),
                self@ == views(payloads@).take(i as int),
                self.id() == old(self).id(),
            decreases payloads.len() - i,
        {
            let next_payload = payloads[i];
            let len = payload_len(next_payload);
            if len < MAX_MSG_SIZE - msg_size {
                proof {
                    lemma_total_len_take_next(views(payloads@), i as int);
                }
                msg_size += len;
                self.buffer.push(payload_slice(next_payload));
                assert(self@ =~= views(payloads@).take(i + 1));
                i += 1;
            } else {
                break ;
            }
        }
        proof {
            lemma_run_len_unique(views(payloads@), i as int);
        }
        i
    }

    /// Sends `payloads`, in order, as messages: builds each message in the
    /// group buffer and hands it to `sink` before building the next.
    ///
    /// Every message is the longest run of the remaining payloads whose total
    /// size is below [`MAX_MSG_SIZE`]. An oversized payload fits in no
    /// message: the call sends the messages in front of it, then stops and
    /// returns it as the error. Otherwise the call returns the number of
    /// messages sent.
    ///
    /// What the group buffer held before the call has no effect; only its
    /// allocation is reused.
    pub fn send_payloads<S: Sink>(&mut self, payloads: &[&'b Bytes], sink: &mut S) -> (r: Result<
        usize,
        Oversized,
    >)
        ensures
            old(self).sends(
                views(payloads@),
                old(sink).sent(),
                *final(self),
                final(sink).sent(),
                r,
            ),
    {
        self.buffer.clear();
        let total = payloads.len();
        let mut start: usize = 0;
        let mut count: usize = 0;
        let ghost all = views(payloads@);
        assert(self@ =~= Seq::<Seq<u8>>::empty());
        assert(all.skip(0) =~= all);
        assert(sink.sent() + batches(all) =~= old(sink).sent() + batches(all.skip(0)));
        while start < total
            invariant
                total == payloads.len(),
                all == views(payloads@),
                start <= total,
                count <= start,
                all_fit(all.take(start as int)),
                sink.sent() + batches(all.skip(start as int)) == old(sink).sent() + batches(all),
                sink.sent().len() == old(sink).sent().len() + count,
                self@ == if count == 0 {
                    Seq::<Seq<u8>>::empty()
                } else {
                    sink.sent().last()
                },
                self.id() == old(self).id(),
            decreases total - start,
        {
            let rest = slice_subrange(payloads, start, total);
            let ghost remaining = all.skip(start as int);
            assert(views(rest@) =~= remaining);
            let taken = self.next_message(rest);
            if taken == 0 {
                let len = payload_len(payloads[start]);
                proof {
                    lemma_run_len_zero(remaining);
                    assert(sink.sent() + batches(remaining) =~= sink.sent());
                    assert(self@ =~= Seq::<Seq<u8>>::empty());
                }
                return Err(Oversized { index: start, len });
            }
            let ghost message = remaining.take(taken as int);
            let ghost sent = sink.sent();
            sink.send_msg(self.buffer.as_slice());
            proof {
                assert(remaining.skip(taken as int) =~= all.skip(start + taken));
                assert(sent.push(message) + batches(all.skip(start + taken)) =~= sent + batches(
                    remaining,
                ));
                assert forall|j: int| 0 <= j < start + taken implies !is_oversized(
                    #[trigger] all.take(start + taken)[j],
                ) by {
                    if j < start {
                        assert(all.take(start as int)[j] == all[j]);
                    } else {
                        lemma_total_len_bounds_each(message, j - start);
                    }
                }
            }
            start += taken;
            count += 1;
        }
        proof {
            assert(all.take(start as int) =~= all);
            assert(sink.sent() + batches(all.skip(start as int)) =~= sink.sent());
        }
        Ok(count)
    }
}

/// Determinism: the payloads and the sink's history before a call fix the
/// history after the call and the value returned.
pub proof fn lemma_delivered_deterministic(
    payloads: Seq<Seq<u8>>,
    before: Seq<Seq<Seq<u8>>>,
    after1: Seq<Seq<Seq<u8>>>,
    r1: Result<usize, Oversized>,
    after2: Seq<Seq<Seq<u8>>>,
    r2: Result<usize, Oversized>,
)
    requires
        delivered(payloads, before, after1, r1),
        delivered(payloads, before, after2, r2),
    ensures
        after1 == after2,
        r1 == r2,
{
    match (r1, r2) {
        (Ok(_), Ok(_)) => {},
        (Err(e1), Err(e2)) => {
            if e1.index < e2.index {
                assert(payloads.take(e2.index as int)[e1.index as int] == payloads[e1.index as int]);
            }
            if e2.index < e1.index {
                assert(payloads.take(e1.index as int)[e2.index as int] == payloads[e2.index as int]);
            }
        },
        (Ok(_), Err(e)) => {
            assert(is_oversized(payloads[e.index as int]));
        },
        (Err(e), Ok(_)) => {
            assert(is_oversized(payloads[e.index as int]));
        },
    }
}

/// Recycling the group buffer cannot be observed. Let `fresh` be a sender
/// whose group buffer is empty and `used` a sender in any state, such as one
/// whose buffer still holds the last message of an earlier call. Calls of
/// [`Sender::send_payloads`] on the two, with the same payloads and the same
/// history of the sink, send the same messages, return the same value and
/// leave the same message in the buffer.
pub proof fn lemma_recycling_unobservable(
    payloads: Seq<Seq<u8>>,
    before: Seq<Seq<Seq<u8>>>,
    fresh: Sender<'_>,
    fresh_done: Sender<'_>,
    fresh_after: Seq<Seq<Seq<u8>>>,
    fresh_r: Result<usize, Oversized>,
    used: Sender<'_>,
    used_done: Sender<'_>,
    used_after: Seq<Seq<Seq<u8>>>,
    used_r: Result<usize, Oversized>,
)
    requires
        fresh@ == Seq::<Seq<u8>>::empty(),
        fresh.sends(payloads, before, fresh_done, fresh_after, fresh_r),
        used.sends(payloads, before, used_done, used_after, used_r),
    ensures
        fresh_after == used_after,
        fresh_r == used_r,
        fresh_done@ == used_done@,
{
    lemma_delivered_deterministic(payloads, before, fresh_after, fresh_r, used_after, used_r);
}

} // verus!
