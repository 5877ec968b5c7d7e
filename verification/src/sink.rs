//! Where completed messages go.
//!
//! A [`Sink`] stands for the send operation: it is handed each message once,
//! as a group of byte slices that borrow from the payloads. What it has been
//! handed so far is its history, [`Sink::sent`], over which the batching
//! functions state what they send.

use vstd::prelude::*;
use vstd::slice::slice_to_vec;

verus! {

/// The bytes that each slice of a group refers to.
pub open spec fn group_view(group: Seq<&[u8]>) -> Seq<Seq<u8>> {
    group.map_values(|s: &[u8]| s@)
}

/// A destination for messages.
pub trait Sink {
    /// Every message handed to this sink so far, oldest first.
    spec fn sent(&self) -> Seq<Seq<Seq<u8>>>;

    /// Takes one message. The slices are only borrowed for the call: the
    /// caller reuses the group as soon as the call returns.
    fn send_msg(&mut self, iovs: &[&[u8]])
        ensures
            final(self).sent() == old(self).sent().push(group_view(iovs@)),
    ;
}

/// `std::hint::black_box`: hands its argument back unchanged, and keeps the
/// compiler from assuming anything about what was done with it.
pub assume_specification<T>[ std::hint::black_box::<T> ](dummy: T) -> (r: T)
    ensures
        r == dummy,
;

/// A sink that performs no transmission: it looks at each message and lets it
/// go. Its history exists for the verifier only and takes no space.
pub struct Discard {
    log: Ghost<Seq<Seq<Seq<u8>>>>,
}

impl Discard {
    /// A sink that has been handed nothing yet.
    pub fn new() -> (sink: Self)
        ensures
            sink.sent() == Seq::<Seq<Seq<u8>>>::empty(),
    {
        Discard { log: Ghost(Seq::empty()) }
    }
}

impl Sink for Discard {
    closed spec fn sent(&self) -> Seq<Seq<Seq<u8>>> {
        self.log@
    }

    fn send_msg(&mut self, iovs: &[&[u8]]) {
        let seen = std::hint::black_box(iovs);
        proof {
            self.log@ = self.log@.push(group_view(seen@));
        }
    }
}

/// A sink that keeps a copy of every message it is handed, for inspection.
pub struct Recorder {
    messages: Vec<Vec<Vec<u8>>>,
}

impl Recorder {
    /// A recorder that has been handed nothing yet.
    pub fn new() -> (sink: Self)
        ensures
            sink.sent() == Seq::<Seq<Seq<u8>>>::empty(),
    {
        let sink = Recorder { messages: Vec::new() };
        assert(sink.messages.deep_view() =~= Seq::<Seq<Seq<u8>>>::empty());
        sink
    }

    /// The recorded messages, oldest first; each is the list of its
    /// payloads' bytes.
    pub fn messages(&self) -> (messages: &Vec<Vec<Vec<u8>>>)
        ensures
            messages.deep_view() == self.sent(),
    {
        &self.messages
    }
}

impl Sink for Recorder {
    closed spec fn sent(&self) -> Seq<Seq<Seq<u8>>> {
        self.messages.deep_view()
    }

    fn send_msg(&mut self, iovs: &[&[u8]]) {
        let mut message: Vec<Vec<u8>> = Vec::new();
        let mut i: usize = 0;
        while i < iovs.len()
            invariant
                i <= iovs.len(),
                message@.len() == i,
                forall|j: int| 0 <= j < i ==> (#[trigger] message@[j])@ == iovs@[j]@,
            decreases iovs.len() - i,
        {
            message.push(slice_to_vec(iovs[i]));
            i += 1;
        }
        assert(message.deep_view() =~~= group_view(iovs@));
        self.messages.push(message);
        assert(self.messages.deep_view() =~= old(self).messages.deep_view().push(
            group_view(iovs@),
        ));
    }
}

} // verus!
