//! The greedy partition of a payload sequence into messages.
//!
//! Everything here is mathematics over `Seq<Seq<u8>>`: a payload is the
//! sequence of its bytes, a message is a sequence of payloads, and
//! [`batches`] is the sequence of messages that the greedy rule forms from a
//! sequence of payloads. The executable code states its results over these
//! functions; the lemmas say what the functions guarantee.

use vstd::prelude::*;
use vstd::seq_lib::lemma_flatten_concat;

verus! {

/// A message's total size must stay strictly below this many bytes.
pub const MAX_MSG_SIZE: usize = 1400;

/// The total number of bytes in a sequence of payloads.
pub open spec fn total_len(payloads: Seq<Seq<u8>>) -> nat
    decreases payloads.len(),
{
    if payloads.len() == 0 {
        0
    } else {
        total_len(payloads.drop_last()) + payloads.last().len()
    }
}

/// A payload that cannot be part of any message: already alone it reaches the
/// size limit.
pub open spec fn is_oversized(payload: Seq<u8>) -> bool {
    payload.len() >= MAX_MSG_SIZE
}

/// No payload of the sequence is oversized.
pub open spec fn all_fit(payloads: Seq<Seq<u8>>) -> bool {
    forall|i: int| 0 <= i < payloads.len() ==> !is_oversized(#[trigger] payloads[i])
}

/// `k` is the number of leading payloads that make up the first message: the
/// first `k` payloads stay below the size limit together, and the next one,
/// if there is one, would reach it.
pub open spec fn is_run(payloads: Seq<Seq<u8>>, k: int) -> bool {
    &&& 0 <= k <= payloads.len()
    &&& total_len(payloads.take(k)) < MAX_MSG_SIZE
    &&& k < payloads.len() ==> total_len(payloads.take(k)) + payloads[k].len() >= MAX_MSG_SIZE
}

/// The length of the longest prefix of `payloads` whose total size is below
/// the limit. It is 0 exactly when `payloads` is empty or starts with an
/// oversized payload.
pub open spec fn run_len(payloads: Seq<Seq<u8>>) -> int {
    choose|k: int| is_run(payloads, k)
}

/// The messages that the greedy rule forms from `payloads`, in the order in
/// which they are sent: each message is the longest run of the remaining
/// payloads that stays below the size limit. The sequence ends where the
/// payloads end, or in front of the first oversized payload.
pub open spec fn batches(payloads: Seq<Seq<u8>>) -> Seq<Seq<Seq<u8>>>
    decreases payloads.len(),
{
    let k = run_len(payloads);
    if 0 < k <= payloads.len() {
        seq![payloads.take(k)] + batches(payloads.skip(k))
    } else {
        Seq::empty()
    }
}

/// Appending a payload adds its length to the total.
pub proof fn lemma_total_len_push(payloads: Seq<Seq<u8>>, payload: Seq<u8>)
    ensures
        total_len(payloads.push(payload)) == total_len(payloads) + payload.len(),
{
    assert(payloads.push(payload).drop_last() =~= payloads);
}

/// The total of a concatenation is the sum of the totals.
pub proof fn lemma_total_len_concat(a: Seq<Seq<u8>>, b: Seq<Seq<u8>>)
    ensures
        total_len(a + b) == total_len(a) + total_len(b),
    decreases b.len(),
{
    if b.len() == 0 {
        assert(a + b =~= a);
    } else {
        assert((a + b).drop_last() =~= a + b.drop_last());
        lemma_total_len_concat(a, b.drop_last());
    }
}

/// Taking one payload more adds that payload's length to the total.
pub proof fn lemma_total_len_take_next(payloads: Seq<Seq<u8>>, k: int)
    requires
        0 <= k < payloads.len(),
    ensures
        total_len(payloads.take(k + 1)) == total_len(payloads.take(k)) + payloads[k].len(),
{
    assert(payloads.take(k + 1) =~= payloads.take(k).push(payloads[k]));
    lemma_total_len_push(payloads.take(k), payloads[k]);
}

/// A longer prefix is at least as large as a shorter one.
pub proof fn lemma_total_len_take_monotone(payloads: Seq<Seq<u8>>, j: int, k: int)
    requires
        0 <= j <= k <= payloads.len(),
    ensures
        total_len(payloads.take(j)) <= total_len(payloads.take(k)),
{
    assert(payloads.take(k) =~= payloads.take(j) + payloads.subrange(j, k));
    lemma_total_len_concat(payloads.take(j), payloads.subrange(j, k));
}

/// No payload is larger than the total of a sequence that holds it.
pub proof fn lemma_total_len_bounds_each(payloads: Seq<Seq<u8>>, i: int)
    requires
        0 <= i < payloads.len(),
    ensures
        payloads[i].len() <= total_len(payloads),
{
    assert(payloads =~= payloads.take(i).push(payloads[i]) + payloads.skip(i + 1));
    lemma_total_len_concat(payloads.take(i).push(payloads[i]), payloads.skip(i + 1));
    lemma_total_len_push(payloads.take(i), payloads[i]);
}

/// Every prefix that stays below the limit is at most as long as a run.
pub proof fn lemma_run_is_longest(payloads: Seq<Seq<u8>>, k: int, j: int)
    requires
        is_run(payloads, k),
        0 <= j <= payloads.len(),
        total_len(payloads.take(j)) < MAX_MSG_SIZE,
    ensures
        j <= k,
{
    if k < j {
        lemma_total_len_take_next(payloads, k);
        lemma_total_len_take_monotone(payloads, k + 1, j);
    }
}

/// A sequence of payloads has one run length only.
pub proof fn lemma_run_unique(payloads: Seq<Seq<u8>>, j: int, k: int)
    requires
        is_run(payloads, j),
        is_run(payloads, k),
    ensures
        j == k,
{
    lemma_run_is_longest(payloads, k, j);
    lemma_run_is_longest(payloads, j, k);
}

proof fn lemma_run_exists_from(payloads: Seq<Seq<u8>>, j: int)
    requires
        0 <= j <= payloads.len(),
        total_len(payloads.take(j)) < MAX_MSG_SIZE,
    ensures
        exists|k: int| is_run(payloads, k),
    decreases payloads.len() - j,
{
    if j < payloads.len() && total_len(payloads.take(j)) + payloads[j].len() < MAX_MSG_SIZE {
        lemma_total_len_take_next(payloads, j);
        lemma_run_exists_from(payloads, j + 1);
    } else {
        assert(is_run(payloads, j));
    }
}

/// `run_len` is a run length, and so the only one.
pub proof fn lemma_run_len_is_run(payloads: Seq<Seq<u8>>)
    ensures
        is_run(payloads, run_len(payloads)),
{
    assert(payloads.take(0) =~= Seq::<Seq<u8>>::empty());
    lemma_run_exists_from(payloads, 0);
}

/// Whatever satisfies `is_run` is `run_len`.
pub proof fn lemma_run_len_unique(payloads: Seq<Seq<u8>>, k: int)
    requires
        is_run(payloads, k),
    ensures
        run_len(payloads) == k,
{
    lemma_run_len_is_run(payloads);
    lemma_run_unique(payloads, run_len(payloads), k);
}

/// The first message is empty exactly when there is nothing to send or the
/// first payload is oversized.
pub proof fn lemma_run_len_zero(payloads: Seq<Seq<u8>>)
    ensures
        run_len(payloads) == 0 <==> (payloads.len() == 0 || is_oversized(payloads[0])),
{
    lemma_run_len_is_run(payloads);
    assert(payloads.take(0) =~= Seq::<Seq<u8>>::empty());
    if payloads.len() > 0 {
        lemma_total_len_take_next(payloads, 0);
        if is_oversized(payloads[0]) {
            lemma_run_len_unique(payloads, 0);
        } else {
            lemma_run_is_longest(payloads, run_len(payloads), 1);
        }
    }
}

/// Unfolds `batches` once, where there is a first message.
proof fn lemma_batches_unfold(payloads: Seq<Seq<u8>>)
    ensures
        is_run(payloads, run_len(payloads)),
        run_len(payloads) > 0 ==> batches(payloads) == seq![payloads.take(run_len(payloads))]
            + batches(payloads.skip(run_len(payloads))),
        run_len(payloads) > 0 ==> batches(payloads).len() > 0 && batches(payloads)[0]
            == payloads.take(run_len(payloads)),
        run_len(payloads) == 0 ==> batches(payloads) == Seq::<Seq<Seq<u8>>>::empty(),
        batches(payloads).len() > 0 ==> run_len(payloads) > 0,
{
    lemma_run_len_is_run(payloads);
}

/// Size invariant: every message is below the size limit, and none is empty.
pub proof fn lemma_batches_below_limit(payloads: Seq<Seq<u8>>)
    ensures
        forall|i: int|
            0 <= i < batches(payloads).len() ==> total_len(#[trigger] batches(payloads)[i])
                < MAX_MSG_SIZE,
        forall|i: int|
            0 <= i < batches(payloads).len() ==> (#[trigger] batches(payloads)[i]).len() > 0,
    decreases payloads.len(),
{
    let k = run_len(payloads);
    lemma_batches_unfold(payloads);
    if k > 0 {
        let rest = batches(payloads.skip(k));
        lemma_batches_below_limit(payloads.skip(k));
        assert forall|i: int| 0 <= i < batches(payloads).len() implies total_len(
            #[trigger] batches(payloads)[i],
        ) < MAX_MSG_SIZE && batches(payloads)[i].len() > 0 by {
            if i > 0 {
                assert(batches(payloads)[i] == rest[i - 1]);
            }
        }
    }
}

/// The messages hold, in order, exactly the payloads in front of `stop`,
/// where `stop` is the position of the first oversized payload, or the
/// number of payloads if none is oversized.
pub proof fn lemma_batches_flatten(payloads: Seq<Seq<u8>>, stop: int)
    requires
        0 <= stop <= payloads.len(),
        all_fit(payloads.take(stop)),
        stop < payloads.len() ==> is_oversized(payloads[stop]),
    ensures
        batches(payloads).flatten() == payloads.take(stop),
    decreases payloads.len(),
{
    let k = run_len(payloads);
    lemma_batches_unfold(payloads);
    lemma_run_len_zero(payloads);
    if k > 0 {
        let first = payloads.take(k);
        let rest = payloads.skip(k);
        if stop < k {
            lemma_total_len_bounds_each(first, stop);
        }
        assert forall|j: int| 0 <= j < stop - k implies !is_oversized(
            #[trigger] rest.take(stop - k)[j],
        ) by {
            assert(rest.take(stop - k)[j] == payloads.take(stop)[j + k]);
        }
        lemma_batches_flatten(rest, stop - k);
        lemma_flatten_concat(seq![first], batches(rest));
        seq![first].lemma_flatten_one_element();
        assert(first + rest.take(stop - k) =~= payloads.take(stop));
    } else {
        if stop > 0 {
            assert(payloads.take(stop)[0] == payloads[0]);
        }
        assert(batches(payloads).flatten() =~= payloads.take(stop));
    }
}

/// Order preservation: where no payload is oversized, the messages put end
/// to end are the payloads, each once and in the order given.
pub proof fn lemma_batches_preserve_order(payloads: Seq<Seq<u8>>)
    requires
        all_fit(payloads),
    ensures
        batches(payloads).flatten() == payloads,
{
    assert(payloads.take(payloads.len() as int) =~= payloads);
    lemma_batches_flatten(payloads, payloads.len() as int);
}

/// An oversized payload ends the batching: the messages are those of the
/// payloads in front of it.
pub proof fn lemma_batches_stop(payloads: Seq<Seq<u8>>, stop: int)
    requires
        0 <= stop < payloads.len(),
        all_fit(payloads.take(stop)),
        is_oversized(payloads[stop]),
    ensures
        batches(payloads) == batches(payloads.take(stop)),
    decreases payloads.len(),
{
    let k = run_len(payloads);
    let front = payloads.take(stop);
    lemma_batches_unfold(payloads);
    lemma_batches_unfold(front);
    lemma_run_len_zero(payloads);
    lemma_run_len_zero(front);
    if k > 0 {
        let rest = payloads.skip(k);
        if stop < k {
            lemma_total_len_bounds_each(payloads.take(k), stop);
        }
        assert(front.take(k) =~= payloads.take(k));
        if k < stop {
            assert(front[k] == payloads[k]);
        }
        lemma_run_len_unique(front, k);
        assert(front.skip(k) =~= rest.take(stop - k));
        assert forall|j: int| 0 <= j < stop - k implies !is_oversized(
            #[trigger] rest.take(stop - k)[j],
        ) by {
            assert(rest.take(stop - k)[j] == front[j + k]);
        }
        lemma_batches_stop(rest, stop - k);
    } else {
        if stop > 0 {
            assert(front[0] == payloads[0]);
        }
    }
}

/// Maximality: a message is closed only because the next payload did not
/// fit. For every message but the last, adding the first payload of the
/// message after it would reach the size limit.
pub proof fn lemma_batches_maximal(payloads: Seq<Seq<u8>>)
    ensures
        forall|i: int|
            0 <= i < batches(payloads).len() - 1 ==> total_len(#[trigger] batches(payloads)[i])
                + batches(payloads)[i + 1].first().len() >= MAX_MSG_SIZE,
    decreases payloads.len(),
{
    let k = run_len(payloads);
    lemma_batches_unfold(payloads);
    if k > 0 {
        let rest = payloads.skip(k);
        lemma_batches_unfold(rest);
        lemma_batches_maximal(rest);
        assert forall|i: int| 0 <= i < batches(payloads).len() - 1 implies total_len(
            #[trigger] batches(payloads)[i],
        ) + batches(payloads)[i + 1].first().len() >= MAX_MSG_SIZE by {
            assert(batches(payloads)[i + 1] == batches(rest)[i]);
            if i == 0 {
                assert(batches(rest)[0].first() == payloads[k]);
            } else {
                assert(batches(payloads)[i] == batches(rest)[i - 1]);
            }
        }
    }
}

/// `messages` is a greedy partition of `payloads`: the messages put end to
/// end are the payloads; no message is empty and each is below the size
/// limit; and the first payload of each message after the first would not
/// have fitted in the message before.
pub open spec fn is_greedy(payloads: Seq<Seq<u8>>, messages: Seq<Seq<Seq<u8>>>) -> bool {
    &&& messages.flatten() == payloads
    &&& forall|i: int|
        0 <= i < messages.len() ==> (#[trigger] messages[i]).len() > 0 && total_len(messages[i])
            < MAX_MSG_SIZE
    &&& forall|i: int|
        0 <= i < messages.len() - 1 ==> total_len(#[trigger] messages[i]) + messages[i
            + 1].first().len() >= MAX_MSG_SIZE
}

/// Where no payload is oversized, `batches` is a greedy partition.
pub proof fn lemma_batches_greedy(payloads: Seq<Seq<u8>>)
    requires
        all_fit(payloads),
    ensures
        is_greedy(payloads, batches(payloads)),
{
    lemma_batches_preserve_order(payloads);
    lemma_batches_below_limit(payloads);
    lemma_batches_maximal(payloads);
}

/// Determinism: the payloads fix the messages. Whatever sequence of messages
/// is a greedy partition of `payloads` is `batches(payloads)`.
pub proof fn lemma_greedy_unique(payloads: Seq<Seq<u8>>, messages: Seq<Seq<Seq<u8>>>)
    requires
        is_greedy(payloads, messages),
    ensures
        messages == batches(payloads),
    decreases messages.len(),
{
    lemma_batches_unfold(payloads);
    if messages.len() == 0 {
        lemma_run_len_zero(payloads);
        assert(messages =~= batches(payloads));
    } else {
        let first = messages.first();
        let others = messages.drop_first();
        let k = first.len() as int;
        assert(messages.flatten() == first + others.flatten());
        assert(payloads.take(k) =~= first);
        assert(payloads.skip(k) =~= others.flatten());
        if k < payloads.len() {
            assert(others.len() > 0);
            assert(others.flatten() == others.first() + others.drop_first().flatten());
            assert(others.first() == messages[1]);
            assert(payloads[k] == messages[1].first());
        }
        lemma_run_len_unique(payloads, k);
        assert forall|i: int| 0 <= i < others.len() implies (#[trigger] others[i]).len() > 0
            && total_len(others[i]) < MAX_MSG_SIZE by {
            assert(others[i] == messages[i + 1]);
        }
        assert forall|i: int| 0 <= i < others.len() - 1 implies total_len(#[trigger] others[i])
            + others[i + 1].first().len() >= MAX_MSG_SIZE by {
            assert(others[i] == messages[i + 1]);
            assert(others[i + 1] == messages[i + 2]);
        }
        lemma_greedy_unique(payloads.skip(k), others);
        assert(messages =~= seq![first] + others);
    }
}

proof fn lemma_batches_fewest_from(
    payloads: Seq<Seq<u8>>,
    messages: Seq<Seq<Seq<u8>>>,
    skipped: int,
)
    requires
        0 <= skipped <= messages.flatten().len(),
        payloads == messages.flatten().skip(skipped),
        forall|i: int| 0 <= i < messages.len() ==> total_len(#[trigger] messages[i]) < MAX_MSG_SIZE,
    ensures
        batches(payloads).len() <= messages.len(),
    decreases messages.len(), payloads.len(),
{
    lemma_batches_unfold(payloads);
    if messages.len() == 0 {
        lemma_run_len_zero(payloads);
    } else {
        let first = messages.first();
        let others = messages.drop_first();
        let all = messages.flatten();
        assert(all == first + others.flatten());
        assert forall|i: int| 0 <= i < others.len() implies total_len(#[trigger] others[i])
            < MAX_MSG_SIZE by {
            assert(others[i] == messages[i + 1]);
        }
        if skipped >= first.len() {
            assert(payloads =~= others.flatten().skip(skipped - first.len()));
            lemma_batches_fewest_from(payloads, others, skipped - first.len());
        } else {
            let k = run_len(payloads);
            let head = first.len() - skipped;
            assert(payloads.take(head) =~= first.skip(skipped));
            assert(first =~= first.take(skipped) + first.skip(skipped));
            lemma_total_len_concat(first.take(skipped), first.skip(skipped));
            lemma_run_is_longest(payloads, k, head);
            assert(payloads.skip(k) =~= others.flatten().skip(k - head));
            lemma_batches_fewest_from(payloads.skip(k), others, k - head);
        }
    }
}

/// Fewest messages: no way of cutting `payloads` into consecutive messages
/// below the size limit needs fewer messages than `batches` forms.
pub proof fn lemma_batches_fewest(payloads: Seq<Seq<u8>>, messages: Seq<Seq<Seq<u8>>>)
    requires
        messages.flatten() == payloads,
        forall|i: int| 0 <= i < messages.len() ==> total_len(#[trigger] messages[i]) < MAX_MSG_SIZE,
    ensures
        batches(payloads).len() <= messages.len(),
{
    assert(payloads =~= messages.flatten().skip(0));
    lemma_batches_fewest_from(payloads, messages, 0);
}

} // verus!
