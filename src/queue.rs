use sorted_insert::SortedInsertBy;
use vstd::prelude::*;

use crate::message::{comes_after, Message};

verus! {

/// Index of the last message of `q` that is delivered after `m`, or -1.
pub open spec fn last_after(q: Seq<Message>, m: Message) -> int
    decreases q.len(),
{
    if q.len() == 0 {
        -1
    } else if comes_after(q.last(), m) {
        q.len() - 1
    } else {
        last_after(q.drop_last(), m)
    }
}

/// Where `m` goes in the queue `q`: right after the last message that is
/// delivered after it, so that it leaves after every message of the same rank
/// that is already queued.
pub open spec fn insertion_index(q: Seq<Message>, m: Message) -> int {
    last_after(q, m) + 1
}

/// The queue is kept in delivery order read from the tail: no message is
/// delivered after a message that stands nearer the head.
pub open spec fn queue_sorted(q: Seq<Message>) -> bool {
    forall|i: int, j: int| 0 <= i < j < q.len() ==> !comes_after(#[trigger] q[j], #[trigger] q[i])
}

/// `q` with `m` put in its place.
pub open spec fn queue_insert(q: Seq<Message>, m: Message) -> Seq<Message> {
    q.insert(insertion_index(q, m), m)
}

/// `q` with each message of `ms` put in its place, in order.
pub open spec fn queue_insert_all(q: Seq<Message>, ms: Seq<Message>) -> Seq<Message>
    decreases ms.len(),
{
    if ms.len() == 0 {
        q
    } else {
        queue_insert(queue_insert_all(q, ms.drop_last()), ms.last())
    }
}

/// Relies on sorted_insert's `SortedInsertBy::sorted_insert_by` for `Vec`: it
/// finds the last element for which the predicate holds (`rposition`), and
/// inserts the new element right after it, or at the front when there is none.
#[verifier::external_body]
fn sorted_insert_after_last_later(queue: &mut Vec<Message>, msg: Message)
    ensures
        final(queue)@ == queue_insert(old(queue)@, msg),
{
    queue.sorted_insert_by(msg, |e, m| e.comes_after(m));
}

proof fn lemma_last_after(q: Seq<Message>, m: Message)
    ensures
        -1 <= last_after(q, m) < q.len(),
        last_after(q, m) >= 0 ==> comes_after(q[last_after(q, m)], m),
        forall|j: int| last_after(q, m) < j < q.len() ==> !comes_after(#[trigger] q[j], m),
    decreases q.len(),
{
    if q.len() > 0 && !comes_after(q.last(), m) {
        lemma_last_after(q.drop_last(), m);
        assert forall|j: int| last_after(q, m) < j < q.len() implies !comes_after(
            #[trigger] q[j],
            m,
        ) by {
            if j < q.len() - 1 {
                assert(q[j] == q.drop_last()[j]);
            }
        }
    }
}

/// A message's place lies within the queue or right after it.
pub proof fn lemma_insert_index_bounds(q: Seq<Message>, m: Message)
    ensures
        0 <= insertion_index(q, m) <= q.len(),
{
    lemma_last_after(q, m);
}

/// Putting a message in its place keeps the queue in delivery order.
pub proof fn lemma_insert_keeps_order(q: Seq<Message>, m: Message)
    requires
        queue_sorted(q),
    ensures
        queue_sorted(queue_insert(q, m)),
        queue_insert(q, m).len() == q.len() + 1,
        0 <= insertion_index(q, m) <= q.len(),
{
    lemma_last_after(q, m);
    let k = insertion_index(q, m);
    let r = queue_insert(q, m);
    assert forall|i: int, j: int| 0 <= i < j < r.len() implies !comes_after(
        #[trigger] r[j],
        #[trigger] r[i],
    ) by {
        if i < k && j == k {
            if comes_after(m, q[i]) {
                assert(!comes_after(q[k - 1], q[i]) || i == k - 1);
            }
        } else if i < k && j > k {
            assert(r[j] == q[j - 1]);
        } else if i == k {
            assert(r[j] == q[j - 1]);
        } else if i > k {
            assert(r[i] == q[i - 1] && r[j] == q[j - 1]);
        }
    }
}

/// Puts `msg` in its place in `queue`.
pub fn insert_in_order(queue: &mut Vec<Message>, msg: Message)
    ensures
        final(queue)@ == queue_insert(old(queue)@, msg),
        queue_sorted(old(queue)@) ==> queue_sorted(final(queue)@),
{
    proof {
        if queue_sorted(queue@) {
            lemma_insert_keeps_order(queue@, msg);
        }
    }
    sorted_insert_after_last_later(queue, msg);
}

} // verus!
