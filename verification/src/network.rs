//! The network model: per-pair delay queues with probabilistic, strictly
//! in-order delivery and a hard delivery deadline.

use vstd::prelude::*;
use crate::message::Message;
use crate::name::Name;
use crate::random::do_with_ratio;

verus! {

/// The messages of one (sender, recipient) pair, grouped by send step.
pub type ConnQueue = Vec<(u64, Vec<Message>)>;

/// All messages of a pair queue, flattened in send order.
pub open spec fn queue_flat(q: Seq<(u64, Vec<Message>)>) -> Seq<Message>
    decreases q.len(),
{
    if q.len() == 0 {
        Seq::empty()
    } else {
        q[0].1@ + queue_flat(q.drop_first())
    }
}

/// Entries are in strictly increasing send-step order.
pub open spec fn queue_sorted(q: Seq<(u64, Vec<Message>)>) -> bool {
    forall|i: int, j: int| 0 <= i < j < q.len() ==> q[i].0 < q[j].0
}

/// Every entry's send step lies in `[lo, hi]`.
pub open spec fn queue_steps_in(q: Seq<(u64, Vec<Message>)>, lo: int, hi: int) -> bool {
    forall|k: int| 0 <= k < q.len() ==> lo <= (#[trigger] q[k]).0 <= hi
}

/// Appending an entry appends its messages to the flattened view.
pub proof fn lemma_queue_flat_push(q: Seq<(u64, Vec<Message>)>, e: (u64, Vec<Message>))
    ensures
        queue_flat(q.push(e)) == queue_flat(q) + e.1@,
    decreases q.len(),
{
    assert(q.push(e)[0] == if q.len() == 0 {
        e
    } else {
        q[0]
    });
    if q.len() == 0 {
        assert(q.push(e).drop_first() =~= Seq::<(u64, Vec<Message>)>::empty());
        assert(queue_flat(q.push(e).drop_first()) =~= Seq::<Message>::empty());
        assert(queue_flat(q.push(e)) =~= queue_flat(q) + e.1@);
    } else {
        assert(q.push(e).drop_first() =~= q.drop_first().push(e));
        lemma_queue_flat_push(q.drop_first(), e);
        assert(queue_flat(q.push(e)) =~= queue_flat(q) + e.1@);
    }
}

/// The message belongs to the (sender, recipient) pair.
pub open spec fn is_pair_msg(m: Message, s: Name, r: Name) -> bool {
    m.sender == s && m.recipient == r
}

/// Every message in the queue carries the pair's own sender and
/// recipient.
pub open spec fn queue_keyed(q: Seq<(u64, Vec<Message>)>, s: Name, r: Name) -> bool {
    forall|k: int, m: int|
        0 <= k < q.len() && 0 <= m < q[k].1@.len() ==> is_pair_msg(
            #[trigger] q[k].1@[m],
            s,
            r,
        )
}

/// Every position of a keyed queue's flattening carries the key.
pub proof fn lemma_flat_keyed(q: Seq<(u64, Vec<Message>)>, s: Name, r: Name)
    requires
        queue_keyed(q, s, r),
    ensures
        forall|j: int| 0 <= j < queue_flat(q).len() ==> is_pair_msg(#[trigger] queue_flat(q)[j], s, r),
    decreases q.len(),
{
    if q.len() > 0 {
        let tail = q.drop_first();
        assert(queue_keyed(tail, s, r)) by {
            assert forall|k: int, m: int|
                0 <= k < tail.len() && 0 <= m < tail[k].1@.len() implies is_pair_msg(
                #[trigger] tail[k].1@[m],
                s,
                r,
            ) by {
                assert(tail[k] == q[k + 1]);
                assert(is_pair_msg(q[k + 1].1@[m], s, r));
            }
        }
        lemma_flat_keyed(tail, s, r);
        assert forall|j: int|
            0 <= j < queue_flat(q).len() implies is_pair_msg(
            #[trigger] queue_flat(q)[j],
            s,
            r,
        ) by {
            if j < q[0].1@.len() {
                assert(queue_flat(q)[j] == q[0].1@[j]);
                assert(is_pair_msg(q[0].1@[j], s, r));
            } else {
                assert(queue_flat(q)[j] == queue_flat(tail)[j - q[0].1@.len()]);
            }
        }
    }
}

/// A sequence whose every element satisfies the filter is its own filter.
pub proof fn lemma_filter_all_msgs(s: Seq<Message>, pred: spec_fn(Message) -> bool)
    requires
        forall|j: int| 0 <= j < s.len() ==> pred(#[trigger] s[j]),
    ensures
        s.filter(pred) == s,
    decreases s.len(),
{
    reveal(Seq::filter);
    if s.len() > 0 {
        assert forall|j: int| 0 <= j < s.drop_last().len() implies pred(
            #[trigger] s.drop_last()[j],
        ) by {
            assert(s.drop_last()[j] == s[j]);
        }
        lemma_filter_all_msgs(s.drop_last(), pred);
        assert(pred(s[s.len() - 1]));
        assert(s.filter(pred) =~= s);
    }
}

/// A sequence none of whose elements satisfies the filter filters to
/// nothing.
pub proof fn lemma_filter_none_msgs(s: Seq<Message>, pred: spec_fn(Message) -> bool)
    requires
        forall|j: int| 0 <= j < s.len() ==> !pred(#[trigger] s[j]),
    ensures
        s.filter(pred) == Seq::<Message>::empty(),
    decreases s.len(),
{
    reveal(Seq::filter);
    if s.len() > 0 {
        assert forall|j: int| 0 <= j < s.drop_last().len() implies !pred(
            #[trigger] s.drop_last()[j],
        ) by {
            assert(s.drop_last()[j] == s[j]);
        }
        lemma_filter_none_msgs(s.drop_last(), pred);
        assert(!pred(s[s.len() - 1]));
        assert(s.filter(pred) =~= Seq::<Message>::empty());
    }
}

/// Deliver due messages from a single pair's queue. Messages leave
/// strictly in send order: the delivered messages are a prefix of the
/// flattened queue and the rest stays queued, so no message overtakes
/// another on its pair (in-order delivery). When the oldest entry has
/// reached its deadline (`end_step >= max_delay` and it was sent at
/// `start_step`), it is delivered in full: nothing survives longer than
/// `max_delay` steps. Which later messages ship is decided by coin flips
/// with probability `prob_num / prob_den`, so only order and deadline are
/// promised of the outcome.
pub fn receive_from_conn(
    conn: &mut ConnQueue,
    prob_num: u32,
    prob_den: u32,
    max_delay: u64,
    start_step: u64,
    end_step: u64,
) -> (delivered: Vec<Message>)
    requires
        queue_sorted(old(conn)@),
        queue_steps_in(old(conn)@, start_step as int, end_step as int),
        prob_den > 0,
        prob_num <= prob_den,
    ensures
        delivered@ + queue_flat(final(conn)@) == queue_flat(old(conn)@),
        queue_sorted(final(conn)@),
        queue_steps_in(final(conn)@, start_step as int, end_step as int),
        end_step >= max_delay ==> forall|k: int|
            0 <= k < final(conn)@.len() ==> (#[trigger] final(conn)@[k]).0 > start_step,
{
    let ghost g = queue_flat(old(conn)@);
    let mut delivered: Vec<Message> = Vec::new();
    let mut rest: ConnQueue = Vec::new();
    let mut blocked = false;
    while conn.len() > 0
        invariant
            prob_den > 0,
            prob_num <= prob_den,
            queue_sorted(conn@),
            queue_sorted(rest@),
            queue_steps_in(conn@, start_step as int, end_step as int),
            queue_steps_in(rest@, start_step as int, end_step as int),
            rest@.len() > 0 && conn@.len() > 0 ==> rest@.last().0 < conn@[0].0,
            delivered@ + queue_flat(rest@) + queue_flat(conn@) == g,
            !blocked ==> rest@.len() == 0,
            blocked ==> rest@.len() > 0,
            end_step >= max_delay ==> forall|k: int|
                0 <= k < rest@.len() ==> (#[trigger] rest@[k]).0 > start_step,
        decreases conn@.len(),
    {
        let ghost pre_conn = conn@;
        let (st, mut msgs) = conn.remove(0);
        proof {
            assert(conn@ =~= pre_conn.drop_first());
            assert(queue_flat(pre_conn) == pre_conn[0].1@ + queue_flat(pre_conn.drop_first()));
        }
        if blocked {
            proof {
                assert(st == pre_conn[0].0);
                if end_step >= max_delay {
                    assert(rest@.last().0 > start_step);
                }
            }
            let ghost pre_rest = rest@;
            rest.push((st, msgs));
            proof {
                lemma_queue_flat_push(pre_rest, rest@.last());
                assert(delivered@ + queue_flat(rest@) + queue_flat(conn@) =~= g);
            }
        } else if st == start_step && end_step >= max_delay {
            // Deadline reached: force-deliver the whole batch.
            let ghost pre_del = delivered@;
            let ghost batch = msgs@;
            let total = msgs.len();
            let mut j: usize = 0;
            while j < total
                invariant
                    j <= total,
                    total == batch.len(),
                    delivered@ == pre_del + batch.take(j as int),
                    msgs@ == batch.skip(j as int),
                decreases total - j,
            {
                let ghost pre_m = msgs@;
                let m = msgs.remove(0);
                delivered.push(m);
                j = j + 1;
                proof {
                    assert(msgs@ =~= pre_m.drop_first());
                    assert(pre_m[0] == batch[j - 1]);
                    assert(delivered@ =~= pre_del + batch.take(j as int));
                    assert(msgs@ =~= batch.skip(j as int));
                }
            }
            proof {
                assert(batch.take(total as int) =~= batch);
                assert(delivered@ =~= pre_del + batch);
                assert(delivered@ + queue_flat(rest@) + queue_flat(conn@) =~= g);
            }
        } else {
            // Count a run of successful coin flips, then ship that many
            // messages from the front of the batch.
            let mut num_delivered: usize = 0;
            while num_delivered < msgs.len() && do_with_ratio(prob_num, prob_den)
                invariant
                    prob_den > 0,
                    prob_num <= prob_den,
                    num_delivered <= msgs@.len(),
                decreases msgs@.len() - num_delivered,
            {
                num_delivered = num_delivered + 1;
            }
            let ghost pre_del = delivered@;
            let ghost batch = msgs@;
            let ghost k = num_delivered as int;
            let mut j: usize = 0;
            while j < num_delivered
                invariant
                    j <= num_delivered,
                    num_delivered <= batch.len(),
                    k == num_delivered as int,
                    delivered@ == pre_del + batch.take(j as int),
                    msgs@ == batch.skip(j as int),
                decreases num_delivered - j,
            {
                let ghost pre_m = msgs@;
                let m = msgs.remove(0);
                delivered.push(m);
                j = j + 1;
                proof {
                    assert(msgs@ =~= pre_m.drop_first());
                    assert(pre_m[0] == batch[j - 1]);
                    assert(delivered@ =~= pre_del + batch.take(j as int));
                    assert(msgs@ =~= batch.skip(j as int));
                }
            }
            if msgs.len() > 0 {
                // Something stayed behind: later sends must wait.
                blocked = true;
                proof {
                    assert(st == pre_conn[0].0);
                    assert(st >= start_step);
                    if end_step >= max_delay {
                        assert(st != start_step);
                    }
                }
                let ghost pre_rest = rest@;
                rest.push((st, msgs));
                proof {
                    lemma_queue_flat_push(pre_rest, rest@.last());
                    assert(batch =~= batch.take(k) + batch.skip(k));
                    assert(delivered@ + queue_flat(rest@) + queue_flat(conn@) =~= g);
                }
            } else {
                proof {
                    assert(batch.take(k) =~= batch);
                    assert(delivered@ + queue_flat(rest@) + queue_flat(conn@) =~= g);
                }
            }
        }
    }
    proof {
        assert(queue_flat(conn@) =~= Seq::<Message>::empty());
        assert(delivered@ + queue_flat(rest@) =~= g);
    }
    *conn = rest;
    delivered
}

/// The in-process network: one delay queue per ordered (sender,
/// recipient) pair.
pub struct Network {
    /// Steps before a message is guaranteed delivered.
    pub max_delay: u64,
    /// Numerator of the per-step delivery probability.
    pub prob_num: u32,
    /// Denominator of the per-step delivery probability.
    pub prob_den: u32,
    /// The queues, keyed by (sender, recipient).
    pub queues: Vec<((Name, Name), ConnQueue)>,
}

/// The pair list holds a queue for this key.
pub open spec fn pairs_has(qs: Seq<((Name, Name), ConnQueue)>, s: Name, r: Name) -> bool {
    exists|i: int| 0 <= i < qs.len() && (#[trigger] qs[i]).0 == (s, r)
}

/// The index of this key's queue.
pub open spec fn pairs_at(qs: Seq<((Name, Name), ConnQueue)>, s: Name, r: Name) -> int {
    choose|i: int| 0 <= i < qs.len() && (#[trigger] qs[i]).0 == (s, r)
}

/// Everything queued for the pair, flattened in send order; empty when
/// the pair has no queue.
pub open spec fn pairs_flat(qs: Seq<((Name, Name), ConnQueue)>, s: Name, r: Name) -> Seq<
    Message,
> {
    if pairs_has(qs, s, r) {
        queue_flat(qs[pairs_at(qs, s, r)].1@)
    } else {
        Seq::empty()
    }
}

/// With unique keys, index `i` is its own key's queue.
pub proof fn lemma_pairs_at(qs: Seq<((Name, Name), ConnQueue)>, i: int)
    requires
        forall|a: int, b: int| 0 <= a < b < qs.len() ==> (#[trigger] qs[a]).0 != (#[trigger] qs[b]).0,
        0 <= i < qs.len(),
    ensures
        pairs_has(qs, qs[i].0.0, qs[i].0.1),
        pairs_at(qs, qs[i].0.0, qs[i].0.1) == i,
        pairs_flat(qs, qs[i].0.0, qs[i].0.1) == queue_flat(qs[i].1@),
{
    assert(qs[i].0 == (qs[i].0.0, qs[i].0.1));
    assert(pairs_has(qs, qs[i].0.0, qs[i].0.1));
    let j = pairs_at(qs, qs[i].0.0, qs[i].0.1);
    if j != i {
        assert(qs[i].0 != qs[j].0 || qs[j].0 != qs[i].0);
    }
}

/// Replacing one queue, key kept, leaves every other pair's flattening
/// unchanged.
pub proof fn lemma_pairs_update(
    qs1: Seq<((Name, Name), ConnQueue)>,
    qs2: Seq<((Name, Name), ConnQueue)>,
    i: int,
)
    requires
        forall|a: int, b: int|
            0 <= a < b < qs1.len() ==> (#[trigger] qs1[a]).0 != (#[trigger] qs1[b]).0,
        0 <= i < qs1.len(),
        qs2.len() == qs1.len(),
        forall|j: int| 0 <= j < qs1.len() ==> (#[trigger] qs2[j]).0 == qs1[j].0,
        forall|j: int| 0 <= j < qs1.len() && j != i ==> (#[trigger] qs2[j]).1 == qs1[j].1,
    ensures
        forall|s: Name, r: Name|
            (s, r) != qs1[i].0 ==> #[trigger] pairs_flat(qs2, s, r) == pairs_flat(qs1, s, r),
        pairs_flat(qs2, qs1[i].0.0, qs1[i].0.1) == queue_flat(qs2[i].1@),
{
    assert forall|a: int, b: int|
        0 <= a < b < qs2.len() implies (#[trigger] qs2[a]).0 != (#[trigger] qs2[b]).0 by {
        assert(qs1[a].0 != qs1[b].0);
    }
    lemma_pairs_at(qs2, i);
    assert(qs2[i].0 == qs1[i].0);
    assert forall|s: Name, r: Name|
        (s, r) != qs1[i].0 implies #[trigger] pairs_flat(qs2, s, r) == pairs_flat(
        qs1,
        s,
        r,
    ) by {
        if pairs_has(qs1, s, r) {
            let j = pairs_at(qs1, s, r);
            assert(qs1[j].0 == (s, r));
            assert(j != i);
            assert(qs2[j].0 == (s, r));
            lemma_pairs_at(qs2, j);
            lemma_pairs_at(qs1, j);
            assert(qs2[j].1 == qs1[j].1);
        } else {
            if pairs_has(qs2, s, r) {
                let j = pairs_at(qs2, s, r);
                assert(qs2[j].0 == (s, r));
                assert(qs1[j].0 == (s, r));
                assert(pairs_has(qs1, s, r));
            }
        }
    }
}

/// Appending a fresh pair leaves the others unchanged, and the new pair's
/// flattening is the new queue's.
pub proof fn lemma_pairs_push(
    qs1: Seq<((Name, Name), ConnQueue)>,
    qs2: Seq<((Name, Name), ConnQueue)>,
)
    requires
        forall|a: int, b: int|
            0 <= a < b < qs1.len() ==> (#[trigger] qs1[a]).0 != (#[trigger] qs1[b]).0,
        qs2.len() == qs1.len() + 1,
        forall|j: int| 0 <= j < qs1.len() ==> #[trigger] qs2[j] == qs1[j],
        !pairs_has(qs1, qs2[qs1.len() as int].0.0, qs2[qs1.len() as int].0.1),
    ensures
        forall|s: Name, r: Name|
            (s, r) != qs2[qs1.len() as int].0 ==> #[trigger] pairs_flat(qs2, s, r) == pairs_flat(
                qs1,
                s,
                r,
            ),
        pairs_flat(qs2, qs2[qs1.len() as int].0.0, qs2[qs1.len() as int].0.1) == queue_flat(
            qs2[qs1.len() as int].1@,
        ),
        pairs_flat(qs1, qs2[qs1.len() as int].0.0, qs2[qs1.len() as int].0.1) == Seq::<
            Message,
        >::empty(),
{
    let newkey = qs2[qs1.len() as int].0;
    assert forall|a: int, b: int|
        0 <= a < b < qs2.len() implies (#[trigger] qs2[a]).0 != (#[trigger] qs2[b]).0 by {
        if b < qs1.len() {
            assert(qs1[a].0 != qs1[b].0);
        } else {
            assert(qs2[a] == qs1[a]);
            if qs1[a].0 == newkey {
                assert(newkey == (newkey.0, newkey.1));
                assert(pairs_has(qs1, newkey.0, newkey.1));
            }
        }
    }
    lemma_pairs_at(qs2, qs1.len() as int);
    assert forall|s: Name, r: Name|
        (s, r) != newkey implies #[trigger] pairs_flat(qs2, s, r) == pairs_flat(qs1, s, r) by {
        if pairs_has(qs1, s, r) {
            let j = pairs_at(qs1, s, r);
            assert(qs1[j].0 == (s, r));
            assert(qs2[j].0 == (s, r));
            lemma_pairs_at(qs2, j);
            lemma_pairs_at(qs1, j);
        } else {
            if pairs_has(qs2, s, r) {
                let j = pairs_at(qs2, s, r);
                assert(qs2[j].0 == (s, r));
                if j < qs1.len() {
                    assert(qs1[j].0 == (s, r));
                    assert(pairs_has(qs1, s, r));
                } else {
                    assert((s, r) == newkey);
                }
            }
        }
    }
}

/// A queue whose flattening is keyed throughout is keyed entry by entry.
pub proof fn lemma_keyed_from_flat(q: Seq<(u64, Vec<Message>)>, s: Name, r: Name)
    requires
        forall|j: int|
            0 <= j < queue_flat(q).len() ==> is_pair_msg(#[trigger] queue_flat(q)[j], s, r),
    ensures
        queue_keyed(q, s, r),
    decreases q.len(),
{
    if q.len() > 0 {
        let tail = q.drop_first();
        assert forall|j: int|
            0 <= j < queue_flat(tail).len() implies is_pair_msg(
            #[trigger] queue_flat(tail)[j],
            s,
            r,
        ) by {
            assert(queue_flat(q)[q[0].1@.len() + j] == queue_flat(tail)[j]);
        }
        lemma_keyed_from_flat(tail, s, r);
        assert forall|k: int, m: int|
            0 <= k < q.len() && 0 <= m < q[k].1@.len() implies is_pair_msg(
            #[trigger] q[k].1@[m],
            s,
            r,
        ) by {
            if k == 0 {
                assert(queue_flat(q)[m] == q[0].1@[m]);
            } else {
                assert(tail[k - 1] == q[k]);
                assert(is_pair_msg(tail[k - 1].1@[m], s, r));
            }
        }
    }
}


impl Network {
    /// Keys unique, each queue ordered by send step, probability sane.
    pub open spec fn wf(self) -> bool {
        &&& self.prob_den > 0
        &&& self.prob_num <= self.prob_den
        &&& forall|i: int, j: int|
            0 <= i < j < self.queues@.len() ==> (#[trigger] self.queues@[i]).0 != (
            #[trigger] self.queues@[j]).0
        &&& forall|i: int| 0 <= i < self.queues@.len() ==> queue_sorted((#[trigger] self.queues@[i]).1@)
        &&& forall|i: int|
            0 <= i < self.queues@.len() ==> queue_keyed(
                (#[trigger] self.queues@[i]).1@,
                self.queues@[i].0.0,
                self.queues@[i].0.1,
            )
    }

    /// Everything queued from `s` to `r`, flattened in send order.
    pub open spec fn net_pair_flat(self, s: Name, r: Name) -> Seq<Message> {
        pairs_flat(self.queues@, s, r)
    }

    /// Every queued message was sent no earlier than `lo` and no later
    /// than `hi`.
    pub open spec fn steps_in(self, lo: int, hi: int) -> bool {
        forall|i: int| 0 <= i < self.queues@.len() ==> queue_steps_in((#[trigger] self.queues@[i]).1@, lo, hi)
    }

    /// A fresh network with the given deadline and per-step delivery
    /// probability.
    pub fn new(max_delay: u64, prob_num: u32, prob_den: u32) -> (r: Network)
        requires
            prob_den > 0,
            prob_num <= prob_den,
        ensures
            r.wf(),
            r.max_delay == max_delay,
            r.prob_num == prob_num,
            r.prob_den == prob_den,
            r.queues@.len() == 0,
    {
        Network { max_delay, prob_num, prob_den, queues: Vec::new() }
    }

    /// Deliver the messages due at `step`. Per pair, the delivered
    /// messages (in order) are exactly the prefix taken off that pair's
    /// queue: nothing is lost, duplicated or reordered. Nothing sent at
    /// or before `step - max_delay` stays behind.
    pub fn receive(&mut self, step: u64) -> (delivered: Vec<Message>)
        requires
            old(self).wf(),
            old(self).steps_in(
                if step >= old(self).max_delay {
                    step - old(self).max_delay
                } else {
                    0
                },
                step as int,
            ),
        ensures
            final(self).wf(),
            final(self).max_delay == old(self).max_delay,
            final(self).prob_num == old(self).prob_num,
            final(self).prob_den == old(self).prob_den,
            final(self).steps_in(
                if step >= old(self).max_delay {
                    step - old(self).max_delay + 1
                } else {
                    0
                },
                step as int,
            ),
            forall|s: Name, r: Name|
                delivered@.filter(|m: Message| is_pair_msg(m, s, r))
                    + final(self).net_pair_flat(s, r) == #[trigger] old(self).net_pair_flat(
                    s,
                    r,
                ),
    {
        let start_step = if step >= self.max_delay {
            step - self.max_delay
        } else {
            0
        };
        let mut delivered: Vec<Message> = Vec::new();
        proof {
            assert forall|s: Name, r: Name|
                delivered@.filter(|m: Message| is_pair_msg(m, s, r)) + self.net_pair_flat(s, r)
                    =~= #[trigger] old(self).net_pair_flat(s, r) by {
                assert(delivered@ =~= Seq::<Message>::empty());
                reveal(Seq::filter);
            }
        }
        let mut i: usize = 0;
        while i < self.queues.len()
            invariant
                self.prob_den > 0,
                self.prob_num <= self.prob_den,
                self.prob_num == old(self).prob_num,
                self.prob_den == old(self).prob_den,
                self.max_delay == old(self).max_delay,
                start_step == if step >= self.max_delay {
                    step - self.max_delay
                } else {
                    0
                },
                i <= self.queues@.len(),
                forall|a: int, b: int|
                    0 <= a < b < self.queues@.len() ==> (#[trigger] self.queues@[a]).0 != (
                    #[trigger] self.queues@[b]).0,
                forall|a: int|
                    0 <= a < self.queues@.len() ==> queue_sorted((#[trigger] self.queues@[a]).1@),
                forall|a: int|
                    0 <= a < self.queues@.len() ==> queue_keyed(
                        (#[trigger] self.queues@[a]).1@,
                        self.queues@[a].0.0,
                        self.queues@[a].0.1,
                    ),
                forall|a: int|
                    0 <= a < self.queues@.len() ==> queue_steps_in(
                        (#[trigger] self.queues@[a]).1@,
                        start_step as int,
                        step as int,
                    ),
                forall|a: int, k: int|
                    0 <= a < i && 0 <= k < (#[trigger] self.queues@[a]).1@.len() ==> (
                    #[trigger] self.queues@[a].1@[k]).0 + self.max_delay > step,
                forall|s: Name, r: Name|
                    delivered@.filter(|m: Message| is_pair_msg(m, s, r)) + self.net_pair_flat(
                        s,
                        r,
                    ) == #[trigger] old(self).net_pair_flat(s, r),
            decreases self.queues@.len() - i,
        {
            let ghost pre = self.queues@;
            let ghost predelivered = delivered@;
            let (key, mut q) = self.queues.remove(i);
            let ghost qold = q@;
            let mut got = receive_from_conn(
                &mut q,
                self.prob_num,
                self.prob_den,
                self.max_delay,
                start_step,
                step,
            );
            let ghost gbatch = got@;
            proof {
                assert forall|k: int| 0 <= k < q@.len() implies (#[trigger] q@[k]).0
                    + self.max_delay > step by {
                    assert(q@[k].0 >= start_step);
                    if step >= self.max_delay {
                        assert(q@[k].0 > start_step);
                    }
                }
                // Everything that left, and everything that stayed,
                // carries this pair's key.
                lemma_flat_keyed(qold, key.0, key.1);
                assert forall|j: int|
                    0 <= j < gbatch.len() implies is_pair_msg(
                    #[trigger] gbatch[j],
                    key.0,
                    key.1,
                ) by {
                    assert(gbatch[j] == queue_flat(qold)[j]);
                }
                assert forall|j: int|
                    0 <= j < queue_flat(q@).len() implies is_pair_msg(
                    #[trigger] queue_flat(q@)[j],
                    key.0,
                    key.1,
                ) by {
                    assert(queue_flat(q@)[j] == queue_flat(qold)[gbatch.len() + j]);
                }
                lemma_keyed_from_flat(q@, key.0, key.1);
            }
            self.queues.insert(i, (key, q));
            while got.len() > 0
                invariant
                    got@.len() <= gbatch.len(),
                    delivered@ == predelivered + gbatch.take(gbatch.len() - got@.len()),
                    got@ == gbatch.skip(gbatch.len() - got@.len()),
                decreases got@.len(),
            {
                let ghost pre_g = got@;
                let ghost d = gbatch.len() - pre_g.len();
                let m = got.remove(0);
                delivered.push(m);
                proof {
                    assert(0 <= d < gbatch.len());
                    assert(got@ =~= pre_g.drop_first());
                    assert(pre_g == gbatch.skip(d as int));
                    assert(pre_g[0] == gbatch.skip(d as int)[0]);
                    assert(gbatch.skip(d as int)[0] == gbatch[d as int]);
                    assert(m == gbatch[d as int]);
                    assert(delivered@ =~= predelivered + gbatch.take(d + 1 as int));
                    assert(got@ =~= gbatch.skip(d + 1 as int));
                }
            }
            proof {
                assert(gbatch.take(gbatch.len() as int) =~= gbatch);
                assert(delivered@ == predelivered + gbatch);
                assert(self.queues@ =~= pre.update(i as int, (key, q)));
                lemma_pairs_at(pre, i as int);
                lemma_pairs_update(pre, self.queues@, i as int);
                assert(pre[i as int].0 == key);
                assert forall|s: Name, r: Name|
                    delivered@.filter(|m: Message| is_pair_msg(m, s, r)) + self.net_pair_flat(
                        s,
                        r,
                    ) == #[trigger] old(self).net_pair_flat(s, r) by {
                    let p = |m: Message| is_pair_msg(m, s, r);
                    Seq::filter_distributes_over_add(predelivered, gbatch, p);
                    if (s, r) == key {
                        lemma_filter_all_msgs(gbatch, p);
                        assert(pairs_flat(pre, s, r) == queue_flat(qold));
                        assert(self.net_pair_flat(s, r) == queue_flat(q@));
                        assert(predelivered.filter(p) + queue_flat(qold) == old(
                            self,
                        ).net_pair_flat(s, r));
                        assert(delivered@.filter(p) + self.net_pair_flat(s, r)
                            =~= predelivered.filter(p) + gbatch + queue_flat(q@));
                        assert(gbatch + queue_flat(q@) =~= queue_flat(qold));
                        assert(delivered@.filter(p) + self.net_pair_flat(s, r)
                            =~= predelivered.filter(p) + queue_flat(qold));
                    } else {
                        assert forall|j: int| 0 <= j < gbatch.len() implies !p(
                            #[trigger] gbatch[j],
                        ) by {
                            assert(is_pair_msg(gbatch[j], key.0, key.1));
                            if p(gbatch[j]) {
                                assert(key.0 == s && key.1 == r);
                                assert(key == (s, r));
                            }
                        }
                        lemma_filter_none_msgs(gbatch, p);
                        assert(delivered@.filter(p) =~= predelivered.filter(p)
                            + Seq::<Message>::empty());
                        assert(delivered@.filter(p) =~= predelivered.filter(p));
                        assert(self.net_pair_flat(s, r) == pairs_flat(pre, s, r));
                    }
                }
            }
            i = i + 1;
        }
        delivered
    }

    /// Queue the given messages as sent at `step`, each on its (sender,
    /// recipient) pair, in the order given: afterwards every pair's queue
    /// holds exactly what it held before, followed by this call's
    /// messages for that pair. Messages already queued keep their send
    /// steps, so any lower bound `lo` on queued send steps that admits
    /// `step` itself is preserved.
    pub fn send(&mut self, step: u64, messages: Vec<Message>, Ghost(lo): Ghost<int>)
        requires
            old(self).wf(),
            old(self).steps_in(lo, step as int),
            lo <= step as int,
        ensures
            final(self).wf(),
            final(self).steps_in(lo, step as int),
            final(self).max_delay == old(self).max_delay,
            final(self).prob_num == old(self).prob_num,
            final(self).prob_den == old(self).prob_den,
            forall|s: Name, r: Name|
                final(self).net_pair_flat(s, r) == #[trigger] old(self).net_pair_flat(s, r)
                    + messages@.filter(|m: Message| is_pair_msg(m, s, r)),
    {
        let ghost orig = messages@;
        let mut rest = messages;
        proof {
            assert forall|s: Name, r: Name|
                self.net_pair_flat(s, r) =~= #[trigger] old(self).net_pair_flat(s, r)
                    + orig.take(0).filter(|m: Message| is_pair_msg(m, s, r)) by {
                assert(orig.take(0) =~= Seq::<Message>::empty());
                reveal(Seq::filter);
            }
        }
        while rest.len() > 0
            invariant
                self.wf(),
                self.steps_in(lo, step as int),
                lo <= step as int,
                self.max_delay == old(self).max_delay,
                self.prob_num == old(self).prob_num,
                self.prob_den == old(self).prob_den,
                rest@.len() <= orig.len(),
                rest@ == orig.skip(orig.len() - rest@.len()),
                forall|s: Name, r: Name|
                    self.net_pair_flat(s, r) == #[trigger] old(self).net_pair_flat(s, r)
                        + orig.take(orig.len() - rest@.len()).filter(
                        |m: Message| is_pair_msg(m, s, r),
                    ),
            decreases rest@.len(),
        {
            let ghost pre_rest = rest@;
            let ghost d = orig.len() - pre_rest.len();
            let ghost prenet = *self;
            let m = rest.remove(0);
            proof {
                assert(0 <= d < orig.len());
                assert(rest@ =~= pre_rest.drop_first());
                assert(pre_rest == orig.skip(d as int));
                assert(pre_rest[0] == orig.skip(d as int)[0]);
                assert(orig.skip(d as int)[0] == orig[d as int]);
                assert(m == orig[d as int]);
                assert(rest@ =~= orig.skip(d + 1 as int));
                assert(orig.take(d + 1 as int) =~= orig.take(d as int).push(m));
            }
            let sender = m.sender;
            let recipient = m.recipient;
            // Find this pair's queue, if it exists.
            let mut qi: usize = 0;
            let mut found = false;
            while qi < self.queues.len() && !found
                invariant
                    qi <= self.queues@.len(),
                    found ==> qi < self.queues@.len() && self.queues@[qi as int].0 == (
                    sender,
                    recipient,
                ),
                    !found ==> forall|a: int|
                        0 <= a < qi ==> (#[trigger] self.queues@[a]).0 != (sender, recipient),
                decreases self.queues@.len() - qi + (if found {
                    0int
                } else {
                    1int
                }),
            {
                if self.queues[qi].0.0 == sender && self.queues[qi].0.1 == recipient {
                    found = true;
                } else {
                    qi = qi + 1;
                }
            }
            if found {
                let ghost pre = self.queues@;
                let (key, mut q) = self.queues.remove(qi);
                let ghost qold = q@;
                let qlen = q.len();
                if qlen > 0 && q[qlen - 1].0 == step {
                    let ghost entry_old = q@[qlen - 1];
                    let (st, mut batch) = q.remove(qlen - 1);
                    batch.push(m);
                    q.push((st, batch));
                    proof {
                        assert forall|a: int, b: int| 0 <= a < b < q@.len() implies q@[a].0
                            < q@[b].0 by {
                            if b < q@.len() - 1 {
                                assert(pre[qi as int].1@[a].0 < pre[qi as int].1@[b].0);
                            }
                        }
                        // The pair's flattening grew by exactly `m`.
                        assert(qold =~= qold.drop_last().push(entry_old));
                        lemma_queue_flat_push(qold.drop_last(), entry_old);
                        assert(q@ =~= qold.drop_last().push(q@.last()));
                        lemma_queue_flat_push(qold.drop_last(), q@.last());
                        assert(q@.last().1@ =~= entry_old.1@.push(m));
                        assert(queue_flat(q@) =~= queue_flat(qold).push(m));
                        // Keyedness of the grown queue.
                        assert(queue_keyed(qold, sender, recipient));
                        assert forall|k: int, mm: int|
                            0 <= k < q@.len() && 0 <= mm < q@[k].1@.len() implies is_pair_msg(
                            #[trigger] q@[k].1@[mm],
                            sender,
                            recipient,
                        ) by {
                            if k < q@.len() - 1 {
                                assert(q@[k] == qold[k]);
                                assert(is_pair_msg(qold[k].1@[mm], sender, recipient));
                            } else {
                                if mm < entry_old.1@.len() {
                                    assert(q@[k].1@[mm] == qold[k].1@[mm]);
                                    assert(is_pair_msg(qold[k].1@[mm], sender, recipient));
                                } else {
                                    assert(q@[k].1@[mm] == m);
                                }
                            }
                        }
                    }
                } else {
                    let mut batch: Vec<Message> = Vec::new();
                    batch.push(m);
                    q.push((step, batch));
                    proof {
                        assert forall|a: int, b: int| 0 <= a < b < q@.len() implies q@[a].0
                            < q@[b].0 by {
                            if b == q@.len() - 1 {
                                assert(pre[qi as int].1@[a].0 <= step);
                                if pre[qi as int].1@.len() > 0 {
                                    assert(pre[qi as int].1@[a].0 <= pre[qi as int].1@[pre[qi as int].1@.len()
                                        - 1].0);
                                }
                            }
                        }
                        lemma_queue_flat_push(qold, q@.last());
                        assert(q@.last().1@ =~= Seq::<Message>::empty().push(m));
                        assert(queue_flat(q@) =~= queue_flat(qold).push(m));
                        assert(queue_keyed(qold, sender, recipient));
                        assert forall|k: int, mm: int|
                            0 <= k < q@.len() && 0 <= mm < q@[k].1@.len() implies is_pair_msg(
                            #[trigger] q@[k].1@[mm],
                            sender,
                            recipient,
                        ) by {
                            if k < q@.len() - 1 {
                                assert(q@[k] == qold[k]);
                                assert(is_pair_msg(qold[k].1@[mm], sender, recipient));
                            } else {
                                assert(q@[k].1@[mm] == m);
                            }
                        }
                    }
                }
                self.queues.insert(qi, (key, q));
                proof {
                    assert(self.queues@ =~= pre.update(qi as int, ((sender, recipient), q)));
                    lemma_pairs_at(pre, qi as int);
                    lemma_pairs_update(pre, self.queues@, qi as int);
                    assert forall|s: Name, r: Name|
                        self.net_pair_flat(s, r) == #[trigger] old(self).net_pair_flat(s, r)
                            + orig.take(d + 1 as int).filter(
                            |mm: Message| is_pair_msg(mm, s, r),
                        ) by {
                        let p = |mm: Message| is_pair_msg(mm, s, r);
                        Seq::lemma_filter_push(orig.take(d as int), m, p);
                        if (s, r) == (sender, recipient) {
                            assert(p(m));
                            assert(self.net_pair_flat(s, r) =~= prenet.net_pair_flat(s, r).push(
                                m,
                            ));
                            assert(old(self).net_pair_flat(s, r) + orig.take(d + 1 as int).filter(
                                p,
                            ) =~= (old(self).net_pair_flat(s, r) + orig.take(d as int).filter(
                                p,
                            )).push(m));
                        } else {
                            assert(!p(m));
                            assert(self.net_pair_flat(s, r) == prenet.net_pair_flat(s, r));
                        }
                    }
                }
            } else {
                let mut batch: Vec<Message> = Vec::new();
                batch.push(m);
                let mut q: ConnQueue = Vec::new();
                q.push((step, batch));
                let ghost pre = self.queues@;
                let ghost gq = q;
                self.queues.push(((sender, recipient), q));
                proof {
                    assert forall|a: int, b: int|
                        0 <= a < b < self.queues@.len() implies (#[trigger] self.queues@[a]).0
                        != (#[trigger] self.queues@[b]).0 by {
                        if b == self.queues@.len() - 1 {
                            assert(self.queues@[a] == pre[a]);
                        }
                    }
                    assert(!pairs_has(pre, sender, recipient)) by {
                        if pairs_has(pre, sender, recipient) {
                            let a = pairs_at(pre, sender, recipient);
                            assert(pre[a].0 == (sender, recipient));
                        }
                    }
                    lemma_pairs_push(pre, self.queues@);
                    assert(queue_flat(gq@) =~= Seq::<Message>::empty().push(m)) by {
                        lemma_queue_flat_push(Seq::<(u64, Vec<Message>)>::empty(), gq@[0]);
                        assert(gq@ =~= Seq::<(u64, Vec<Message>)>::empty().push(gq@[0]));
                        assert(gq@[0].1@ =~= Seq::<Message>::empty().push(m));
                    }
                    assert forall|s: Name, r: Name|
                        self.net_pair_flat(s, r) == #[trigger] old(self).net_pair_flat(s, r)
                            + orig.take(d + 1 as int).filter(
                            |mm: Message| is_pair_msg(mm, s, r),
                        ) by {
                        let p = |mm: Message| is_pair_msg(mm, s, r);
                        Seq::lemma_filter_push(orig.take(d as int), m, p);
                        if (s, r) == (sender, recipient) {
                            assert(p(m));
                            assert(prenet.net_pair_flat(s, r) =~= Seq::<Message>::empty());
                            // The old record and the consumed prefix for a
                            // pair with no queue are both empty.
                            assert(old(self).net_pair_flat(s, r) + orig.take(d as int).filter(p)
                                =~= Seq::<Message>::empty());
                            assert(old(self).net_pair_flat(s, r) =~= Seq::<Message>::empty());
                            assert(orig.take(d as int).filter(p) =~= Seq::<Message>::empty());
                            assert(self.net_pair_flat(s, r) =~= Seq::<Message>::empty().push(m));
                            assert(old(self).net_pair_flat(s, r) + orig.take(d + 1 as int).filter(
                                p,
                            ) =~= Seq::<Message>::empty().push(m));
                        } else {
                            assert(!p(m));
                            assert(self.net_pair_flat(s, r) == prenet.net_pair_flat(s, r));
                        }
                    }
                }
            }
        }
        proof {
            assert(orig.take(orig.len() as int) =~= orig);
        }
    }

    /// Whether any message is still queued.
    pub fn queue_is_empty(&self) -> (r: bool)
        ensures
            r == (forall|i: int, k: int|
                0 <= i < self.queues@.len() && 0 <= k < (#[trigger] self.queues@[i]).1@.len()
                    ==> (#[trigger] self.queues@[i].1@[k]).1@.len() == 0),
    {
        let mut i: usize = 0;
        while i < self.queues.len()
            invariant
                i <= self.queues@.len(),
                forall|a: int, k: int|
                    0 <= a < i && 0 <= k < (#[trigger] self.queues@[a]).1@.len() ==> (
                    #[trigger] self.queues@[a].1@[k]).1@.len() == 0,
            decreases self.queues@.len() - i,
        {
            let q = &self.queues[i].1;
            let mut k: usize = 0;
            while k < q.len()
                invariant
                    q == &self.queues@[i as int].1,
                    i < self.queues@.len(),
                    k <= q@.len(),
                    forall|b: int| 0 <= b < k ==> (#[trigger] q@[b]).1@.len() == 0,
                decreases q@.len() - k,
            {
                if q[k].1.len() > 0 {
                    return false;
                }
                k = k + 1;
            }
            i = i + 1;
        }
        true
    }

    /// The number of messages still queued.
    pub fn messages_in_queue(&self) -> (r: usize)
        ensures
            r == 0 <==> (forall|i: int, k: int|
                0 <= i < self.queues@.len() && 0 <= k < (#[trigger] self.queues@[i]).1@.len()
                    ==> (#[trigger] self.queues@[i].1@[k]).1@.len() == 0),
    {
        let mut count: usize = 0;
        let mut i: usize = 0;
        while i < self.queues.len()
            invariant
                i <= self.queues@.len(),
                count == 0 ==> forall|a: int, k: int|
                    0 <= a < i && 0 <= k < (#[trigger] self.queues@[a]).1@.len() ==> (
                    #[trigger] self.queues@[a].1@[k]).1@.len() == 0,
                count > 0 ==> !(forall|a: int, k: int|
                    0 <= a < self.queues@.len() && 0 <= k < (
                    #[trigger] self.queues@[a]).1@.len() ==> (
                    #[trigger] self.queues@[a].1@[k]).1@.len() == 0),
            decreases self.queues@.len() - i,
        {
            let q = &self.queues[i].1;
            let mut k: usize = 0;
            while k < q.len()
                invariant
                    q == &self.queues@[i as int].1,
                    i < self.queues@.len(),
                    k <= q@.len(),
                    count == 0 ==> (forall|a: int, kk: int|
                        0 <= a < i && 0 <= kk < (#[trigger] self.queues@[a]).1@.len() ==> (
                        #[trigger] self.queues@[a].1@[kk]).1@.len() == 0) && (forall|b: int|
                        0 <= b < k ==> (#[trigger] q@[b]).1@.len() == 0),
                    count > 0 ==> !(forall|a: int, kk: int|
                        0 <= a < self.queues@.len() && 0 <= kk < (
                        #[trigger] self.queues@[a]).1@.len() ==> (
                        #[trigger] self.queues@[a].1@[kk]).1@.len() == 0),
                decreases q@.len() - k,
            {
                let n = q[k].1.len();
                if n > 0 && count <= usize::MAX - n {
                    count = count + n;
                    proof {
                        assert(self.queues@[i as int].1@[k as int].1@.len() > 0);
                    }
                } else if n > 0 {
                    count = usize::MAX;
                    proof {
                        assert(self.queues@[i as int].1@[k as int].1@.len() > 0);
                    }
                }
                k = k + 1;
            }
            i = i + 1;
        }
        count
    }
}

} // verus!
