use vstd::prelude::*;

use crate::common::Address;
use crate::message::{comes_after, Message, MessageType};
use crate::node::{
    after_latency, arrives_dead, bounces, clock_raised_to, handled, health_requests, later, now,
    prepare_data_out, ChannelState, Node,
};
use crate::queue::{insert_in_order, queue_insert, queue_insert_all, queue_sorted};
use crate::recording::{recorded, Recording};
use crate::run::{BuildingBlocks, FailureHandlingMode, CostsSettings, RunSettings, TreeSettings};

verus! {

/// Owner of every node, of the message queue and of the global clock.
#[derive(Debug)]
pub struct Manager {
    pub settings: RunSettings,
    /// The nodes, indexed by address.
    pub nodes: Vec<Node>,
    pub querier_address: Address,
    /// Pending messages; the next one to deliver is at the tail.
    pub message_queue: Vec<Message>,
    /// Arrival time of the last message handled.
    pub current_time: u64,
    pub recording: Recording,
}

/// Default mean lifetime of a node.
pub const AVERAGE_FAILURE_TIME: u64 = 10000;

/// Default period between two health checks.
pub const HEALTH_CHECK_PERIOD: u64 = 1000;

/// Default cost of a cryptographic operation.
pub const CRYPTO_COST: u64 = 100;

/// Default latency of a message.
pub const COMM_COST: u64 = 100;

/// `m` as recorded once delivered after a clock advance from `before` to `after`.
pub open spec fn delivered_as(m: Message, before: u64, after: u64) -> Message {
    Message { delivered: true, work: (after - before) as u64, ..m }
}

/// Whether the queue is in delivery order, holds nothing in the past of the
/// global clock, and holds no message that arrives before it departs.
pub open spec fn queue_ok(q: Seq<Message>, current_time: u64) -> bool {
    &&& queue_sorted(q)
    &&& forall|i: int| 0 <= i < q.len() ==> (#[trigger] q[i]).arrival_time >= current_time
    &&& forall|i: int| 0 <= i < q.len() ==> (#[trigger] q[i]).arrival_time >= q[i].departure_time
}

/// Every message of `q` arrives no earlier than it departs.
pub open spec fn well_timed(q: Seq<Message>) -> bool {
    forall|i: int| 0 <= i < q.len() ==> (#[trigger] q[i]).arrival_time >= q[i].departure_time
}

impl Manager {
    /// The queue invariant of a run.
    pub open spec fn queue_ok(&self) -> bool {
        queue_ok(self.message_queue@, self.current_time)
    }

    /// The next message to deliver.
    pub open spec fn next_message(&self) -> Message {
        self.message_queue@.last()
    }

    /// Whether the next message reaches a live receiver that handles it now
    /// (it neither arrives after the receiver's death nor bounces).
    pub open spec fn delivers_next(&self) -> bool {
        let m = self.next_message();
        &&& self.message_queue@.len() > 0
        &&& m.receiver < self.nodes@.len()
        &&& !arrives_dead(self.nodes@[m.receiver as int], m)
        &&& !bounces(self.nodes@[m.receiver as int], m)
    }
}

/// One step of the event loop, from `pre` to `post`, when the queue is not empty.
/// The next message is taken from the queue. A message for an unknown address
/// or for a dead receiver is consumed: the clock moves to its arrival and it is
/// recorded. One that bounces goes back to the queue at the receiver's clock.
/// Otherwise the receiver handles it, the clock moves to its arrival, the
/// follow-ups are queued in the order they were emitted, and it is recorded.
#[verifier::opaque]
pub open spec fn step(pre: Manager, post: Manager) -> bool {
    let m = pre.next_message();
    let rest = pre.message_queue@.drop_last();
    &&& post.settings == pre.settings
    &&& post.querier_address == pre.querier_address
    &&& if m.receiver >= pre.nodes@.len() || arrives_dead(pre.nodes@[m.receiver as int], m) {
        &&& post.nodes@ == pre.nodes@
        &&& post.message_queue@ == rest
        &&& post.current_time == m.arrival_time
        &&& recorded(pre.recording, m, post.recording)
    } else if bounces(pre.nodes@[m.receiver as int], m) {
        &&& post.nodes@ == pre.nodes@
        &&& post.message_queue@ == queue_insert(
            rest,
            Message { arrival_time: pre.nodes@[m.receiver as int].data.local_time, ..m },
        )
        &&& post.current_time == pre.current_time
        &&& post.recording == pre.recording
    } else {
        let mid = clock_raised_to(pre.nodes@[m.receiver as int], m.arrival_time);
        let handler = post.nodes@[m.receiver as int];
        &&& post.nodes@ == pre.nodes@.update(m.receiver as int, handler)
        &&& post.current_time == m.arrival_time
        &&& handler.data.local_time >= mid.data.local_time
        &&& recorded(
            pre.recording,
            delivered_as(m, mid.data.local_time, handler.data.local_time),
            post.recording,
        )
        &&& exists|out: Seq<Message>|
            handled(mid, m, handler, out) && post.message_queue@ == #[trigger] queue_insert_all(
                rest,
                out,
            )
    }
}

proof fn lemma_health_requests_timed(n: Node, chs: Seq<ChannelState>)
    ensures
        forall|i: int|
            0 <= i < health_requests(n, chs).len() ==> (#[trigger] health_requests(n, chs)[i]).departure_time
                == now(n) && health_requests(n, chs)[i].arrival_time == after_latency(n, now(n)),
    decreases chs.len(),
{
    if chs.len() > 0 {
        lemma_health_requests_timed(n, chs.drop_last());
    }
}

/// Every follow-up leaves no earlier than the receiver's clock when it started
/// handling, and arrives no earlier than it leaves.
proof fn lemma_follow_ups_timed(pre: Node, msg: Message, post: Node, out: Seq<Message>)
    requires
        handled(pre, msg, post, out),
    ensures
        forall|i: int|
            0 <= i < out.len() ==> (#[trigger] out[i]).departure_time >= now(pre)
                && out[i].arrival_time >= out[i].departure_time,
{
    match msg.message_type {
        MessageType::ScheduleHealthCheck => {
            lemma_health_requests_timed(pre, pre.data.opened_channels@);
            let hs = health_requests(pre, pre.data.opened_channels@);
            assert forall|i: int| 0 <= i < out.len() implies (#[trigger] out[i]).departure_time
                >= now(pre) && out[i].arrival_time >= out[i].departure_time by {
                if i < hs.len() {
                    assert(out[i] == hs[i]);
                }
            }
        },
        MessageType::PrepareData => {
            if out.len() > 0 {
                assert(out == prepare_data_out(pre, msg));
            }
        },
        _ => {},
    }
}

proof fn lemma_insert_keeps_ok(q: Seq<Message>, m: Message, t: u64)
    requires
        queue_ok(q, t),
        m.arrival_time >= t,
        m.arrival_time >= m.departure_time,
    ensures
        queue_ok(queue_insert(q, m), t),
{
    crate::queue::lemma_insert_keeps_order(q, m);
    let r = queue_insert(q, m);
    let k = crate::queue::insertion_index(q, m);
    assert forall|i: int| 0 <= i < r.len() implies (#[trigger] r[i]).arrival_time >= t
        && r[i].arrival_time >= r[i].departure_time by {
        if i < k {
            assert(r[i] == q[i]);
        } else if i > k {
            assert(r[i] == q[i - 1]);
        }
    }
}

/// The tail of a queue in delivery order is due no later than any other message.
proof fn lemma_tail_is_first(q: Seq<Message>)
    requires
        queue_sorted(q),
        q.len() > 0,
    ensures
        forall|i: int| 0 <= i < q.len() ==> (#[trigger] q[i]).arrival_time >= q.last().arrival_time,
{
    assert forall|i: int| 0 <= i < q.len() implies (#[trigger] q[i]).arrival_time
        >= q.last().arrival_time by {
        if i < q.len() - 1 {
            assert(!comes_after(q[q.len() - 1], q[i]));
        }
    }
}

proof fn lemma_insert_all_keeps_ok(q: Seq<Message>, out: Seq<Message>, t: u64)
    requires
        queue_ok(q, t),
        forall|i: int|
            0 <= i < out.len() ==> (#[trigger] out[i]).departure_time >= t && out[i].arrival_time
                >= out[i].departure_time,
    ensures
        queue_ok(queue_insert_all(q, out), t),
    decreases out.len(),
{
    if out.len() > 0 {
        let init = out.drop_last();
        assert forall|i: int| 0 <= i < init.len() implies (#[trigger] init[i]).departure_time >= t
            && init[i].arrival_time >= init[i].departure_time by {
            assert(init[i] == out[i]);
        }
        lemma_insert_all_keeps_ok(q, init, t);
        assert(out.last() == out[out.len() - 1]);
        lemma_insert_keeps_ok(queue_insert_all(q, init), out.last(), t);
    }
}

proof fn lemma_rest_ok(q: Seq<Message>, t: u64)
    requires
        queue_ok(q, t),
        q.len() > 0,
    ensures
        queue_ok(q.drop_last(), q.last().arrival_time),
        q.last().arrival_time >= t,
        q.last().arrival_time >= q.last().departure_time,
{
    lemma_tail_is_first(q);
    let r = q.drop_last();
    assert forall|i: int, j: int| 0 <= i < j < r.len() implies !comes_after(
        #[trigger] r[j],
        #[trigger] r[i],
    ) by {
        assert(r[i] == q[i] && r[j] == q[j]);
    }
    assert forall|i: int| 0 <= i < r.len() implies (#[trigger] r[i]).arrival_time >= q.last().arrival_time
        && r[i].arrival_time >= r[i].departure_time by {
        assert(r[i] == q[i]);
    }
    assert(q.last() == q[q.len() - 1]);
}

/// One step of the event loop keeps the queue invariant and never moves the
/// global clock back.
pub proof fn lemma_step_keeps_order(pre: Manager, post: Manager)
    requires
        pre.queue_ok(),
        pre.message_queue@.len() > 0,
        step(pre, post),
    ensures
        post.queue_ok(),
        post.current_time >= pre.current_time,
{
    reveal(step);
    let q = pre.message_queue@;
    let m = pre.next_message();
    let rest = q.drop_last();
    lemma_rest_ok(q, pre.current_time);
    if m.receiver >= pre.nodes@.len() || arrives_dead(pre.nodes@[m.receiver as int], m) {
    } else if bounces(pre.nodes@[m.receiver as int], m) {
        let back = Message { arrival_time: pre.nodes@[m.receiver as int].data.local_time, ..m };
        assert forall|i: int| 0 <= i < rest.len() implies (#[trigger] rest[i]).arrival_time
            >= pre.current_time && rest[i].arrival_time >= rest[i].departure_time by {}
        assert(queue_ok(rest, pre.current_time));
        lemma_insert_keeps_ok(rest, back, pre.current_time);
    } else {
        let mid = clock_raised_to(pre.nodes@[m.receiver as int], m.arrival_time);
        let handler = post.nodes@[m.receiver as int];
        let out = choose|out: Seq<Message>|
            handled(mid, m, handler, out) && post.message_queue@ == #[trigger] queue_insert_all(
                rest,
                out,
            );
        lemma_follow_ups_timed(mid, m, handler, out);
        lemma_insert_all_keeps_ok(rest, out, m.arrival_time);
    }
}

/// One step keeps every recorded message arriving no earlier than it departs,
/// when the queue invariant holds before it.
pub proof fn lemma_step_keeps_trace_timed(pre: Manager, post: Manager)
    requires
        pre.queue_ok(),
        well_timed(pre.recording.sent_messages@),
        pre.message_queue@.len() > 0,
        step(pre, post),
    ensures
        well_timed(post.recording.sent_messages@),
        well_timed(post.message_queue@),
{
    reveal(step);
    lemma_step_keeps_order(pre, post);
    let q = pre.message_queue@;
    let m = pre.next_message();
    assert(m == q[q.len() - 1]);
    assert(m.arrival_time >= m.departure_time);
    let sent = pre.recording.sent_messages@;
    let after = post.recording.sent_messages@;
    assert forall|i: int| 0 <= i < after.len() implies (#[trigger] after[i]).arrival_time
        >= after[i].departure_time by {
        if i < sent.len() {
            assert(after[i] == sent[i]);
        }
    }
}

/// Across any run of successive steps from a state that satisfies the queue
/// invariant, the global clock never goes back: it is non-decreasing along
/// the deliveries.
pub proof fn lemma_clock_never_goes_back(runs: Seq<Manager>)
    requires
        runs.len() > 0,
        runs[0].queue_ok(),
        forall|k: int|
            0 <= k < runs.len() - 1 ==> (#[trigger] runs[k]).message_queue@.len() > 0 && step(
                runs[k],
                runs[k + 1],
            ),
    ensures
        forall|i: int, j: int|
            0 <= i <= j < runs.len() ==> (#[trigger] runs[i]).current_time <= (
            #[trigger] runs[j]).current_time,
        forall|k: int| 0 <= k < runs.len() ==> (#[trigger] runs[k]).queue_ok(),
    decreases runs.len(),
{
    if runs.len() > 1 {
        let init = runs.drop_last();
        assert forall|k: int| 0 <= k < init.len() - 1 implies (#[trigger] init[k]).message_queue@.len()
            > 0 && step(init[k], init[k + 1]) by {
            assert(init[k] == runs[k] && init[k + 1] == runs[k + 1]);
            assert(runs[k].message_queue@.len() > 0);
        }
        lemma_clock_never_goes_back(init);
        let n = runs.len() - 1;
        assert(init[n - 1] == runs[n - 1]);
        assert(runs[n - 1].message_queue@.len() > 0);
        lemma_step_keeps_order(runs[n - 1], runs[n]);
        assert forall|k: int| 0 <= k < runs.len() implies (#[trigger] runs[k]).queue_ok() by {
            if k < n {
                assert(init[k] == runs[k]);
            }
        }
        assert forall|i: int, j: int| 0 <= i <= j < runs.len() implies (#[trigger] runs[i]).current_time
            <= (#[trigger] runs[j]).current_time by {
            if j < n {
                assert(init[i] == runs[i] && init[j] == runs[j]);
            } else if i < n {
                assert(init[i] == runs[i] && init[n - 1] == runs[n - 1]);
            }
        }
    }
}

impl Manager {
    /// A manager for the given building blocks, seed and tree shape, with the
    /// default costs and timings and no node yet.
    pub fn new(building_blocks: BuildingBlocks, seed: String, tree: TreeSettings) -> (r: Manager)
        ensures
            r.settings.building_blocks == building_blocks,
            r.settings.seed == seed,
            r.settings.tree == tree,
            r.settings.average_failure_time == AVERAGE_FAILURE_TIME,
            r.settings.health_check_period == HEALTH_CHECK_PERIOD,
            r.settings.costs == (CostsSettings { crypto: CRYPTO_COST, comm: COMM_COST, compute: 0 }),
            r.querier_address == 0,
            r.nodes@.len() == 0,
            r.message_queue@.len() == 0,
            r.current_time == 0,
            r.recording.settings == r.settings,
            r.recording.full_export,
            r.recording.sent_messages@.len() == 0,
            r.recording.total_work == 0,
            r.recording.total_bandwidth == 0,
    {
        let settings = RunSettings {
            building_blocks,
            average_failure_time: AVERAGE_FAILURE_TIME,
            health_check_period: HEALTH_CHECK_PERIOD,
            costs: CostsSettings { crypto: CRYPTO_COST, comm: COMM_COST, compute: 0 },
            tree,
            seed,
        };
        let recording = Recording::new(settings.copy(), true);
        Manager {
            settings,
            nodes: Vec::new(),
            querier_address: 0,
            message_queue: Vec::new(),
            current_time: 0,
            recording,
        }
    }

    /// The default manager: minimal building blocks, seed `"str"`, depth 3,
    /// fanout 4 and groups of 3.
    pub fn default() -> (r: Manager)
        ensures
            r.settings.building_blocks.failure_handling == FailureHandlingMode::FullFailurePropagation,
            r.settings.seed@ == "str"@,
            r.settings.tree == (TreeSettings { fanout: 4, depth: 3, group_size: 3 }),
            r.settings.average_failure_time == AVERAGE_FAILURE_TIME,
            r.settings.health_check_period == HEALTH_CHECK_PERIOD,
            r.settings.costs == (CostsSettings { crypto: CRYPTO_COST, comm: COMM_COST, compute: 0 }),
            r.querier_address == 0,
            r.nodes@.len() == 0,
            r.message_queue@.len() == 0,
            r.current_time == 0,
            r.recording.settings == r.settings,
            r.recording.full_export,
            r.recording.sent_messages@.len() == 0,
            r.recording.total_work == 0,
            r.recording.total_bandwidth == 0,
    {
        let seed = "str".to_owned();
        proof {
            reveal_strlit("str");
        }
        Self::new(
            BuildingBlocks::minimal(),
            seed,
            TreeSettings { fanout: 4, depth: 3, group_size: 3 },
        )
    }

    /// Puts a message in its place in the queue.
    pub fn insert_message(&mut self, msg: Message)
        ensures
            final(self).message_queue@ == queue_insert(old(self).message_queue@, msg),
            final(self).nodes == old(self).nodes,
            final(self).current_time == old(self).current_time,
            final(self).recording == old(self).recording,
            final(self).settings == old(self).settings,
            final(self).querier_address == old(self).querier_address,
            old(self).queue_ok() && msg.arrival_time >= old(self).current_time && msg.arrival_time
                >= msg.departure_time ==> final(self).queue_ok(),
    {
        proof {
            if self.queue_ok() && msg.arrival_time >= self.current_time && msg.arrival_time
                >= msg.departure_time {
                lemma_insert_keeps_ok(self.message_queue@, msg, self.current_time);
            }
        }
        insert_in_order(&mut self.message_queue, msg);
    }

    pub(crate) fn insert_all(&mut self, out: Vec<Message>, Ghost(floor): Ghost<u64>)
        ensures
            final(self).message_queue@ == queue_insert_all(old(self).message_queue@, out@),
            final(self).nodes == old(self).nodes,
            final(self).current_time == old(self).current_time,
            final(self).recording == old(self).recording,
            final(self).settings == old(self).settings,
            final(self).querier_address == old(self).querier_address,
            old(self).queue_ok() && floor >= old(self).current_time && (forall|i: int|
                0 <= i < out@.len() ==> (#[trigger] out@[i]).departure_time >= floor
                    && out@[i].arrival_time >= out@[i].departure_time) ==> final(self).queue_ok(),
    {
        let ghost ok = self.queue_ok() && floor >= self.current_time && (forall|i: int|
            0 <= i < out@.len() ==> (#[trigger] out@[i]).departure_time >= floor
                && out@[i].arrival_time >= out@[i].departure_time);
        let ghost start = self.message_queue@;
        let mut i: usize = 0;
        while i < out.len()
            invariant
                i <= out@.len(),
                self.message_queue@ == queue_insert_all(start, out@.subrange(0, i as int)),
                self.nodes == old(self).nodes,
                self.current_time == old(self).current_time,
                self.recording == old(self).recording,
                self.settings == old(self).settings,
                self.querier_address == old(self).querier_address,
                ok ==> self.queue_ok(),
                ok ==> floor >= self.current_time && (forall|j: int|
                    0 <= j < out@.len() ==> (#[trigger] out@[j]).departure_time >= floor
                        && out@[j].arrival_time >= out@[j].departure_time),
            decreases out@.len() - i,
        {
            assert(out@.subrange(0, i + 1).drop_last() == out@.subrange(0, i as int));
            assert(out@.subrange(0, i + 1).last() == out@[i as int]);
            let m = out[i].copy();
            self.insert_message(m);
            i = i + 1;
        }
        assert(out@.subrange(0, i as int) == out@);
    }

    /// Handles the next message of the queue (see [`step`]). Returns whether
    /// there was one.
    pub fn handle_next_message(&mut self) -> (r: bool)
        ensures
            r == (old(self).message_queue@.len() > 0),
            !r ==> *final(self) == *old(self),
            r ==> step(*old(self), *final(self)),
            old(self).queue_ok() ==> final(self).queue_ok() && final(self).current_time
                >= old(self).current_time,
            crate::counts::counts_ok(*old(self)) ==> crate::counts::counts_ok(*final(self)),
            old(self).queue_ok() && well_timed(old(self).recording.sent_messages@) ==> well_timed(
                final(self).recording.sent_messages@,
            ),
            r && old(self).queue_ok() && old(self).delivers_next() ==> {
                let m = old(self).next_message();
                &&& m.arrival_time >= m.departure_time
                &&& m.message_type != MessageType::RequestHealth ==> m.arrival_time >= old(
                    self,
                ).nodes@[m.receiver as int].data.local_time
            },
    {
        if self.message_queue.len() == 0 {
            return false;
        }
        let ghost pre = *self;
        proof {
            reveal(step);
        }
        let popped = self.message_queue.pop();
        let mut msg = match popped {
            Some(m) => m,
            None => {
                return false;
            },
        };
        proof {
            if pre.queue_ok() {
                lemma_rest_ok(pre.message_queue@, pre.current_time);
            }
        }
        if msg.receiver >= self.nodes.len() {
            self.current_time = msg.arrival_time;
            self.recording.record(&msg);
            proof {
                if crate::counts::counts_ok(pre) {
                    crate::counts::lemma_step_keeps_counts(pre, *self);
                }
                if pre.queue_ok() && well_timed(pre.recording.sent_messages@) {
                    lemma_step_keeps_trace_timed(pre, *self);
                }
            }
            return true;
        }
        let receiver = msg.receiver;
        let ghost before = msg;
        let result = self.nodes[receiver].handle_message(&mut msg);
        proof {
            let n = pre.nodes@[receiver as int];
            if arrives_dead(n, before) || bounces(n, before) {
                assert(self.nodes@ =~= pre.nodes@);
            }
        }
        match result {
            None => {
                self.insert_message(msg);
            },
            Some(out) => {
                self.current_time = msg.arrival_time;
                proof {
                    if !arrives_dead(pre.nodes@[receiver as int], before) {
                        lemma_follow_ups_timed(
                            clock_raised_to(pre.nodes@[receiver as int], before.arrival_time),
                            before,
                            self.nodes@[receiver as int],
                            out@,
                        );
                    }
                }
                let ghost rest = self.message_queue@;
                let ghost outs = out@;
                self.insert_all(out, Ghost(msg.arrival_time));
                self.recording.record(&msg);
                proof {
                    if !arrives_dead(pre.nodes@[receiver as int], before) {
                        assert(self.message_queue@ == queue_insert_all(
                            pre.message_queue@.drop_last(),
                            outs,
                        ));
                    }
                }
            },
        }
        proof {
            if crate::counts::counts_ok(pre) {
                crate::counts::lemma_step_keeps_counts(pre, *self);
            }
            if pre.queue_ok() && well_timed(pre.recording.sent_messages@) {
                lemma_step_keeps_trace_timed(pre, *self);
            }
        }
        true
    }
}

} // verus!
