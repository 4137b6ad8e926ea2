use vstd::prelude::*;

use crate::common::Address;
use crate::manager::{step, Manager};
use crate::message::{Message, MessageType};
use crate::node::{
    arrives_dead, bounces, clock_raised_to, collected, expected_child, handled, health_requests,
    own_position, prepare_data_out, prepare_requests, same_frame, sends_fold, Node, NodeRole,
};
use crate::queue::{insertion_index, queue_insert, queue_insert_all};
use crate::shares::{count_sum, Share};
use crate::tree::{addresses_match, children_after};

verus! {

/// Number of contributors whose shares reach node `a` along its lane: one for
/// a contributor; for any other node, the sum over its child groups of the
/// count of the member it expects a share from (the single contributor below
/// a leaf aggregator, the member at its own position below an aggregator).
pub open spec fn lane_count(nodes: Seq<Node>, a: int) -> int
    decreases nodes.len() - a, 1int, 0int,
{
    if a < 0 || a >= nodes.len() {
        0
    } else if nodes[a].data.role == NodeRole::Contributor {
        1
    } else {
        lanes(nodes, a, nodes[a].data.tree_node.children@.len() as int)
    }
}

/// The lane counts of the expected members of node `a`'s first `j` child groups.
pub open spec fn lanes(nodes: Seq<Node>, a: int, j: int) -> int
    decreases nodes.len() - a, 0int, j,
{
    if j <= 0 || a < 0 || a >= nodes.len() {
        0
    } else {
        let n = nodes[a];
        let group = n.data.tree_node.children@[j - 1]@;
        lanes(nodes, a, j - 1) + match expected_child(n.data.role, group, own_position(n)) {
            Some(x) => if a < x < nodes.len() {
                lane_count(nodes, x as int)
            } else {
                0
            },
            None => 0,
        }
    }
}

/// A message carrying a share carries the lane count of its emitter.
pub open spec fn share_counted(nodes: Seq<Node>, m: Message) -> bool {
    m.content.data matches Some(s) ==> m.emitter < nodes.len() && s.count == lane_count(
        nodes,
        m.emitter as int,
    )
}

/// The counting invariant of a run: the tree is laid out in address order,
/// every queued share and every share a node holds from a child carries the
/// lane count of its emitter, and every share a contributor prepared counts one.
pub open spec fn counts_ok(m: Manager) -> bool {
    let nodes = m.nodes@;
    &&& children_after(nodes)
    &&& addresses_match(nodes)
    &&& forall|i: int| 0 <= i < m.message_queue@.len() ==> share_counted(nodes, #[trigger] m.message_queue@[i])
    &&& forall|i: int, k: Address|
        0 <= i < nodes.len() && #[trigger] nodes[i].data.aggregates@.contains_key(k) ==> k < nodes.len()
            && nodes[i].data.aggregates@[k].count == lane_count(nodes, k as int)
    &&& forall|i: int, j: int|
        0 <= i < nodes.len() && nodes[i].data.role == NodeRole::Contributor && 0 <= j
            < nodes[i].shares@.len() ==> (#[trigger] nodes[i].shares@[j]).count == 1
}

/// Two node sequences that agree on every node's role, address and topology.
pub open spec fn same_layout(a: Seq<Node>, b: Seq<Node>) -> bool {
    &&& a.len() == b.len()
    &&& forall|i: int| 0 <= i < a.len() ==> same_frame(#[trigger] a[i], b[i])
}

proof fn lemma_lane_count_layout(a: Seq<Node>, b: Seq<Node>, x: int)
    requires
        same_layout(a, b),
    ensures
        lane_count(a, x) == lane_count(b, x),
    decreases a.len() - x, 1int, 0int,
{
    if 0 <= x < a.len() {
        assert(same_frame(a[x], b[x]));
        lemma_lanes_layout(a, b, x, a[x].data.tree_node.children@.len() as int);
    }
}

proof fn lemma_lanes_layout(a: Seq<Node>, b: Seq<Node>, x: int, j: int)
    requires
        same_layout(a, b),
    ensures
        lanes(a, x, j) == lanes(b, x, j),
    decreases a.len() - x, 0int, j,
{
    if j > 0 && 0 <= x < a.len() {
        assert(same_frame(a[x], b[x]));
        lemma_lanes_layout(a, b, x, j - 1);
        let n = a[x];
        let group = n.data.tree_node.children@[j - 1]@;
        match expected_child(n.data.role, group, own_position(n)) {
            Some(y) => {
                if x < y < a.len() {
                    lemma_lane_count_layout(a, b, y as int);
                }
            },
            None => {},
        }
    }
}

/// The fold of the expected shares carries the sum of their lane counts.
proof fn lemma_collected_count(nodes: Seq<Node>, a: int, agg: Map<Address, Share>, j: int)
    requires
        0 <= a < nodes.len(),
        0 <= j <= nodes[a].data.tree_node.children@.len(),
        children_after(nodes),
        forall|k: Address| #[trigger] agg.contains_key(k) ==> k < nodes.len() && agg[k].count == lane_count(
            nodes,
            k as int,
        ),
        collected(
            nodes[a].data.tree_node.children@.subrange(0, j),
            nodes[a].data.role,
            own_position(nodes[a]),
            agg,
        ) is Some,
    ensures
        count_sum(
            collected(
                nodes[a].data.tree_node.children@.subrange(0, j),
                nodes[a].data.role,
                own_position(nodes[a]),
                agg,
            )->Some_0,
        ) == lanes(nodes, a, j),
    decreases j,
{
    let n = nodes[a];
    let groups = n.data.tree_node.children@;
    if j > 0 {
        let sub = groups.subrange(0, j);
        assert(sub.drop_last() == groups.subrange(0, j - 1));
        assert(sub.last() == groups[j - 1]);
        lemma_collected_count(nodes, a, agg, j - 1);
        let prev = collected(groups.subrange(0, j - 1), n.data.role, own_position(n), agg)->Some_0;
        let x = expected_child(n.data.role, groups[j - 1]@, own_position(n))->Some_0;
        let parts = prev.push(agg[x]);
        assert(parts.drop_last() == prev);
        let p = own_position(n);
        if n.data.role == NodeRole::LeafAggregator {
            assert(groups[j - 1]@[0] == x);
        } else {
            assert(groups[j - 1]@[p->Some_0] == x);
        }
    } else {
        assert(groups.subrange(0, 0) =~= Seq::<Vec<Address>>::empty());
    }
}

proof fn lemma_health_requests_plain(n: Node, chs: Seq<crate::node::ChannelState>)
    ensures
        forall|i: int|
            0 <= i < health_requests(n, chs).len() ==> (#[trigger] health_requests(n, chs)[i]).content.data
                is None,
    decreases chs.len(),
{
    if chs.len() > 0 {
        lemma_health_requests_plain(n, chs.drop_last());
    }
}

proof fn lemma_insert_all_counted(nodes: Seq<Node>, q: Seq<Message>, out: Seq<Message>)
    requires
        forall|i: int| 0 <= i < q.len() ==> share_counted(nodes, #[trigger] q[i]),
        forall|i: int| 0 <= i < out.len() ==> share_counted(nodes, #[trigger] out[i]),
    ensures
        forall|i: int|
            0 <= i < queue_insert_all(q, out).len() ==> share_counted(
                nodes,
                #[trigger] queue_insert_all(q, out)[i],
            ),
    decreases out.len(),
{
    if out.len() > 0 {
        let init = out.drop_last();
        assert forall|i: int| 0 <= i < init.len() implies share_counted(nodes, #[trigger] init[i]) by {
            assert(init[i] == out[i]);
        }
        lemma_insert_all_counted(nodes, q, init);
        assert(out.last() == out[out.len() - 1]);
        lemma_insert_counted(nodes, queue_insert_all(q, init), out.last());
    }
}

proof fn lemma_insert_counted(nodes: Seq<Node>, q: Seq<Message>, m: Message)
    requires
        forall|i: int| 0 <= i < q.len() ==> share_counted(nodes, #[trigger] q[i]),
        share_counted(nodes, m),
    ensures
        forall|i: int| 0 <= i < queue_insert(q, m).len() ==> share_counted(nodes, #[trigger] queue_insert(q, m)[i]),
{
    crate::queue::lemma_insert_index_bounds(q, m);
    let k = insertion_index(q, m);
    let r = queue_insert(q, m);
    assert forall|i: int| 0 <= i < r.len() implies share_counted(nodes, #[trigger] r[i]) by {
        if i < k {
            assert(r[i] == q[i]);
        } else if i > k {
            assert(r[i] == q[i - 1]);
        }
    }
}

/// One step of the event loop keeps the counting invariant: every share that
/// is sent, queued or held keeps carrying the lane count of its emitter.
pub proof fn lemma_step_keeps_counts(pre: Manager, post: Manager)
    requires
        counts_ok(pre),
        pre.message_queue@.len() > 0,
        step(pre, post),
    ensures
        counts_ok(post),
{
    reveal(step);
    let q = pre.message_queue@;
    let m = pre.next_message();
    let rest = q.drop_last();
    let nodes = pre.nodes@;
    assert(m == q[q.len() - 1]);
    assert(share_counted(nodes, m));
    assert forall|i: int| 0 <= i < rest.len() implies share_counted(nodes, #[trigger] rest[i]) by {
        assert(rest[i] == q[i]);
    }
    if m.receiver >= nodes.len() || arrives_dead(nodes[m.receiver as int], m) {
        assert(post.nodes@ == nodes);
    } else if bounces(nodes[m.receiver as int], m) {
        let back = Message { arrival_time: nodes[m.receiver as int].data.local_time, ..m };
        assert(share_counted(nodes, back));
        lemma_insert_counted(nodes, rest, back);
        assert(post.nodes@ == nodes);
    } else {
        let r = m.receiver as int;
        let mid = clock_raised_to(nodes[r], m.arrival_time);
        let handler = post.nodes@[r];
        let out = choose|out: Seq<Message>|
            handled(mid, m, handler, out) && post.message_queue@ == #[trigger] queue_insert_all(
                rest,
                out,
            );
        let after = post.nodes@;
        assert(after == nodes.update(r, handler));
        assert(same_frame(mid, handler));
        assert(same_layout(nodes, after)) by {
            assert forall|i: int| 0 <= i < nodes.len() implies same_frame(#[trigger] nodes[i], after[i]) by {
                if i == r {
                    assert(same_frame(nodes[i], mid));
                }
            }
        }
        assert forall|x: int| lane_count(nodes, x) == #[trigger] lane_count(after, x) by {
            lemma_lane_count_layout(nodes, after, x);
        }
        assert forall|i: int| 0 <= i < rest.len() implies share_counted(after, #[trigger] rest[i]) by {
            assert(share_counted(nodes, rest[i]));
        }
        assert(children_after(after)) by {
            assert forall|a: int, i: int, k: int|
                0 <= a < after.len() && 0 <= i < after[a].data.tree_node.children@.len() && 0 <= k
                    < after[a].data.tree_node.children@[i]@.len() implies a < (
                #[trigger] after[a].data.tree_node.children@[i]@[k]) < after.len() by {
                assert(after[a].data.tree_node == nodes[a].data.tree_node);
            }
        }
        assert(addresses_match(after)) by {
            assert forall|a: int| 0 <= a < after.len() implies (#[trigger] after[a]).data.address == a by {
                assert(after[a].data.address == nodes[a].data.address);
            }
        }
        assert(mid.data.aggregates == nodes[r].data.aggregates);
        assert(mid.shares == nodes[r].shares);
        assert(mid.data.address == r);
        assert forall|i: int| 0 <= i < out.len() implies share_counted(after, #[trigger] out[i]) by {
            match m.message_type {
                MessageType::ScheduleHealthCheck => {
                    lemma_health_requests_plain(mid, mid.data.opened_channels@);
                    let hs = health_requests(mid, mid.data.opened_channels@);
                    if i < hs.len() {
                        assert(out[i] == hs[i]);
                    }
                },
                MessageType::RequestData => {
                    if mid.data.role == NodeRole::Contributor && mid.shares@.len() == 0
                        && crate::node::split_fits(mid) {
                        assert(out[i] == prepare_requests(handler, mid.data.tree_node.parents@)[i]);
                    }
                },
                MessageType::PrepareData => {
                    assert(out == prepare_data_out(mid, m));
                    assert(mid.data.role == NodeRole::Contributor);
                    assert(m.content.target_node is Some);
                    let t = m.content.target_node->Some_0;
                    assert(crate::tree_node::position_in(mid.data.tree_node.parents@, t) is Some);
                    crate::tree_node::lemma_position_in_range(mid.data.tree_node.parents@, t);
                    let k = crate::tree_node::position_in(mid.data.tree_node.parents@, t)->Some_0;
                    assert(k < mid.shares@.len());
                    assert(out[i].content.data == Some(mid.shares@[k]));
                    assert(mid.shares@[k] == nodes[r].shares@[k]);
                    assert(nodes[r].data.role == NodeRole::Contributor);
                    assert(nodes[r].shares@[k].count == 1);
                },
                MessageType::SendData => {
                    if out.len() > 0 {
                        let children = handler.data.tree_node.children@;
                        let parts = crate::node::collected_by(handler)->Some_0;
                        let agg = handler.data.aggregates@;
                        let share = m.content.data->Some_0;
                        assert(agg == nodes[r].data.aggregates@.insert(m.emitter, share));
                        assert forall|k: Address| #[trigger] agg.contains_key(k) implies k < after.len()
                            && agg[k].count == lane_count(after, k as int) by {
                            if k != m.emitter {
                                assert(nodes[r].data.aggregates@.contains_key(k));
                            }
                        }
                        assert(children.subrange(0, children.len() as int) == children);
                        lemma_collected_count(after, r, agg, children.len() as int);
                        assert(sends_fold(
                            out[0],
                            mid,
                            mid.data.tree_node.parents@[own_position(mid)->Some_0],
                            parts,
                        ));
                    }
                },
                _ => {},
            }
        }
        lemma_insert_all_counted(after, rest, out);
        assert forall|i: int, k: Address|
            0 <= i < after.len() && #[trigger] after[i].data.aggregates@.contains_key(k) implies k
            < after.len() && after[i].data.aggregates@[k].count == lane_count(after, k as int) by {
            if i == r {
                if m.message_type == MessageType::SendData && handler.data.role != NodeRole::Contributor
                    && m.content.data is Some {
                    if k != m.emitter {
                        assert(nodes[r].data.aggregates@.contains_key(k));
                    }
                } else {
                    assert(handler.data.aggregates == nodes[r].data.aggregates);
                    assert(nodes[r].data.aggregates@.contains_key(k));
                }
            } else {
                assert(after[i] == nodes[i]);
                assert(nodes[i].data.aggregates@.contains_key(k));
            }
        }
        assert forall|i: int, j: int|
            0 <= i < after.len() && after[i].data.role == NodeRole::Contributor && 0 <= j
                < after[i].shares@.len() implies (#[trigger] after[i].shares@[j]).count == 1 by {
            if i == r {
                if m.message_type == MessageType::RequestData && mid.data.role == NodeRole::Contributor
                    && mid.shares@.len() == 0 && crate::node::split_fits(mid) {
                    assert(handler.shares@[j].share == crate::node::split_values(
                        mid.data.secret_value as int,
                        mid.data.share_offsets@,
                    )[j]);
                } else {
                    assert(handler.shares@ == nodes[r].shares@);
                    assert(nodes[r].shares@[j].count == 1);
                }
            } else {
                assert(after[i] == nodes[i]);
                assert(nodes[i].shares@[j].count == 1);
            }
        }
    }
}

/// No node holds a share received from a child or a share it prepared.
pub open spec fn holds_no_share(nodes: Seq<Node>) -> bool {
    forall|a: int|
        0 <= a < nodes.len() ==> (#[trigger] nodes[a]).data.aggregates@ == Map::<Address, Share>::empty()
            && nodes[a].shares@.len() == 0
}

/// Two node sequences that agree on every node's address, topology, held
/// shares and prepared shares.
pub open spec fn same_holdings(a: Seq<Node>, b: Seq<Node>) -> bool {
    &&& a.len() == b.len()
    &&& forall|i: int|
        0 <= i < a.len() ==> {
            &&& (#[trigger] b[i]).data.tree_node == a[i].data.tree_node
            &&& b[i].data.address == a[i].data.address
            &&& b[i].data.aggregates@ == a[i].data.aggregates@
            &&& b[i].shares@ == a[i].shares@
        }
}

/// Layout and emptiness facts of a freshly built tree carry over to nodes that
/// agree with it on addresses, topology and shares.
pub proof fn lemma_fresh_layout_kept(a: Seq<Node>, b: Seq<Node>)
    requires
        same_holdings(a, b),
        children_after(a),
        addresses_match(a),
        holds_no_share(a),
    ensures
        children_after(b),
        addresses_match(b),
        holds_no_share(b),
{
    assert forall|x: int, i: int, k: int|
        0 <= x < b.len() && 0 <= i < b[x].data.tree_node.children@.len() && 0 <= k
            < b[x].data.tree_node.children@[i]@.len() implies x < (
        #[trigger] b[x].data.tree_node.children@[i]@[k]) < b.len() by {
        assert(b[x].data.tree_node == a[x].data.tree_node);
    }
    assert forall|x: int| 0 <= x < b.len() implies (#[trigger] b[x]).data.address == x by {
        assert(a[x].data.address == x);
    }
    assert forall|x: int| 0 <= x < b.len() implies (#[trigger] b[x]).data.aggregates@ == Map::<
        Address,
        Share,
    >::empty() && b[x].shares@.len() == 0 by {
        assert(a[x].data.aggregates@ == Map::<Address, Share>::empty());
    }
}

/// A freshly built simulation whose queue holds no share satisfies the
/// counting invariant.
pub proof fn lemma_fresh_counts(m: Manager)
    requires
        children_after(m.nodes@),
        addresses_match(m.nodes@),
        holds_no_share(m.nodes@),
        forall|i: int| 0 <= i < m.message_queue@.len() ==> (#[trigger] m.message_queue@[i]).content.data is None,
    ensures
        counts_ok(m),
{
    let nodes = m.nodes@;
    assert forall|i: int, k: Address|
        0 <= i < nodes.len() && #[trigger] nodes[i].data.aggregates@.contains_key(k) implies k
        < nodes.len() && nodes[i].data.aggregates@[k].count == lane_count(nodes, k as int) by {
        assert(nodes[i].data.aggregates@ == Map::<Address, Share>::empty());
    }
    assert forall|i: int, j: int|
        0 <= i < nodes.len() && nodes[i].data.role == NodeRole::Contributor && 0 <= j
            < nodes[i].shares@.len() implies (#[trigger] nodes[i].shares@[j]).count == 1 by {
        assert(nodes[i].shares@.len() == 0);
    }
    assert forall|i: int| 0 <= i < m.message_queue@.len() implies share_counted(
        nodes,
        #[trigger] m.message_queue@[i],
    ) by {}
}

/// Queuing messages that hold no share into a queue whose messages hold none
/// leaves a queue whose messages hold none.
pub proof fn lemma_insert_all_plain(q: Seq<Message>, out: Seq<Message>)
    requires
        forall|i: int| 0 <= i < q.len() ==> (#[trigger] q[i]).content.data is None,
        forall|i: int| 0 <= i < out.len() ==> (#[trigger] out[i]).content.data is None,
    ensures
        forall|i: int|
            0 <= i < queue_insert_all(q, out).len() ==> (#[trigger] queue_insert_all(q, out)[i]).content.data
                is None,
    decreases out.len(),
{
    if out.len() > 0 {
        let init = out.drop_last();
        assert forall|i: int| 0 <= i < init.len() implies (#[trigger] init[i]).content.data is None by {
            assert(init[i] == out[i]);
        }
        lemma_insert_all_plain(q, init);
        let base = queue_insert_all(q, init);
        let last = out[out.len() - 1];
        assert(out.last() == last);
        crate::queue::lemma_insert_index_bounds(base, last);
        let k = insertion_index(base, last);
        let r = queue_insert(base, last);
        assert forall|i: int| 0 <= i < r.len() implies (#[trigger] r[i]).content.data is None by {
            if i < k {
                assert(r[i] == base[i]);
            } else if i > k {
                assert(r[i] == base[i - 1]);
            }
        }
    }
}

} // verus!
