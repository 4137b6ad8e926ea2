use vstd::prelude::*;

use crate::common::Address;
use crate::manager::{step, Manager};
use crate::message::{comes_after, Message, MessageType};
use crate::node::{
    arrives_dead, bounces, clock_raised_to, collected, expected_child, handled, health_requests, Node,
    NodeRole,
};
use crate::queue::{insertion_index, last_after, queue_insert, queue_insert_all};
use crate::recording::Recording;
use crate::run::RunSettings;
use crate::shares::{count_sum, value_sum, Share};
use crate::setup::{
    initial_messages, lemma_cut_off_same, lemma_failed_count_same, same_failures, set_up,
    with_lifetimes,
};
use crate::setup::contributor_count;
use crate::node::{child_channels, flatten, initial_channels, setup_messages};
use crate::run::construction_latency;
use crate::tree::{group_views, lemma_tree_laid_unique, same_shape};

verus! {

/// What the simulation reads of a share: its value and count (not its identifier).
pub open spec fn share_outline(s: Share) -> (i64, usize) {
    (s.share, s.count)
}

/// The outlines of a sequence of shares.
pub open spec fn shares_outline(s: Seq<Share>) -> Seq<(i64, usize)> {
    s.map_values(|x: Share| share_outline(x))
}

/// A message with its share reduced to its outline.
pub open spec fn message_outline(m: Message) -> (
    (bool, u64, Address, u64),
    (Address, MessageType, u64),
    (Option<(i64, usize)>, Option<Address>),
) {
    (
        (m.delivered, m.departure_time, m.emitter, m.arrival_time),
        (m.receiver, m.message_type, m.work),
        (
            match m.content.data {
                Some(s) => Some(share_outline(s)),
                None => None,
            },
            m.content.target_node,
        ),
    )
}

/// The outlines of a sequence of messages.
pub open spec fn messages_outline(q: Seq<Message>) -> Seq<
    ((bool, u64, Address, u64), (Address, MessageType, u64), (Option<(i64, usize)>, Option<Address>)),
> {
    q.map_values(|m: Message| message_outline(m))
}

proof fn lemma_outline_drop_last(q1: Seq<Message>, q2: Seq<Message>)
    requires
        messages_outline(q1) == messages_outline(q2),
        q1.len() > 0,
    ensures
        messages_outline(q1.drop_last()) == messages_outline(q2.drop_last()),
        message_outline(q1.last()) == message_outline(q2.last()),
        q1.len() == q2.len(),
{
    assert(messages_outline(q1).len() == q1.len());
    assert(messages_outline(q2).len() == q2.len());
    assert(messages_outline(q1.drop_last()) =~= messages_outline(q1).drop_last());
    assert(messages_outline(q2.drop_last()) =~= messages_outline(q2).drop_last());
    assert(messages_outline(q1)[q1.len() - 1] == messages_outline(q2)[q2.len() - 1]);
}

proof fn lemma_last_after_outline(q1: Seq<Message>, q2: Seq<Message>, m1: Message, m2: Message)
    requires
        messages_outline(q1) == messages_outline(q2),
        message_outline(m1) == message_outline(m2),
    ensures
        last_after(q1, m1) == last_after(q2, m2),
        q1.len() == q2.len(),
    decreases q1.len(),
{
    assert(messages_outline(q1).len() == q1.len());
    assert(messages_outline(q2).len() == q2.len());
    if q1.len() > 0 {
        lemma_outline_drop_last(q1, q2);
        lemma_last_after_outline(q1.drop_last(), q2.drop_last(), m1, m2);
        assert(comes_after(q1.last(), m1) == comes_after(q2.last(), m2));
    }
}

proof fn lemma_insert_outline(q1: Seq<Message>, q2: Seq<Message>, m1: Message, m2: Message)
    requires
        messages_outline(q1) == messages_outline(q2),
        message_outline(m1) == message_outline(m2),
    ensures
        messages_outline(queue_insert(q1, m1)) == messages_outline(queue_insert(q2, m2)),
{
    lemma_last_after_outline(q1, q2, m1, m2);
    crate::queue::lemma_insert_index_bounds(q1, m1);
    let k = insertion_index(q1, m1);
    let r1 = queue_insert(q1, m1);
    let r2 = queue_insert(q2, m2);
    assert(messages_outline(q1).len() == q1.len());
    assert forall|i: int| 0 <= i < r1.len() implies message_outline(r1[i]) == message_outline(r2[i]) by {
        if i < k {
            assert(messages_outline(q1)[i] == messages_outline(q2)[i]);
        } else if i > k {
            assert(messages_outline(q1)[i - 1] == messages_outline(q2)[i - 1]);
        }
    }
    assert(messages_outline(r1) =~= messages_outline(r2));
}

proof fn lemma_insert_all_outline(q1: Seq<Message>, q2: Seq<Message>, o1: Seq<Message>, o2: Seq<Message>)
    requires
        messages_outline(q1) == messages_outline(q2),
        messages_outline(o1) == messages_outline(o2),
    ensures
        messages_outline(queue_insert_all(q1, o1)) == messages_outline(queue_insert_all(q2, o2)),
    decreases o1.len(),
{
    assert(messages_outline(o1).len() == o1.len());
    assert(messages_outline(o2).len() == o2.len());
    if o1.len() > 0 {
        lemma_outline_drop_last(o1, o2);
        lemma_insert_all_outline(q1, q2, o1.drop_last(), o2.drop_last());
        lemma_insert_outline(
            queue_insert_all(q1, o1.drop_last()),
            queue_insert_all(q2, o2.drop_last()),
            o1.last(),
            o2.last(),
        );
    }
}

proof fn lemma_sums_outline(a: Seq<Share>, b: Seq<Share>)
    requires
        shares_outline(a) == shares_outline(b),
    ensures
        value_sum(a) == value_sum(b),
        count_sum(a) == count_sum(b),
    decreases a.len(),
{
    assert(shares_outline(a).len() == a.len());
    assert(shares_outline(b).len() == b.len());
    if a.len() > 0 {
        assert(shares_outline(a.drop_last()) =~= shares_outline(a).drop_last());
        assert(shares_outline(b.drop_last()) =~= shares_outline(b).drop_last());
        assert(shares_outline(a)[a.len() - 1] == shares_outline(b)[b.len() - 1]);
        lemma_sums_outline(a.drop_last(), b.drop_last());
    }
}

proof fn lemma_collected_outline(
    groups: Seq<Vec<Address>>,
    groups2: Seq<Vec<Address>>,
    role: NodeRole,
    pos: Option<int>,
    agg1: Map<Address, Share>,
    agg2: Map<Address, Share>,
)
    requires
        agg1.map_values(|s: Share| share_outline(s)) == agg2.map_values(|s: Share| share_outline(s)),
        group_views(groups) == group_views(groups2),
    ensures
        (collected(groups, role, pos, agg1) is Some) == (collected(groups2, role, pos, agg2) is Some),
        collected(groups, role, pos, agg1) is Some ==> shares_outline(
            collected(groups, role, pos, agg1)->Some_0,
        ) == shares_outline(collected(groups2, role, pos, agg2)->Some_0),
    decreases groups.len(),
{
    assert(group_views(groups).len() == groups.len());
    assert(group_views(groups2).len() == groups2.len());
    let v1 = agg1.map_values(|s: Share| share_outline(s));
    let v2 = agg2.map_values(|s: Share| share_outline(s));
    assert forall|k: Address| agg1.contains_key(k) == agg2.contains_key(k) by {
        assert(v1.contains_key(k) == agg1.contains_key(k));
        assert(v2.contains_key(k) == agg2.contains_key(k));
    }
    if groups.len() > 0 {
        assert(group_views(groups.drop_last()) =~= group_views(groups).drop_last());
        assert(group_views(groups2.drop_last()) =~= group_views(groups2).drop_last());
        assert(group_views(groups)[groups.len() - 1] == group_views(groups2)[groups2.len() - 1]);
        assert(groups.last()@ == groups2.last()@);
        lemma_collected_outline(groups.drop_last(), groups2.drop_last(), role, pos, agg1, agg2);
        match collected(groups.drop_last(), role, pos, agg1) {
            Some(prev1) => {
                let prev2 = collected(groups2.drop_last(), role, pos, agg2)->Some_0;
                match expected_child(role, groups.last()@, pos) {
                    Some(a) => {
                        if agg1.contains_key(a) {
                            assert(v1[a] == v2[a]);
                            assert(shares_outline(prev1.push(agg1[a])) =~= shares_outline(prev1).push(
                                share_outline(agg1[a]),
                            ));
                            assert(shares_outline(prev2.push(agg2[a])) =~= shares_outline(prev2).push(
                                share_outline(agg2[a]),
                            ));
                        }
                    },
                    None => {},
                }
            },
            None => {},
        }
    }
}

proof fn lemma_health_requests_same(n1: Node, n2: Node, chs: Seq<crate::node::ChannelState>)
    requires
        n1.data.local_time == n2.data.local_time,
        n1.data.address == n2.data.address,
        n1.data.settings.costs == n2.data.settings.costs,
    ensures
        health_requests(n1, chs) == health_requests(n2, chs),
    decreases chs.len(),
{
    if chs.len() > 0 {
        lemma_health_requests_same(n1, n2, chs.drop_last());
    }
}

/// What the simulation reads of the settings (all but the seed).
pub open spec fn settings_outline(s: RunSettings) -> (
    crate::run::BuildingBlocks,
    u64,
    u64,
    crate::run::CostsSettings,
    crate::run::TreeSettings,
) {
    (s.building_blocks, s.average_failure_time, s.health_check_period, s.costs, s.tree)
}

/// A node with every share reduced to its outline.
pub open spec fn node_outline(n: Node) -> (
    ((
        crate::run::BuildingBlocks,
        u64,
        u64,
        crate::run::CostsSettings,
        crate::run::TreeSettings,
    ), Address, NodeRole, u64, u64),
    (Seq<crate::node::ChannelState>, Address, u8, Seq<Address>, Seq<Address>, Seq<Seq<Address>>),
    (bool, Map<Address, (i64, usize)>, i64, Seq<i64>, Seq<(i64, usize)>),
) {
    (
        (
            settings_outline(n.data.settings),
            n.data.address,
            n.data.role,
            n.data.local_time,
            n.data.death_time,
        ),
        (
            n.data.opened_channels@,
            n.data.tree_node.address,
            n.data.tree_node.depth,
            n.data.tree_node.members@,
            n.data.tree_node.parents@,
            group_views(n.data.tree_node.children@),
        ),
        (
            n.data.finished_working,
            n.data.aggregates@.map_values(|s: Share| share_outline(s)),
            n.data.secret_value,
            n.data.share_offsets@,
            shares_outline(n.shares@),
        ),
    )
}

/// Handling equal messages on equal nodes gives equal nodes and equal follow-ups,
/// up to the identifiers of shares.
proof fn lemma_handled_outline(
    p1: Node,
    m1: Message,
    h1: Node,
    o1: Seq<Message>,
    p2: Node,
    m2: Message,
    h2: Node,
    o2: Seq<Message>,
)
    requires
        node_outline(p1) == node_outline(p2),
        message_outline(m1) == message_outline(m2),
        handled(p1, m1, h1, o1),
        handled(p2, m2, h2, o2),
    ensures
        node_outline(h1) == node_outline(h2),
        messages_outline(o1) == messages_outline(o2),
{
    assert(m1.message_type == m2.message_type);
    assert(m1.emitter == m2.emitter);
    assert(p1.data.settings.costs == p2.data.settings.costs);
    assert(shares_outline(p1.shares@).len() == p1.shares@.len());
    assert(shares_outline(p2.shares@).len() == p2.shares@.len());
    match m1.message_type {
        MessageType::ScheduleHealthCheck => {
            lemma_health_requests_same(p1, p2, p1.data.opened_channels@);
            assert(o1 == o2);
            assert(node_outline(h1) == node_outline(p1));
            assert(node_outline(h2) == node_outline(p2));
        },
        MessageType::RequestData => {
            if p1.data.role == NodeRole::Contributor && p1.shares@.len() == 0
                && crate::node::split_fits(p1) {
                assert(shares_outline(h1.shares@) =~= shares_outline(h2.shares@));
                assert(o1 =~= o2);
            }
        },
        MessageType::PrepareData => {
            if o1.len() > 0 {
                let t = m1.content.target_node->Some_0;
                crate::tree_node::lemma_position_in_range(p1.data.tree_node.parents@, t);
                let k = crate::tree_node::position_in(p1.data.tree_node.parents@, t)->Some_0;
                assert(shares_outline(p1.shares@)[k] == shares_outline(p2.shares@)[k]);
                assert(messages_outline(o1) =~= messages_outline(o2));
            }
        },
        MessageType::SendData => {
            if p1.data.role != NodeRole::Contributor && m1.content.data is Some {
                let f = |s: Share| share_outline(s);
                let s1 = m1.content.data->Some_0;
                let s2 = m2.content.data->Some_0;
                assert(share_outline(s1) == share_outline(s2));
                assert(h1.data.aggregates@.map_values(f) =~= h2.data.aggregates@.map_values(f)) by {
                    assert(p1.data.aggregates@.map_values(f) == p2.data.aggregates@.map_values(f));
                    assert forall|k: Address| #[trigger] h1.data.aggregates@.contains_key(k)
                        == h2.data.aggregates@.contains_key(k) by {
                        assert(p1.data.aggregates@.map_values(f).contains_key(k)
                            == p1.data.aggregates@.contains_key(k));
                        assert(p2.data.aggregates@.map_values(f).contains_key(k)
                            == p2.data.aggregates@.contains_key(k));
                    }
                    assert forall|k: Address| #[trigger] h1.data.aggregates@.contains_key(k) implies f(
                        h1.data.aggregates@[k],
                    ) == f(h2.data.aggregates@[k]) by {
                        if k != m1.emitter {
                            assert(p1.data.aggregates@.map_values(f)[k] == p2.data.aggregates@.map_values(
                                f,
                            )[k]);
                        }
                    }
                }
                lemma_collected_outline(
                    h1.data.tree_node.children@,
                    h2.data.tree_node.children@,
                    h1.data.role,
                    crate::node::own_position(h1),
                    h1.data.aggregates@,
                    h2.data.aggregates@,
                );
                assert(crate::node::own_position(h1) == crate::node::own_position(h2));
                assert(h1.data.tree_node.children@ == p1.data.tree_node.children@);
                assert(group_views(h1.data.tree_node.children@) == group_views(
                    h2.data.tree_node.children@,
                ));
                if crate::node::collected_by(h1) is Some {
                    let parts1 = crate::node::collected_by(h1)->Some_0;
                    let parts2 = crate::node::collected_by(h2)->Some_0;
                    lemma_sums_outline(parts1, parts2);
                    assert(messages_outline(o1) =~= messages_outline(o2));
                }
            }
        },
        _ => {},
    }
}

/// A recording with every share reduced to its outline.
pub open spec fn recording_outline(r: Recording) -> (
    (crate::run::BuildingBlocks, u64, u64, crate::run::CostsSettings, crate::run::TreeSettings),
    (u64, u64, u64, usize, usize),
    Seq<((bool, u64, Address, u64), (Address, MessageType, u64), (Option<(i64, usize)>, Option<Address>))>,
    bool,
) {
    (
        settings_outline(r.settings),
        (r.total_latency, r.total_work, r.total_bandwidth, r.initial_contributors, r.final_contributors),
        messages_outline(r.sent_messages@),
        r.full_export,
    )
}

/// The whole state of a run with every share reduced to its outline: what the
/// run reads and what its trace shows.
pub open spec fn run_outline(m: Manager) -> (
    (crate::run::BuildingBlocks, u64, u64, crate::run::CostsSettings, crate::run::TreeSettings),
    Seq<
        (
            ((
                crate::run::BuildingBlocks,
                u64,
                u64,
                crate::run::CostsSettings,
                crate::run::TreeSettings,
            ), Address, NodeRole, u64, u64),
            (Seq<crate::node::ChannelState>, Address, u8, Seq<Address>, Seq<Address>, Seq<Seq<Address>>),
            (bool, Map<Address, (i64, usize)>, i64, Seq<i64>, Seq<(i64, usize)>),
        ),
    >,
    (Address, u64),
    Seq<((bool, u64, Address, u64), (Address, MessageType, u64), (Option<(i64, usize)>, Option<Address>))>,
    (
        (crate::run::BuildingBlocks, u64, u64, crate::run::CostsSettings, crate::run::TreeSettings),
        (u64, u64, u64, usize, usize),
        Seq<((bool, u64, Address, u64), (Address, MessageType, u64), (Option<(i64, usize)>, Option<Address>))>,
        bool,
    ),
) {
    (
        settings_outline(m.settings),
        m.nodes@.map_values(|n: Node| node_outline(n)),
        (m.querier_address, m.current_time),
        messages_outline(m.message_queue@),
        recording_outline(m.recording),
    )
}

proof fn lemma_recorded_outline(r1: Recording, m1: Message, s1: Recording, r2: Recording, m2: Message, s2: Recording)
    requires
        recording_outline(r1) == recording_outline(r2),
        message_outline(m1) == message_outline(m2),
        crate::recording::recorded(r1, m1, s1),
        crate::recording::recorded(r2, m2, s2),
    ensures
        recording_outline(s1) == recording_outline(s2),
{
    assert(messages_outline(r1.sent_messages@.push(m1)) =~= messages_outline(r1.sent_messages@).push(
        message_outline(m1),
    ));
    assert(messages_outline(r2.sent_messages@.push(m2)) =~= messages_outline(r2.sent_messages@).push(
        message_outline(m2),
    ));
}

/// One step of the event loop from states with equal outlines leads to states
/// with equal outlines.
pub proof fn lemma_step_outline(pre1: Manager, post1: Manager, pre2: Manager, post2: Manager)
    requires
        run_outline(pre1) == run_outline(pre2),
        pre1.message_queue@.len() > 0,
        step(pre1, post1),
        step(pre2, post2),
    ensures
        run_outline(post1) == run_outline(post2),
{
    reveal(step);
    let q1 = pre1.message_queue@;
    let q2 = pre2.message_queue@;
    lemma_outline_drop_last(q1, q2);
    let m1 = pre1.next_message();
    let m2 = pre2.next_message();
    let rest1 = q1.drop_last();
    let rest2 = q2.drop_last();
    let f = |n: Node| node_outline(n);
    let n1 = pre1.nodes@;
    let n2 = pre2.nodes@;
    assert(n1.map_values(f).len() == n1.len());
    assert(n2.map_values(f).len() == n2.len());
    assert(n1.len() == n2.len());
    assert(m1.receiver == m2.receiver);
    let r = m1.receiver as int;
    if 0 <= r < n1.len() {
        assert(n1.map_values(f)[r] == n2.map_values(f)[r]);
        assert(node_outline(n1[r]) == node_outline(n2[r]));
    }
    if m1.receiver >= n1.len() || arrives_dead(n1[r], m1) {
        lemma_recorded_outline(pre1.recording, m1, post1.recording, pre2.recording, m2, post2.recording);
    } else if bounces(n1[r], m1) {
        let back1 = Message { arrival_time: n1[r].data.local_time, ..m1 };
        let back2 = Message { arrival_time: n2[r].data.local_time, ..m2 };
        lemma_insert_outline(rest1, rest2, back1, back2);
    } else {
        let mid1 = clock_raised_to(n1[r], m1.arrival_time);
        let mid2 = clock_raised_to(n2[r], m2.arrival_time);
        let h1 = post1.nodes@[r];
        let h2 = post2.nodes@[r];
        let o1 = choose|out: Seq<Message>|
            handled(mid1, m1, h1, out) && post1.message_queue@ == #[trigger] queue_insert_all(
                rest1,
                out,
            );
        let o2 = choose|out: Seq<Message>|
            handled(mid2, m2, h2, out) && post2.message_queue@ == #[trigger] queue_insert_all(
                rest2,
                out,
            );
        assert(node_outline(mid1) == node_outline(mid2));
        lemma_handled_outline(mid1, m1, h1, o1, mid2, m2, h2, o2);
        lemma_insert_all_outline(rest1, rest2, o1, o2);
        assert(post1.nodes@.map_values(f) =~= post2.nodes@.map_values(f)) by {
            assert forall|i: int| 0 <= i < post1.nodes@.len() implies #[trigger] f(post1.nodes@[i]) == f(
                post2.nodes@[i],
            ) by {
                if i != r {
                    assert(n1.map_values(f)[i] == n2.map_values(f)[i]);
                }
            }
        }
        lemma_recorded_outline(
            pre1.recording,
            crate::manager::delivered_as(m1, mid1.data.local_time, h1.data.local_time),
            post1.recording,
            pre2.recording,
            crate::manager::delivered_as(m2, mid2.data.local_time, h2.data.local_time),
            post2.recording,
        );
    }
}

/// Two runs that start from states with equal outlines and take the same
/// number of steps stay in states with equal outlines: the same messages are
/// delivered in the same order at the same times with the same work, so their
/// traces are identical.
pub proof fn lemma_runs_agree(a: Seq<Manager>, b: Seq<Manager>)
    requires
        a.len() == b.len(),
        a.len() > 0,
        run_outline(a[0]) == run_outline(b[0]),
        forall|k: int|
            0 <= k < a.len() - 1 ==> (#[trigger] a[k]).message_queue@.len() > 0 && step(a[k], a[k + 1])
                && step(b[k], b[k + 1]),
    ensures
        forall|k: int| 0 <= k < a.len() ==> run_outline(#[trigger] a[k]) == run_outline(b[k]),
        forall|k: int|
            0 <= k < a.len() ==> messages_outline((#[trigger] a[k]).recording.sent_messages@)
                == messages_outline(b[k].recording.sent_messages@),
    decreases a.len(),
{
    if a.len() > 1 {
        let n = a.len() - 1;
        let ia = a.drop_last();
        let ib = b.drop_last();
        assert forall|k: int| 0 <= k < ia.len() - 1 implies (#[trigger] ia[k]).message_queue@.len() > 0
            && step(ia[k], ia[k + 1]) && step(ib[k], ib[k + 1]) by {
            assert(ia[k] == a[k] && ia[k + 1] == a[k + 1]);
            assert(ib[k] == b[k] && ib[k + 1] == b[k + 1]);
            assert(a[k].message_queue@.len() > 0);
        }
        lemma_runs_agree(ia, ib);
        assert(ia[n - 1] == a[n - 1] && ib[n - 1] == b[n - 1]);
        assert(a[n - 1].message_queue@.len() > 0);
        lemma_step_outline(a[n - 1], a[n], b[n - 1], b[n]);
        assert forall|k: int| 0 <= k < a.len() implies run_outline(#[trigger] a[k]) == run_outline(b[k]) by {
            if k < n {
                assert(ia[k] == a[k] && ib[k] == b[k]);
            }
        }
    }
}

proof fn lemma_child_channels_same(g1: Seq<Vec<Address>>, g2: Seq<Vec<Address>>, p: int)
    requires
        group_views(g1) == group_views(g2),
    ensures
        child_channels(g1, p) == child_channels(g2, p),
    decreases g1.len(),
{
    assert(group_views(g1).len() == g1.len() && group_views(g2).len() == g2.len());
    if g1.len() > 0 {
        assert(group_views(g1.drop_last()) =~= group_views(g1).drop_last());
        assert(group_views(g2.drop_last()) =~= group_views(g2).drop_last());
        assert(group_views(g1)[g1.len() - 1] == group_views(g2)[g2.len() - 1]);
        lemma_child_channels_same(g1.drop_last(), g2.drop_last(), p);
    }
}

proof fn lemma_flatten_same(g1: Seq<Vec<Address>>, g2: Seq<Vec<Address>>)
    requires
        group_views(g1) == group_views(g2),
    ensures
        flatten(g1) == flatten(g2),
    decreases g1.len(),
{
    assert(group_views(g1).len() == g1.len() && group_views(g2).len() == g2.len());
    if g1.len() > 0 {
        assert(group_views(g1.drop_last()) =~= group_views(g1).drop_last());
        assert(group_views(g2.drop_last()) =~= group_views(g2).drop_last());
        assert(group_views(g1)[g1.len() - 1] == group_views(g2)[g2.len() - 1]);
        lemma_flatten_same(g1.drop_last(), g2.drop_last());
    }
}

proof fn lemma_initial_node_same(a: Node, b: Node, t: u64)
    requires
        same_shape(a, b),
        a.data.settings.costs == b.data.settings.costs,
    ensures
        initial_channels(a) == initial_channels(b),
        setup_messages(a, t) == setup_messages(b, t),
{
    let ca = a.data.tree_node.children@;
    let cb = b.data.tree_node.children@;
    lemma_flatten_same(ca, cb);
    assert(crate::node::own_position(a) == crate::node::own_position(b));
    if crate::node::own_position(a) is Some {
        let p = crate::node::own_position(a)->Some_0;
        lemma_child_channels_same(ca, cb, p);
        assert(crate::node::parent_channel(a, p) == crate::node::parent_channel(b, p));
    }
    assert(group_views(ca).len() == ca.len() && group_views(cb).len() == cb.len());
    if ca.len() > 0 {
        assert(group_views(ca)[0] == group_views(cb)[0]);
        assert(ca[0]@ == cb[0]@);
    }
    assert(initial_channels(a) =~= initial_channels(b));
    assert(setup_messages(a, t) =~= setup_messages(b, t));
}

proof fn lemma_initial_messages_agree(n1: Seq<Node>, n2: Seq<Node>, t: u64, k: int)
    requires
        n1.len() == n2.len(),
        k <= n1.len(),
        forall|i: int|
            0 <= i < n1.len() ==> same_shape(#[trigger] n1[i], n2[i]) && n1[i].data.settings.costs
                == n2[i].data.settings.costs,
    ensures
        initial_messages(n1, t, k) == initial_messages(n2, t, k),
        contributor_count(n1, k) == contributor_count(n2, k),
    decreases k,
{
    if k > 0 {
        lemma_initial_messages_agree(n1, n2, t, k - 1);
        lemma_initial_node_same(n1[k - 1], n2[k - 1], t);
    }
}

/// Setting up two fresh runs whose outlines are equal, with the same draws,
/// gives two runs whose outlines are equal: the same tree, clocks, channels,
/// death times, queue and recording. With the event-loop law, two runs with
/// the same settings and draws emit the same trace.
pub proof fn lemma_setup_agrees(
    pre1: Manager,
    post1: Manager,
    pre2: Manager,
    post2: Manager,
    counts: Seq<usize>,
    lifetimes: Seq<u64>,
    offsets: Seq<i64>,
)
    requires
        run_outline(pre1) == run_outline(pre2),
        set_up(pre1, post1, counts, lifetimes, offsets),
        set_up(pre2, post2, counts, lifetimes, offsets),
    ensures
        run_outline(post1) == run_outline(post2),
{
    let n1 = post1.nodes@;
    let n2 = post2.nodes@;
    let tree = pre1.settings.tree;
    assert(pre2.settings.tree == tree);
    lemma_tree_laid_unique(n1, n2, tree, counts);
    let latency = construction_latency(tree, pre1.settings.costs);
    let l1 = with_lifetimes(n1, lifetimes);
    let l2 = with_lifetimes(n2, lifetimes);
    assert(same_failures(l1, l2)) by {
        assert forall|i: int| 0 <= i < l1.len() implies (#[trigger] l1[i]).data.death_time
            == l2[i].data.death_time && l1[i].data.tree_node.members@ == l2[i].data.tree_node.members@
            && l1[i].data.tree_node.parents@ == l2[i].data.tree_node.parents@ by {
            assert(same_shape(n1[i], n2[i]));
        }
    }
    lemma_failed_count_same(l1, l2, latency, n1.len() as int);
    assert(post1.current_time == post2.current_time);
    lemma_initial_messages_agree(n1, n2, post1.current_time, n1.len() as int);
    let f = |n: Node| node_outline(n);
    assert forall|i: int| 0 <= i < n1.len() implies #[trigger] f(n1[i]) == f(n2[i]) by {
        assert(same_shape(n1[i], n2[i]));
        lemma_cut_off_same(l1, l2, latency, i);
        lemma_initial_node_same(n1[i], n2[i], post1.current_time);
        assert(n1[i].data.aggregates@.map_values(|s: Share| share_outline(s)) =~= n2[i].data.aggregates@.map_values(
            |s: Share| share_outline(s),
        ));
        assert(shares_outline(n1[i].shares@) =~= shares_outline(n2[i].shares@));
    }
    assert(n1.map_values(f) =~= n2.map_values(f));
}

} // verus!
