use std::collections::HashMap;
use vstd::prelude::*;

use crate::common::Address;
use crate::message::{fresh_message, Message, MessageContent, MessageType};
use crate::run::{clamp_time, RunSettings};
use crate::shares::{aggregate_id, count_sum, decimal, sums_fit, value_sum, Share};
use crate::tree_node::{position_in, TreeNode};

verus! {

broadcast use vstd::std_specs::hash::group_hash_axioms;

/// One end of a channel between two nodes.
#[derive(Clone, Copy, Debug, PartialEq, Eq, Structural)]
pub struct ChannelState {
    pub peer_address: Address,
    /// Whether this end sends periodic health checks to the peer.
    pub maintained: bool,
}

impl ChannelState {
    /// A channel towards `peer`.
    pub fn new(peer: Address, maintained: bool) -> (r: ChannelState)
        ensures
            r.peer_address == peer,
            r.maintained == maintained,
    {
        ChannelState { peer_address: peer, maintained }
    }
}

/// The part a node plays in the protocol.
#[derive(Clone, Copy, Debug, PartialEq, Eq, Structural)]
pub enum NodeRole {
    Querier,
    Aggregator,
    LeafAggregator,
    Contributor,
    Replacement,
}

/// Name of a role.
pub open spec fn role_name(r: NodeRole) -> Seq<char> {
    match r {
        NodeRole::Querier => "Querier"@,
        NodeRole::Aggregator => "Aggregator"@,
        NodeRole::LeafAggregator => "LeafAggregator"@,
        NodeRole::Contributor => "Contributor"@,
        NodeRole::Replacement => "Replacement"@,
    }
}

impl NodeRole {
    /// The role's name.
    pub fn name(&self) -> (r: &'static str)
        ensures
            r@ == role_name(*self),
    {
        match self {
            NodeRole::Querier => "Querier",
            NodeRole::Aggregator => "Aggregator",
            NodeRole::LeafAggregator => "LeafAggregator",
            NodeRole::Contributor => "Contributor",
            NodeRole::Replacement => "Replacement",
        }
    }
}

/// The secret every node starts with.
pub const DEFAULT_SECRET: i64 = 50;

/// Runtime state shared by every role.
#[derive(Debug)]
pub struct NodeData {
    pub settings: RunSettings,
    pub address: Address,
    pub role: NodeRole,
    /// The node's logical clock.
    pub local_time: u64,
    /// The instant at which the node crashes.
    pub death_time: u64,
    pub opened_channels: Vec<ChannelState>,
    pub tree_node: TreeNode,
    /// Set once the querier has received every expected share.
    pub finished_working: bool,
    /// Share received from each child, by emitter.
    pub aggregates: HashMap<Address, Share>,
    pub secret_value: i64,
    /// Offsets that a contributor's additive split uses.
    pub share_offsets: Vec<i64>,
}

/// A node of the simulation: the shared state and, for a contributor, the
/// shares it prepared.
#[derive(Debug)]
pub struct Node {
    pub data: NodeData,
    pub shares: Vec<Share>,
}

/// `t` moved forward by `k` times `d`, saturating at the largest time.
pub open spec fn later(t: u64, k: int, d: u64) -> u64 {
    clamp_time(t + k * d)
}

/// `t` moved forward by `k` times `d`, saturating at the largest time.
pub fn advance(t: u64, k: u64, d: u64) -> (r: u64)
    requires
        k <= 16,
    ensures
        r == later(t, k as int, d),
{
    assert(k * d <= 16 * u64::MAX) by (nonlinear_arith)
        requires
            k <= 16,
            d <= u64::MAX,
    ;
    let total: u128 = t as u128 + (k as u128) * (d as u128);
    if total > u64::MAX as u128 {
        u64::MAX
    } else {
        total as u64
    }
}

/// The node's clock.
pub open spec fn now(n: Node) -> u64 {
    n.data.local_time
}

/// One message latency after `t`.
pub open spec fn after_latency(n: Node, t: u64) -> u64 {
    later(t, 1, n.data.settings.costs.comm)
}

/// The node's position in its own group.
pub open spec fn own_position(n: Node) -> Option<int> {
    position_in(n.data.tree_node.members@, n.data.address)
}

/// Health-check requests towards each maintained channel, in order.
pub open spec fn health_requests(n: Node, chs: Seq<ChannelState>) -> Seq<Message>
    decreases chs.len(),
{
    if chs.len() == 0 {
        Seq::empty()
    } else {
        let prev = health_requests(n, chs.drop_last());
        if chs.last().maintained {
            prev.push(
                fresh_message(
                    MessageType::RequestHealth,
                    now(n),
                    n.data.address,
                    after_latency(n, now(n)),
                    chs.last().peer_address,
                ),
            )
        } else {
            prev
        }
    }
}

/// What a `ScheduleHealthCheck` produces: the health requests, then the next
/// check one period later.
pub open spec fn health_check_round(n: Node) -> Seq<Message> {
    health_requests(n, n.data.opened_channels@).push(
        fresh_message(
            MessageType::ScheduleHealthCheck,
            now(n),
            n.data.address,
            later(now(n), 1, n.data.settings.health_check_period),
            n.data.address,
        ),
    )
}

/// Every field but the clock, the channels, the aggregates, the completion flag
/// and the prepared shares is the same in `a` and `b`.
pub open spec fn same_frame(a: Node, b: Node) -> bool {
    &&& a.data.settings == b.data.settings
    &&& a.data.address == b.data.address
    &&& a.data.role == b.data.role
    &&& a.data.death_time == b.data.death_time
    &&& a.data.tree_node == b.data.tree_node
    &&& a.data.secret_value == b.data.secret_value
    &&& a.data.share_offsets == b.data.share_offsets
}

/// `post` is `pre` where only the clock, the channels and the shares may have changed.
pub open spec fn same_but_clock_channels_shares(pre: Node, post: Node) -> bool {
    &&& same_frame(pre, post)
    &&& post.data.aggregates == pre.data.aggregates
    &&& post.data.finished_working == pre.data.finished_working
}

/// `post` is `pre` where nothing observable has changed.
pub open spec fn unchanged(pre: Node, post: Node) -> bool {
    &&& same_but_clock_channels_shares(pre, post)
    &&& post.data.local_time == pre.data.local_time
    &&& post.data.opened_channels@ == pre.data.opened_channels@
    &&& post.shares@ == pre.shares@
}

/// `post` is `pre` after accepting a channel from `peer`: the channel is
/// maintained, and checking the peer's signature costs three crypto operations.
pub open spec fn channel_opened(pre: Node, post: Node, peer: Address) -> bool {
    &&& same_but_clock_channels_shares(pre, post)
    &&& post.data.local_time == later(now(pre), 3, pre.data.settings.costs.crypto)
    &&& post.data.opened_channels@ == pre.data.opened_channels@.push(
        ChannelState { peer_address: peer, maintained: true },
    )
    &&& post.shares@ == pre.shares@
}

/// Sum of a sequence of offsets.
pub open spec fn offset_sum(s: Seq<i64>) -> int
    decreases s.len(),
{
    if s.len() == 0 {
        0
    } else {
        offset_sum(s.drop_last()) + s.last()
    }
}

/// Values of an additive split of `secret`: each offset, then what remains.
pub open spec fn split_values(secret: int, offsets: Seq<i64>) -> Seq<int> {
    Seq::new(offsets.len(), |i: int| offsets[i] as int).push(secret - offset_sum(offsets))
}

/// Whether the last piece of the split of a node's secret fits a share.
pub open spec fn split_fits(n: Node) -> bool {
    i64::MIN <= n.data.secret_value - offset_sum(n.data.share_offsets@) <= i64::MAX
}

/// The `PrepareData` self-messages, one per parent, in order.
pub open spec fn prepare_requests(n: Node, parents: Seq<Address>) -> Seq<Message> {
    Seq::new(
        parents.len(),
        |i: int|
            Message {
                content: MessageContent { data: None, target_node: Some(parents[i]) },
                ..fresh_message(
                    MessageType::PrepareData,
                    now(n),
                    n.data.address,
                    after_latency(n, now(n)),
                    n.data.address,
                )
            },
    )
}

/// What a `RequestData` does to a node.
pub open spec fn request_data_step(pre: Node, post: Node, out: Seq<Message>) -> bool {
    if pre.data.role == NodeRole::Contributor && pre.shares@.len() == 0 && split_fits(pre) {
        &&& same_but_clock_channels_shares(pre, post)
        &&& post.data.opened_channels@ == pre.data.opened_channels@
        &&& post.data.local_time == later(now(pre), 3, pre.data.settings.costs.crypto)
        &&& post.shares@.len() == pre.data.share_offsets@.len() + 1
        &&& forall|i: int|
            0 <= i < post.shares@.len() ==> {
                &&& #[trigger] post.shares@[i].share == split_values(
                    pre.data.secret_value as int,
                    pre.data.share_offsets@,
                )[i]
                &&& post.shares@[i].count == 1
                &&& post.shares@[i].id@ == decimal(pre.data.address as nat)
            }
        &&& out == prepare_requests(post, pre.data.tree_node.parents@)
    } else {
        unchanged(pre, post) && out.len() == 0
    }
}

/// What a `PrepareData` produces: the share meant for the target parent.
pub open spec fn prepare_data_out(n: Node, msg: Message) -> Seq<Message> {
    if n.data.role == NodeRole::Contributor {
        match msg.content.target_node {
            Some(t) => match position_in(n.data.tree_node.parents@, t) {
                Some(i) => if i < n.shares@.len() {
                    seq![
                        Message {
                            content: MessageContent { data: Some(n.shares@[i]), target_node: None },
                            ..fresh_message(
                                MessageType::SendData,
                                now(n),
                                n.data.address,
                                after_latency(n, now(n)),
                                t,
                            )
                        },
                    ]
                } else {
                    Seq::empty()
                },
                None => Seq::empty(),
            },
            None => Seq::empty(),
        }
    } else {
        Seq::empty()
    }
}

/// The member of a child group whose share a node expects: the single
/// contributor for a leaf aggregator, the member at the node's own position
/// otherwise.
pub open spec fn expected_child(role: NodeRole, group: Seq<Address>, pos: Option<int>) -> Option<
    Address,
> {
    if role == NodeRole::LeafAggregator {
        if group.len() > 0 {
            Some(group[0])
        } else {
            None
        }
    } else {
        match pos {
            Some(p) => if 0 <= p < group.len() {
                Some(group[p])
            } else {
                None
            },
            None => None,
        }
    }
}

/// The expected shares of the child groups, in order, once all have arrived.
pub open spec fn collected(
    groups: Seq<Vec<Address>>,
    role: NodeRole,
    pos: Option<int>,
    agg: Map<Address, Share>,
) -> Option<Seq<Share>>
    decreases groups.len(),
{
    if groups.len() == 0 {
        Some(Seq::empty())
    } else {
        match collected(groups.drop_last(), role, pos, agg) {
            Some(prev) => match expected_child(role, groups.last()@, pos) {
                Some(a) => if agg.contains_key(a) {
                    Some(prev.push(agg[a]))
                } else {
                    None
                },
                None => None,
            },
            None => None,
        }
    }
}

/// The expected shares of a node's children, once all have arrived.
pub open spec fn collected_by(n: Node) -> Option<Seq<Share>> {
    collected(n.data.tree_node.children@, n.data.role, own_position(n), n.data.aggregates@)
}

/// `m` sends the fold of `parts` from `n` to `receiver`.
pub open spec fn sends_fold(m: Message, n: Node, receiver: Address, parts: Seq<Share>) -> bool {
    &&& m.delivered == false
    &&& m.departure_time == now(n)
    &&& m.emitter == n.data.address
    &&& m.arrival_time == after_latency(n, now(n))
    &&& m.receiver == receiver
    &&& m.message_type == MessageType::SendData
    &&& m.work == 0
    &&& m.content.target_node is None
    &&& m.content.data matches Some(s) && s.share == value_sum(parts) && s.count == count_sum(parts)
        && s.id@ == aggregate_id(parts)
}

/// What a `SendData` carrying `share` does to a node: the share is recorded
/// under its emitter; once every child group's expected share is there, the
/// querier is done and any other node sends the fold to the parent at its own
/// position. A contributor, which has no children, ignores it.
pub open spec fn send_data_step(pre: Node, msg: Message, post: Node, out: Seq<Message>) -> bool {
    if pre.data.role == NodeRole::Contributor {
        unchanged(pre, post) && out.len() == 0
    } else {
    match msg.content.data {
        None => unchanged(pre, post) && out.len() == 0,
        Some(share) => {
            &&& same_frame(pre, post)
            &&& post.data.local_time == pre.data.local_time
            &&& post.data.opened_channels@ == pre.data.opened_channels@
            &&& post.shares@ == pre.shares@
            &&& post.data.aggregates@ == pre.data.aggregates@.insert(msg.emitter, share)
            &&& post.data.finished_working == (pre.data.finished_working || (pre.data.role
                == NodeRole::Querier && collected_by(post) is Some))
            &&& if pre.data.role != NodeRole::Querier && collected_by(post) is Some {
                let parts = collected_by(post)->Some_0;
                match own_position(pre) {
                    Some(p) => if p < pre.data.tree_node.parents@.len() && sums_fit(parts) {
                        out.len() == 1 && sends_fold(
                            out[0],
                            pre,
                            pre.data.tree_node.parents@[p],
                            parts,
                        )
                    } else {
                        out.len() == 0
                    },
                    None => out.len() == 0,
                }
            } else {
                out.len() == 0
            }
        },
    }
    }
}

/// What a delivered message does to its receiver, by kind, once the clock has
/// been brought up to the arrival time.
pub open spec fn handled(pre: Node, msg: Message, post: Node, out: Seq<Message>) -> bool {
    match msg.message_type {
        MessageType::ScheduleHealthCheck => unchanged(pre, post) && out == health_check_round(pre),
        MessageType::RequestHealth => unchanged(pre, post) && out == seq![
            fresh_message(
                MessageType::ConfirmHealth,
                now(pre),
                pre.data.address,
                after_latency(pre, now(pre)),
                msg.emitter,
            ),
        ],
        MessageType::ConfirmHealth => unchanged(pre, post) && out.len() == 0,
        MessageType::Stop => unchanged(pre, post) && out.len() == 0,
        MessageType::OpenChannel => channel_opened(pre, post, msg.emitter) && out == seq![
            fresh_message(
                MessageType::ConfirmChannel,
                now(post),
                pre.data.address,
                after_latency(pre, now(post)),
                msg.emitter,
            ),
        ],
        MessageType::ConfirmChannel => channel_opened(pre, post, msg.emitter) && out.len() == 0,
        MessageType::RequestData => request_data_step(pre, post, out),
        MessageType::PrepareData => unchanged(pre, post) && out == prepare_data_out(pre, msg),
        MessageType::SendData => send_data_step(pre, msg, post, out),
    }
}

/// Whether a message for `n` is a crash: the node is dead when it arrives.
pub open spec fn arrives_dead(n: Node, msg: Message) -> bool {
    n.data.death_time <= msg.arrival_time
}

/// Whether a message for `n` bounces: it arrives in the past of the node's
/// clock and is not a health request.
pub open spec fn bounces(n: Node, msg: Message) -> bool {
    !arrives_dead(n, msg) && msg.arrival_time < n.data.local_time && msg.message_type
        != MessageType::RequestHealth
}

/// `pre` with its clock brought up to `t` (never back).
pub open spec fn clock_raised_to(pre: Node, t: u64) -> Node {
    Node {
        data: NodeData {
            local_time: if pre.data.local_time < t {
                t
            } else {
                pre.data.local_time
            },
            ..pre.data
        },
        ..pre
    }
}

/// The addresses of a sequence of groups, group after group.
pub open spec fn flatten(groups: Seq<Vec<Address>>) -> Seq<Address>
    decreases groups.len(),
{
    if groups.len() == 0 {
        Seq::empty()
    } else {
        flatten(groups.drop_last()) + groups.last()@
    }
}

/// Data requests from `n` at time `t` to each of `targets`.
pub open spec fn data_requests(n: Node, t: u64, targets: Seq<Address>) -> Seq<Message> {
    Seq::new(
        targets.len(),
        |i: int|
            fresh_message(
                MessageType::RequestData,
                t,
                n.data.address,
                after_latency(n, t),
                targets[i],
            ),
    )
}

/// The messages a node starts with at time `t`: every node but a contributor
/// schedules its first health check; the leader of a leaf-aggregator group also
/// asks every contributor below for data.
pub open spec fn setup_messages(n: Node, t: u64) -> Seq<Message> {
    let check = fresh_message(
        MessageType::ScheduleHealthCheck,
        t,
        n.data.address,
        t,
        n.data.address,
    );
    if n.data.role == NodeRole::Contributor {
        Seq::empty()
    } else if n.data.role == NodeRole::LeafAggregator && own_position(n) == Some(0int) {
        seq![check] + data_requests(n, t, flatten(n.data.tree_node.children@))
    } else {
        seq![check]
    }
}

/// Channels towards every member of `members` but `a`.
pub open spec fn peer_channels(members: Seq<Address>, a: Address, maintained: bool) -> Seq<
    ChannelState,
>
    decreases members.len(),
{
    if members.len() == 0 {
        Seq::empty()
    } else {
        let prev = peer_channels(members.drop_last(), a, maintained);
        if members.last() != a {
            prev.push(ChannelState { peer_address: members.last(), maintained })
        } else {
            prev
        }
    }
}

/// Maintained channels towards the member at position `p` of each child group.
pub open spec fn child_channels(groups: Seq<Vec<Address>>, p: int) -> Seq<ChannelState>
    decreases groups.len(),
{
    if groups.len() == 0 {
        Seq::empty()
    } else {
        let prev = child_channels(groups.drop_last(), p);
        if 0 <= p < groups.last()@.len() {
            prev.push(ChannelState { peer_address: groups.last()@[p], maintained: true })
        } else {
            prev
        }
    }
}

/// The channel towards the parent at position `p`, if there is one.
pub open spec fn parent_channel(n: Node, p: int) -> Seq<ChannelState> {
    if 0 <= p < n.data.tree_node.parents@.len() {
        seq![ChannelState { peer_address: n.data.tree_node.parents@[p], maintained: false }]
    } else {
        Seq::empty()
    }
}

/// The channels a node opens before the first message: the querier maintains
/// channels with the top group; an aggregator has a channel with its parent,
/// with its fellow members (the leader) or with the leader (the others), and
/// maintains channels with the member at its own position in each child group;
/// a leaf aggregator has a channel with its parent and maintains channels with
/// its fellow members.
pub open spec fn initial_channels(n: Node) -> Seq<ChannelState> {
    let members = n.data.tree_node.members@;
    let children = n.data.tree_node.children@;
    match n.data.role {
        NodeRole::Querier => if children.len() > 0 {
            Seq::new(
                children[0]@.len(),
                |i: int| ChannelState { peer_address: children[0]@[i], maintained: true },
            )
        } else {
            Seq::empty()
        },
        NodeRole::Aggregator => match own_position(n) {
            Some(p) => parent_channel(n, p) + (if p == 0 {
                peer_channels(members, n.data.address, false)
            } else {
                seq![ChannelState { peer_address: members[0], maintained: false }]
            }) + child_channels(children, p),
            None => Seq::empty(),
        },
        NodeRole::LeafAggregator => match own_position(n) {
            Some(p) => parent_channel(n, p) + peer_channels(members, n.data.address, true),
            None => Seq::empty(),
        },
        _ => Seq::empty(),
    }
}

impl Node {
    /// A node of the given role with the default secret, its clock at 0 and no
    /// lifetime yet (death time 0).
    pub fn new(settings: RunSettings, address: Address, role: NodeRole) -> (r: Node)
        ensures
            r.data.settings == settings,
            r.data.address == address,
            r.data.role == role,
            r.data.local_time == 0,
            r.data.death_time == 0,
            r.data.opened_channels@.len() == 0,
            r.data.tree_node.address == address,
            r.data.tree_node.members@.len() == 0,
            r.data.tree_node.parents@.len() == 0,
            r.data.tree_node.children@.len() == 0,
            r.data.tree_node.depth == 0,
            !r.data.finished_working,
            r.data.aggregates@ == Map::<Address, Share>::empty(),
            r.data.secret_value == DEFAULT_SECRET,
            r.data.share_offsets@.len() == 0,
            r.shares@.len() == 0,
    {
        Node {
            data: NodeData {
                settings,
                address,
                role,
                local_time: 0,
                death_time: 0,
                opened_channels: Vec::new(),
                tree_node: TreeNode::new(address),
                finished_working: false,
                aggregates: HashMap::new(),
                secret_value: DEFAULT_SECRET,
                share_offsets: Vec::new(),
            },
            shares: Vec::new(),
        }
    }

    /// The node's state.
    pub fn data(&self) -> (r: &NodeData)
        ensures
            *r == self.data,
    {
        &self.data
    }

    /// Time one message takes to travel.
    pub fn message_latency(&self) -> (r: u64)
        ensures
            r == self.data.settings.costs.comm,
    {
        self.data.settings.costs.comm
    }
}

} // verus!
