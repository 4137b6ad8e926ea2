use vstd::prelude::*;

use crate::common::Address;
use crate::message::{Message, MessageType};
use crate::node::{
    arrives_dead, bounces, child_channels, clock_raised_to, data_requests, flatten, handled,
    initial_channels, parent_channel, peer_channels, same_but_clock_channels_shares,
    setup_messages, advance, after_latency, own_position, channel_opened, collected, health_check_round, health_requests, now,
    offset_sum, prepare_data_out, prepare_requests, request_data_step, send_data_step,
    ChannelState, Node, NodeRole,
};
use crate::shares::{AggregatableShares, Share};
use crate::tree_node::position_of;

verus! {

broadcast use vstd::std_specs::hash::group_hash_axioms;

/// A position as an integer index.
pub open spec fn as_index(p: Option<usize>) -> Option<int> {
    match p {
        Some(i) => Some(i as int),
        None => None,
    }
}

proof fn lemma_offset_sum_bounds(s: Seq<i64>)
    ensures
        -(s.len() * 0x8000_0000_0000_0000) <= offset_sum(s) <= s.len() * 0x8000_0000_0000_0000,
    decreases s.len(),
{
    if s.len() > 0 {
        lemma_offset_sum_bounds(s.drop_last());
    }
}

fn push_peer_channels(
    added: &mut Vec<ChannelState>,
    members: &Vec<Address>,
    a: Address,
    maintained: bool,
)
    ensures
        final(added)@ == old(added)@ + peer_channels(members@, a, maintained),
{
    let ghost start = added@;
    let mut i: usize = 0;
    while i < members.len()
        invariant
            i <= members@.len(),
            added@ == start + peer_channels(members@.subrange(0, i as int), a, maintained),
        decreases members@.len() - i,
    {
        assert(members@.subrange(0, i + 1).drop_last() == members@.subrange(0, i as int));
        if members[i] != a {
            added.push(ChannelState::new(members[i], maintained));
        }
        assert(added@ =~= start + peer_channels(members@.subrange(0, i + 1), a, maintained));
        i = i + 1;
    }
    assert(members@.subrange(0, i as int) == members@);
}

fn push_child_channels(added: &mut Vec<ChannelState>, groups: &Vec<Vec<Address>>, p: usize)
    ensures
        final(added)@ == old(added)@ + child_channels(groups@, p as int),
{
    let ghost start = added@;
    let mut i: usize = 0;
    while i < groups.len()
        invariant
            i <= groups@.len(),
            added@ == start + child_channels(groups@.subrange(0, i as int), p as int),
        decreases groups@.len() - i,
    {
        assert(groups@.subrange(0, i + 1).drop_last() == groups@.subrange(0, i as int));
        assert(groups@.subrange(0, i + 1).last() == groups@[i as int]);
        if p < groups[i].len() {
            added.push(ChannelState::new(groups[i][p], true));
        }
        assert(added@ =~= start + child_channels(groups@.subrange(0, i + 1), p as int));
        i = i + 1;
    }
    assert(groups@.subrange(0, i as int) == groups@);
}

/// Exact sum of some offsets.
fn offsets_total(offsets: &Vec<i64>) -> (r: i128)
    ensures
        r == offset_sum(offsets@),
        -(0xffff_ffff_ffff_ffff * 0x8000_0000_0000_0000) <= r <= 0xffff_ffff_ffff_ffff
            * 0x8000_0000_0000_0000,
{
    let mut total: i128 = 0;
    let mut i: usize = 0;
    while i < offsets.len()
        invariant
            i <= offsets@.len(),
            total == offset_sum(offsets@.subrange(0, i as int)),
        decreases offsets@.len() - i,
    {
        proof {
            let pre = offsets@.subrange(0, i as int);
            assert(offsets@.subrange(0, i + 1).drop_last() == pre);
            lemma_offset_sum_bounds(pre);
            assert(i * 0x8000_0000_0000_0000 <= 0xffff_ffff_ffff_ffff * 0x8000_0000_0000_0000)
                by (nonlinear_arith)
                requires
                    i as int <= 0xffff_ffff_ffff_ffff,
            ;
        }
        total = total + offsets[i] as i128;
        i = i + 1;
    }
    assert(offsets@.subrange(0, offsets@.len() as int) == offsets@);
    proof {
        lemma_offset_sum_bounds(offsets@);
        let n = offsets@.len();
        assert(n * 0x8000_0000_0000_0000 <= 0xffff_ffff_ffff_ffff * 0x8000_0000_0000_0000)
            by (nonlinear_arith)
            requires
                n <= 0xffff_ffff_ffff_ffff,
        ;
    }
    total
}

impl Node {
    /// Delivers `msg` to this node. A message that arrives once the node is
    /// dead is consumed with no effect. One that arrives in the past of the
    /// node's clock (but a health request) bounces: its arrival time is raised
    /// to the clock and `None` is returned. Otherwise the clock is brought up to
    /// the arrival time, the handler of the message's kind runs, the message is
    /// marked delivered, and the clock's advance during the handler is its work.
    pub fn handle_message(&mut self, msg: &mut Message) -> (r: Option<Vec<Message>>)
        ensures
            arrives_dead(*old(self), *old(msg)) ==> (r matches Some(v) && v@.len() == 0)
                && *final(self) == *old(self) && *final(msg) == *old(msg),
            bounces(*old(self), *old(msg)) ==> r is None && *final(self) == *old(self) && *final(msg)
                == (Message { arrival_time: old(self).data.local_time, ..*old(msg) }),
            !arrives_dead(*old(self), *old(msg)) && !bounces(*old(self), *old(msg)) ==> {
                let mid = clock_raised_to(*old(self), old(msg).arrival_time);
                &&& (r matches Some(v) && handled(mid, *old(msg), *final(self), v@))
                &&& final(self).data.local_time >= mid.data.local_time
                &&& *final(msg) == (Message {
                    delivered: true,
                    work: (final(self).data.local_time - mid.data.local_time) as u64,
                    ..*old(msg)
                })
            },
    {
        if self.data.death_time <= msg.arrival_time {
            return Some(Vec::new());
        }
        if msg.arrival_time < self.data.local_time && msg.message_type != MessageType::RequestHealth {
            msg.arrival_time = self.data.local_time;
            return None;
        }
        if self.data.local_time < msg.arrival_time {
            self.data.local_time = msg.arrival_time;
        }
        let ghost mid = *self;
        let before = self.data.local_time;
        let out = match msg.message_type {
            MessageType::ScheduleHealthCheck => self.handle_schedule_health_check(msg),
            MessageType::RequestHealth => self.handle_request_health(msg),
            MessageType::ConfirmHealth => self.handle_confirm_health(msg),
            MessageType::RequestData => self.handle_request_data(msg),
            MessageType::PrepareData => self.handle_prepare_data(msg),
            MessageType::SendData => self.handle_send_data(msg),
            MessageType::OpenChannel => self.handle_open_channel(msg),
            MessageType::ConfirmChannel => self.handle_confirm_channel(msg),
            MessageType::Stop => Vec::new(),
        };
        assert(handled(mid, *msg, *self, out@));
        msg.delivered = true;
        msg.work = self.data.local_time - before;
        Some(out)
    }

    /// The messages this node starts with at time `t`.
    pub fn setup(&self, t: u64) -> (r: Vec<Message>)
        ensures
            r@ == setup_messages(*self, t),
    {
        if self.data.role == NodeRole::Contributor {
            return Vec::new();
        }
        let address = self.data.address;
        let mut out: Vec<Message> = vec![
            Message::new(MessageType::ScheduleHealthCheck, t, address, t, address),
        ];
        if self.data.role != NodeRole::LeafAggregator {
            return out;
        }
        match position_of(&self.data.tree_node.members, address) {
            Some(p) => {
                if p != 0 {
                    return out;
                }
            },
            None => {
                return out;
            },
        }
        let ghost first = out@;
        let arrival = advance(t, 1, self.data.settings.costs.comm);
        let children = &self.data.tree_node.children;
        let mut i: usize = 0;
        while i < children.len()
            invariant
                i <= children@.len(),
                *children == self.data.tree_node.children,
                address == self.data.address,
                arrival == after_latency(*self, t),
                out@ == first + data_requests(*self, t, flatten(children@.subrange(0, i as int))),
            decreases children@.len() - i,
        {
            let ghost done = flatten(children@.subrange(0, i as int));
            assert(children@.subrange(0, i + 1).drop_last() == children@.subrange(0, i as int));
            let group = &children[i];
            let mut j: usize = 0;
            while j < group.len()
                invariant
                    j <= group@.len(),
                    arrival == after_latency(*self, t),
                    address == self.data.address,
                    out@ == first + data_requests(*self, t, done + group@.subrange(0, j as int)),
                decreases group@.len() - j,
            {
                out.push(Message::new(MessageType::RequestData, t, address, arrival, group[j]));
                assert(done + group@.subrange(0, j + 1) == (done + group@.subrange(0, j as int)).push(
                    group@[j as int],
                ));
                assert(out@ =~= first + data_requests(
                    *self,
                    t,
                    done + group@.subrange(0, j + 1),
                ));
                j = j + 1;
            }
            assert(group@.subrange(0, j as int) == group@);
            i = i + 1;
        }
        assert(children@.subrange(0, i as int) == children@);
        out
    }

    /// Opens the channels this node starts with.
    pub fn open_initial_channels(&mut self)
        ensures
            final(self).data.opened_channels@ == old(self).data.opened_channels@ + initial_channels(
                *old(self),
            ),
            same_but_clock_channels_shares(*old(self), *final(self)),
            final(self).data.local_time == old(self).data.local_time,
            final(self).shares@ == old(self).shares@,
    {
        let ghost pre = *self;
        let mut added: Vec<ChannelState> = Vec::new();
        match self.data.role {
            NodeRole::Querier => {
                if self.data.tree_node.children.len() > 0 {
                    let top = &self.data.tree_node.children[0];
                    let mut i: usize = 0;
                    while i < top.len()
                        invariant
                            i <= top@.len(),
                            added@ =~= Seq::new(
                                i as nat,
                                |k: int| ChannelState { peer_address: top@[k], maintained: true },
                            ),
                        decreases top@.len() - i,
                    {
                        added.push(ChannelState::new(top[i], true));
                        i = i + 1;
                    }
                }
            },
            NodeRole::Aggregator => {
                if let Some(p) = position_of(&self.data.tree_node.members, self.data.address) {
                    self.push_parent_channel(&mut added, p);
                    if p == 0 {
                        push_peer_channels(&mut added, &self.data.tree_node.members, self.data.address, false);
                    } else {
                        added.push(ChannelState::new(self.data.tree_node.members[0], false));
                    }
                    push_child_channels(&mut added, &self.data.tree_node.children, p);
                }
            },
            NodeRole::LeafAggregator => {
                if let Some(p) = position_of(&self.data.tree_node.members, self.data.address) {
                    self.push_parent_channel(&mut added, p);
                    push_peer_channels(&mut added, &self.data.tree_node.members, self.data.address, true);
                }
            },
            _ => {},
        }
        assert(added@ =~= initial_channels(pre));
        let mut k: usize = 0;
        while k < added.len()
            invariant
                k <= added@.len(),
                self.data.opened_channels@ == pre.data.opened_channels@ + added@.subrange(0, k as int),
                same_but_clock_channels_shares(pre, *self),
                self.data.local_time == pre.data.local_time,
                self.shares@ == pre.shares@,
            decreases added@.len() - k,
        {
            self.data.opened_channels.push(added[k]);
            assert(pre.data.opened_channels@ + added@.subrange(0, k + 1) =~= (
            pre.data.opened_channels@ + added@.subrange(0, k as int)).push(added@[k as int]));
            k = k + 1;
        }
        assert(added@.subrange(0, k as int) == added@);
    }

    fn push_parent_channel(&self, added: &mut Vec<ChannelState>, p: usize)
        ensures
            final(added)@ == old(added)@ + parent_channel(*self, p as int),
    {
        if p < self.data.tree_node.parents.len() {
            added.push(ChannelState::new(self.data.tree_node.parents[p], false));
            assert(final(added)@ =~= old(added)@ + parent_channel(*self, p as int));
        } else {
            assert(old(added)@ + parent_channel(*self, p as int) =~= old(added)@);
        }
    }

    /// Health requests to every maintained channel, then the next check one
    /// period later.
    pub fn handle_schedule_health_check(&self, msg: &Message) -> (r: Vec<Message>)
        ensures
            r@ == health_check_round(*self),
    {
        let t = self.data.local_time;
        let address = self.data.address;
        let arrival = advance(t, 1, self.data.settings.costs.comm);
        let mut out: Vec<Message> = Vec::new();
        let mut i: usize = 0;
        while i < self.data.opened_channels.len()
            invariant
                i <= self.data.opened_channels@.len(),
                t == now(*self),
                address == self.data.address,
                arrival == after_latency(*self, t),
                out@ == health_requests(*self, self.data.opened_channels@.subrange(0, i as int)),
            decreases self.data.opened_channels@.len() - i,
        {
            assert(self.data.opened_channels@.subrange(0, i + 1).drop_last()
                == self.data.opened_channels@.subrange(0, i as int));
            let channel = self.data.opened_channels[i];
            if channel.maintained {
                out.push(
                    Message::new(MessageType::RequestHealth, t, address, arrival, channel.peer_address),
                );
            }
            i = i + 1;
        }
        assert(self.data.opened_channels@.subrange(0, i as int) == self.data.opened_channels@);
        let next = advance(t, 1, self.data.settings.health_check_period);
        out.push(Message::new_timeout(MessageType::ScheduleHealthCheck, address, t, next));
        out
    }

    /// Confirms to the emitter that this node is alive.
    pub fn handle_request_health(&self, msg: &Message) -> (r: Vec<Message>)
        ensures
            r@ == seq![
                crate::message::fresh_message(
                    MessageType::ConfirmHealth,
                    now(*self),
                    self.data.address,
                    after_latency(*self, now(*self)),
                    msg.emitter,
                ),
            ],
    {
        let t = self.data.local_time;
        let reply = Message::new(
            MessageType::ConfirmHealth,
            t,
            self.data.address,
            advance(t, 1, self.data.settings.costs.comm),
            msg.emitter,
        );
        vec![reply]
    }

    /// A confirmation of health needs no answer.
    pub fn handle_confirm_health(&self, msg: &Message) -> (r: Vec<Message>)
        ensures
            r@.len() == 0,
    {
        Vec::new()
    }

    /// Accepts a channel from the emitter, maintains it, and confirms.
    pub fn handle_open_channel(&mut self, msg: &Message) -> (r: Vec<Message>)
        ensures
            channel_opened(*old(self), *final(self), msg.emitter),
            r@ == seq![
                crate::message::fresh_message(
                    MessageType::ConfirmChannel,
                    now(*final(self)),
                    old(self).data.address,
                    after_latency(*old(self), now(*final(self))),
                    msg.emitter,
                ),
            ],
    {
        self.accept_channel(msg.emitter);
        let t = self.data.local_time;
        let reply = Message::new(
            MessageType::ConfirmChannel,
            t,
            self.data.address,
            advance(t, 1, self.data.settings.costs.comm),
            msg.emitter,
        );
        vec![reply]
    }

    /// Records the channel that the emitter confirmed, and maintains it.
    pub fn handle_confirm_channel(&mut self, msg: &Message) -> (r: Vec<Message>)
        ensures
            channel_opened(*old(self), *final(self), msg.emitter),
            r@.len() == 0,
    {
        self.accept_channel(msg.emitter);
        Vec::new()
    }

    fn accept_channel(&mut self, peer: Address)
        ensures
            channel_opened(*old(self), *final(self), peer),
    {
        self.data.opened_channels.push(ChannelState::new(peer, true));
        self.data.local_time = advance(self.data.local_time, 3, self.data.settings.costs.crypto);
    }

    /// A contributor asked for data for the first time splits its secret into
    /// additive shares, verifies the query, and schedules the preparation of one
    /// share per parent. Any other node, or a contributor that already split its
    /// secret, does nothing.
    pub fn handle_request_data(&mut self, msg: &Message) -> (r: Vec<Message>)
        ensures
            request_data_step(*old(self), *final(self), r@),
    {
        if self.data.role != NodeRole::Contributor || self.shares.len() != 0 {
            return Vec::new();
        }
        let total = offsets_total(&self.data.share_offsets);
        let last: i128 = self.data.secret_value as i128 - total;
        if last < i64::MIN as i128 || last > i64::MAX as i128 {
            return Vec::new();
        }
        let ghost pre = *self;
        let address = self.data.address;
        let mut shares: Vec<Share> = Vec::new();
        let mut i: usize = 0;
        while i < self.data.share_offsets.len()
            invariant
                i <= self.data.share_offsets@.len(),
                *self == pre,
                address == self.data.address,
                shares@.len() == i,
                forall|j: int|
                    0 <= j < i ==> {
                        &&& #[trigger] shares@[j].share == self.data.share_offsets@[j]
                        &&& shares@[j].count == 1
                        &&& shares@[j].id@ == crate::shares::decimal(address as nat)
                    },
            decreases self.data.share_offsets@.len() - i,
        {
            shares.push(Share::new(self.data.share_offsets[i], address));
            i = i + 1;
        }
        shares.push(Share::new(last as i64, address));
        self.shares = shares;
        self.data.local_time = advance(self.data.local_time, 3, self.data.settings.costs.crypto);
        let t = self.data.local_time;
        let arrival = advance(t, 1, self.data.settings.costs.comm);
        let mut out: Vec<Message> = Vec::new();
        let mut k: usize = 0;
        while k < self.data.tree_node.parents.len()
            invariant
                k <= self.data.tree_node.parents@.len(),
                t == now(*self),
                address == self.data.address,
                arrival == after_latency(*self, t),
                out@ == prepare_requests(*self, self.data.tree_node.parents@.subrange(0, k as int)),
            decreases self.data.tree_node.parents@.len() - k,
        {
            let mut m = Message::new(MessageType::PrepareData, t, address, arrival, address);
            m.content.target_node = Some(self.data.tree_node.parents[k]);
            out.push(m);
            assert(out@ =~= prepare_requests(
                *self,
                self.data.tree_node.parents@.subrange(0, k + 1),
            ));
            k = k + 1;
        }
        assert(self.data.tree_node.parents@.subrange(0, k as int) == self.data.tree_node.parents@);
        out
    }

    /// A contributor sends the share meant for the target parent.
    pub fn handle_prepare_data(&self, msg: &Message) -> (r: Vec<Message>)
        ensures
            r@ == prepare_data_out(*self, *msg),
    {
        if self.data.role != NodeRole::Contributor {
            return Vec::new();
        }
        let target = match msg.content.target_node {
            Some(t) => t,
            None => {
                return Vec::new();
            },
        };
        match position_of(&self.data.tree_node.parents, target) {
            Some(i) => {
                if i < self.shares.len() {
                    let t = self.data.local_time;
                    let mut m = Message::new(
                        MessageType::SendData,
                        t,
                        self.data.address,
                        advance(t, 1, self.data.settings.costs.comm),
                        target,
                    );
                    m.content.data = Some(self.shares[i].copy());
                    let r = vec![m];
                    assert(r@ =~= prepare_data_out(*self, *msg));
                    r
                } else {
                    Vec::new()
                }
            },
            None => Vec::new(),
        }
    }

    /// The shares expected from the child groups, in order, if all arrived.
    fn collect_expected(&self, pos: Option<usize>) -> (r: Option<Vec<Share>>)
        ensures
            r matches Some(v) ==> collected(
                self.data.tree_node.children@,
                self.data.role,
                as_index(pos),
                self.data.aggregates@,
            ) == Some(v@),
            r is None ==> collected(
                self.data.tree_node.children@,
                self.data.role,
                as_index(pos),
                self.data.aggregates@,
            ) is None,
    {
        let children = &self.data.tree_node.children;
        let role = self.data.role;
        let mut received: Vec<Share> = Vec::new();
        let mut complete = true;
        let mut i: usize = 0;
        while i < children.len()
            invariant
                i <= children@.len(),
                role == self.data.role,
                *children == self.data.tree_node.children,
                complete ==> collected(
                    children@.subrange(0, i as int),
                    role,
                    as_index(pos),
                    self.data.aggregates@,
                ) == Some(received@),
                !complete ==> collected(
                    children@.subrange(0, i as int),
                    role,
                    as_index(pos),
                    self.data.aggregates@,
                ) is None,
            decreases children@.len() - i,
        {
            let ghost upto = children@.subrange(0, i + 1);
            assert(upto.drop_last() == children@.subrange(0, i as int));
            assert(upto.last() == children@[i as int]);
            let group = &children[i];
            let expected: Option<Address> = if role == NodeRole::LeafAggregator {
                if group.len() > 0 {
                    Some(group[0])
                } else {
                    None
                }
            } else {
                match pos {
                    Some(p) => if p < group.len() {
                        Some(group[p])
                    } else {
                        None
                    },
                    None => None,
                }
            };
            if complete {
                match expected {
                    Some(a) => match self.data.aggregates.get(&a) {
                        Some(s) => {
                            received.push(s.copy());
                        },
                        None => {
                            complete = false;
                        },
                    },
                    None => {
                        complete = false;
                    },
                }
            }
            i = i + 1;
        }
        assert(children@.subrange(0, i as int) == children@);
        if complete {
            Some(received)
        } else {
            None
        }
    }

    /// Records the share under its emitter. Once every child group's expected
    /// share is there, the querier is done, and any other node folds the shares
    /// and sends the fold to the parent at its own position. Contributors have
    /// no children and ignore it.
    pub fn handle_send_data(&mut self, msg: &Message) -> (r: Vec<Message>)
        ensures
            send_data_step(*old(self), *msg, *final(self), r@),
    {
        if self.data.role == NodeRole::Contributor {
            return Vec::new();
        }
        let share = match &msg.content.data {
            Some(s) => s.copy(),
            None => {
                return Vec::new();
            },
        };
        self.data.aggregates.insert(msg.emitter, share);
        let pos = position_of(&self.data.tree_node.members, self.data.address);
        assert(as_index(pos) == own_position(*self));
        let received = match self.collect_expected(pos) {
            Some(v) => v,
            None => {
                return Vec::new();
            },
        };
        if self.data.role == NodeRole::Querier {
            self.data.finished_working = true;
            return Vec::new();
        }
        match pos {
            Some(p) => {
                if p < self.data.tree_node.parents.len() {
                    match received.try_aggregate() {
                        Some(folded) => {
                            let t = self.data.local_time;
                            let mut m = Message::new(
                                MessageType::SendData,
                                t,
                                self.data.address,
                                advance(t, 1, self.data.settings.costs.comm),
                                self.data.tree_node.parents[p],
                            );
                            m.content.data = Some(folded);
                            vec![m]
                        },
                        None => Vec::new(),
                    }
                } else {
                    Vec::new()
                }
            },
            None => Vec::new(),
        }
    }
}

} // verus!
