use vstd::prelude::*;

use crate::common::Address;
use crate::manager::{queue_ok, Manager};
use crate::message::Message;
use crate::node::{
    DEFAULT_SECRET, same_frame, ChannelState, initial_channels, same_but_clock_channels_shares, setup_messages, Node, NodeData, NodeRole,
};
use crate::queue::queue_insert_all;
use crate::recording::Recording;
use crate::run::{clamp_time, construction_latency, FailureHandlingMode};
use crate::counts::{
    counts_ok, holds_no_share, lemma_fresh_counts, lemma_fresh_layout_kept, lemma_insert_all_plain, same_holdings,
};
use crate::tree::{
    addresses_match, children_after, fresh_nodes, pristine, built_member, tree_laid, shape_kept, same_shape,
    lemma_tree_laid_frame, child_groups, consecutive, group_len, group_views, leaf_groups, members_known,
    same_run, tree_size,
};

verus! {

/// `n` with the given death time.
pub open spec fn with_death(n: Node, t: u64) -> Node {
    Node { data: NodeData { death_time: t, ..n.data }, ..n }
}

/// Whether node `a` had failed by time `t`.
pub open spec fn failed_by(nodes: Seq<Node>, t: u64, a: int) -> bool {
    nodes[a].data.death_time < t
}

/// Whether some member of node `a`'s group had failed by time `t`.
pub open spec fn group_failed(nodes: Seq<Node>, t: u64, a: int) -> bool {
    exists|j: int|
        0 <= j < nodes[a].data.tree_node.members@.len() && {
            let m = #[trigger] nodes[a].data.tree_node.members@[j];
            m < nodes.len() && failed_by(nodes, t, m as int)
        }
}

/// Whether node `a` is cut off by failures during construction: a member of its
/// group failed, or its parent group (found through its first parent, which
/// comes earlier) is cut off.
pub open spec fn cut_off(nodes: Seq<Node>, t: u64, a: int) -> bool
    decreases a,
{
    if a < 0 || a >= nodes.len() {
        false
    } else if group_failed(nodes, t, a) {
        true
    } else {
        let ps = nodes[a].data.tree_node.parents@;
        ps.len() > 0 && ps[0] < a && cut_off(nodes, t, ps[0] as int)
    }
}

/// Number of the first `k` nodes that failed by time `t`.
pub open spec fn failed_count(nodes: Seq<Node>, t: u64, k: int) -> int
    decreases k,
{
    if k <= 0 {
        0
    } else {
        failed_count(nodes, t, k - 1) + if failed_by(nodes, t, k - 1) {
            1int
        } else {
            0
        }
    }
}

/// Number of the first `k` nodes that are contributors.
pub open spec fn contributor_count(nodes: Seq<Node>, k: int) -> int
    decreases k,
{
    if k <= 0 {
        0
    } else {
        contributor_count(nodes, k - 1) + if nodes[k - 1].data.role == NodeRole::Contributor {
            1int
        } else {
            0
        }
    }
}

/// Number of the first `k` nodes that are contributors alive after time `t`.
pub open spec fn surviving_contributor_count(nodes: Seq<Node>, t: u64, k: int) -> int
    decreases k,
{
    if k <= 0 {
        0
    } else {
        surviving_contributor_count(nodes, t, k - 1) + if nodes[k - 1].data.role
            == NodeRole::Contributor && nodes[k - 1].data.death_time > t {
            1int
        } else {
            0
        }
    }
}

/// Construction time that replacing one failed node costs: the parent signs,
/// the backup answers, the parent confirms, the backup verifies; then the
/// backup signs, the members verify and answer with their children.
pub open spec fn replacement_cost(m: Manager) -> int {
    10 * m.settings.costs.crypto + 8 * m.settings.costs.comm
}

/// The setup messages of the first `k` nodes, node after node.
pub open spec fn initial_messages(nodes: Seq<Node>, t: u64, k: int) -> Seq<Message>
    decreases k,
{
    if k <= 0 {
        Seq::empty()
    } else {
        initial_messages(nodes, t, k - 1) + setup_messages(nodes[k - 1], t)
    }
}

proof fn lemma_insert_all_concat(q: Seq<Message>, a: Seq<Message>, b: Seq<Message>)
    ensures
        queue_insert_all(q, a + b) == queue_insert_all(queue_insert_all(q, a), b),
    decreases b.len(),
{
    if b.len() == 0 {
        assert(a + b == a);
    } else {
        assert((a + b).drop_last() == a + b.drop_last());
        assert((a + b).last() == b.last());
        lemma_insert_all_concat(q, a, b.drop_last());
    }
}

impl Manager {
    /// Gives node `i` the lifetime `lifetimes[i]`: it dies at that instant.
    pub fn generate_failures(&mut self, lifetimes: &Vec<u64>)
        requires
            lifetimes@.len() == old(self).nodes@.len(),
        ensures
            final(self).nodes@.len() == old(self).nodes@.len(),
            forall|i: int|
                0 <= i < old(self).nodes@.len() ==> #[trigger] final(self).nodes@[i] == with_death(
                    old(self).nodes@[i],
                    lifetimes@[i],
                ),
            same_run(*old(self), *final(self)),
    {
        let ghost pre = *self;
        let mut i: usize = 0;
        while i < self.nodes.len()
            invariant
                i <= self.nodes@.len(),
                self.nodes@.len() == pre.nodes@.len(),
                lifetimes@.len() == pre.nodes@.len(),
                forall|k: int| 0 <= k < i ==> #[trigger] self.nodes@[k] == with_death(pre.nodes@[k], lifetimes@[k]),
                forall|k: int| i <= k < self.nodes@.len() ==> #[trigger] self.nodes@[k] == pre.nodes@[k],
                same_run(pre, *self),
            decreases self.nodes@.len() - i,
        {
            self.nodes[i].data.death_time = lifetimes[i];
            i = i + 1;
        }
    }

    /// Applies the failure-handling mode to the failures that happened while
    /// the tree was built, that is to the nodes dead before the current time.
    /// With node replacement, construction lasts one replacement longer per
    /// such node. With local failure propagation, every node cut off by them
    /// gets death time 0. Full failure propagation does nothing.
    pub fn initialize_tree_failures(&mut self)
        ensures
            final(self).settings == old(self).settings,
            final(self).querier_address == old(self).querier_address,
            final(self).message_queue == old(self).message_queue,
            final(self).recording == old(self).recording,
            final(self).nodes@.len() == old(self).nodes@.len(),
            old(self).settings.building_blocks.failure_handling == FailureHandlingMode::NodeReplacement
                ==> final(self).nodes@ == old(self).nodes@ && final(self).current_time == clamp_time(
                old(self).current_time + failed_count(
                    old(self).nodes@,
                    old(self).current_time,
                    old(self).nodes@.len() as int,
                ) * replacement_cost(*old(self)),
            ),
            old(self).settings.building_blocks.failure_handling
                == FailureHandlingMode::LocalFailurePropagation ==> final(self).current_time == old(
                self,
            ).current_time && forall|i: int|
                0 <= i < old(self).nodes@.len() ==> #[trigger] final(self).nodes@[i] == if cut_off(
                    old(self).nodes@,
                    old(self).current_time,
                    i,
                ) {
                    with_death(old(self).nodes@[i], 0)
                } else {
                    old(self).nodes@[i]
                },
            old(self).settings.building_blocks.failure_handling
                == FailureHandlingMode::FullFailurePropagation ==> *final(self) == *old(self),
    {
        match self.settings.building_blocks.failure_handling {
            FailureHandlingMode::FullFailurePropagation => {},
            FailureHandlingMode::NodeReplacement => {
                let failed = self.count_failed();
                let unit: u128 = 10 * (self.settings.costs.crypto as u128) + 8 * (
                self.settings.costs.comm as u128);
                let extension: u128 = match (failed as u128).checked_mul(unit) {
                    Some(x) => x,
                    None => u128::MAX,
                };
                let total: u128 = match (self.current_time as u128).checked_add(extension) {
                    Some(x) => x,
                    None => u128::MAX,
                };
                self.current_time = if total > u64::MAX as u128 {
                    u64::MAX
                } else {
                    total as u64
                };
            },
            FailureHandlingMode::LocalFailurePropagation => {
                self.cut_off_failed_subtrees();
            },
        }
    }

    fn count_failed(&self) -> (r: usize)
        ensures
            r == failed_count(self.nodes@, self.current_time, self.nodes@.len() as int),
    {
        let mut n: usize = 0;
        let mut i: usize = 0;
        while i < self.nodes.len()
            invariant
                i <= self.nodes@.len(),
                n == failed_count(self.nodes@, self.current_time, i as int),
                n <= i,
            decreases self.nodes@.len() - i,
        {
            if self.nodes[i].data.death_time < self.current_time {
                n = n + 1;
            }
            i = i + 1;
        }
        n
    }

    fn group_has_failed(&self, a: usize) -> (r: bool)
        requires
            a < self.nodes@.len(),
        ensures
            r == group_failed(self.nodes@, self.current_time, a as int),
    {
        let members = &self.nodes[a].data.tree_node.members;
        let mut j: usize = 0;
        while j < members.len()
            invariant
                j <= members@.len(),
                a < self.nodes@.len(),
                *members == self.nodes@[a as int].data.tree_node.members,
                forall|x: int|
                    0 <= x < j ==> !({
                        let m = #[trigger] members@[x];
                        m < self.nodes@.len() && failed_by(self.nodes@, self.current_time, m as int)
                    }),
            decreases members@.len() - j,
        {
            let m = members[j];
            if m < self.nodes.len() && self.nodes[m].data.death_time < self.current_time {
                assert(self.nodes@[a as int].data.tree_node.members@[j as int] == m);
                return true;
            }
            j = j + 1;
        }
        false
    }

    fn cut_off_failed_subtrees(&mut self)
        ensures
            final(self).settings == old(self).settings,
            final(self).querier_address == old(self).querier_address,
            final(self).message_queue == old(self).message_queue,
            final(self).recording == old(self).recording,
            final(self).current_time == old(self).current_time,
            final(self).nodes@.len() == old(self).nodes@.len(),
            forall|i: int|
                0 <= i < old(self).nodes@.len() ==> #[trigger] final(self).nodes@[i] == if cut_off(
                    old(self).nodes@,
                    old(self).current_time,
                    i,
                ) {
                    with_death(old(self).nodes@[i], 0)
                } else {
                    old(self).nodes@[i]
                },
    {
        let ghost pre = self.nodes@;
        let n = self.nodes.len();
        let mut cut: Vec<bool> = Vec::new();
        let mut a: usize = 0;
        while a < n
            invariant
                a <= n,
                n == self.nodes@.len(),
                self.nodes@ == pre,
                cut@.len() == a,
                forall|k: int| 0 <= k < a ==> #[trigger] cut@[k] == cut_off(pre, self.current_time, k),
            decreases n - a,
        {
            let mut is_cut = self.group_has_failed(a);
            if !is_cut {
                let parents = &self.nodes[a].data.tree_node.parents;
                if parents.len() > 0 && parents[0] < a {
                    is_cut = cut[parents[0]];
                }
            }
            cut.push(is_cut);
            a = a + 1;
        }
        let mut i: usize = 0;
        while i < n
            invariant
                i <= n,
                n == self.nodes@.len(),
                n == pre.len(),
                cut@.len() == n,
                forall|k: int| 0 <= k < n ==> #[trigger] cut@[k] == cut_off(pre, self.current_time, k),
                forall|k: int|
                    0 <= k < i ==> #[trigger] self.nodes@[k] == if cut_off(pre, self.current_time, k) {
                        with_death(pre[k], 0)
                    } else {
                        pre[k]
                    },
                forall|k: int| i <= k < n ==> #[trigger] self.nodes@[k] == pre[k],
                self.settings == old(self).settings,
                self.querier_address == old(self).querier_address,
                self.message_queue == old(self).message_queue,
                self.recording == old(self).recording,
                self.current_time == old(self).current_time,
            decreases n - i,
        {
            if cut[i] {
                self.nodes[i].data.death_time = 0;
            }
            i = i + 1;
        }
    }
}

proof fn lemma_setup_messages_timed(n: Node, t: u64)
    ensures
        forall|i: int|
            0 <= i < setup_messages(n, t).len() ==> (#[trigger] setup_messages(n, t)[i]).departure_time
                >= t && setup_messages(n, t)[i].arrival_time >= setup_messages(n, t)[i].departure_time,
{
}

fn copy_offsets(v: &Vec<i64>) -> (r: Vec<i64>)
    ensures
        r@ == v@,
{
    let mut r: Vec<i64> = Vec::new();
    let mut i: usize = 0;
    while i < v.len()
        invariant
            i <= v@.len(),
            r@ == v@.subrange(0, i as int),
        decreases v@.len() - i,
    {
        r.push(v[i]);
        assert(r@ =~= v@.subrange(0, i + 1));
        i = i + 1;
    }
    assert(v@.subrange(0, i as int) == v@);
    r
}

proof fn lemma_initial_messages_plain(nodes: Seq<Node>, t: u64, k: int)
    ensures
        forall|i: int|
            0 <= i < initial_messages(nodes, t, k).len() ==> (#[trigger] initial_messages(
                nodes,
                t,
                k,
            )[i]).content.data is None,
    decreases k,
{
    if k > 0 {
        lemma_initial_messages_plain(nodes, t, k - 1);
        let prev = initial_messages(nodes, t, k - 1);
        let mine = setup_messages(nodes[k - 1], t);
        assert forall|i: int| 0 <= i < (prev + mine).len() implies (#[trigger] (prev + mine)[i]).content.data
            is None by {
            if i >= prev.len() {
                assert((prev + mine)[i] == mine[i - prev.len()]);
            }
        }
    }
}

/// `nodes` with node `i` dying at `lifetimes[i]`.
pub open spec fn with_lifetimes(nodes: Seq<Node>, lifetimes: Seq<u64>) -> Seq<Node> {
    Seq::new(nodes.len(), |i: int| with_death(nodes[i], lifetimes[i]))
}

/// Whether two node sequences agree on length, death times and groups.
pub open spec fn same_failures(a: Seq<Node>, b: Seq<Node>) -> bool {
    &&& a.len() == b.len()
    &&& forall|i: int|
        0 <= i < a.len() ==> (#[trigger] a[i]).data.death_time == b[i].data.death_time
            && a[i].data.tree_node.members@ == b[i].data.tree_node.members@
            && a[i].data.tree_node.parents@ == b[i].data.tree_node.parents@
}

pub(crate) proof fn lemma_cut_off_same(a: Seq<Node>, b: Seq<Node>, t: u64, x: int)
    requires
        same_failures(a, b),
    ensures
        cut_off(a, t, x) == cut_off(b, t, x),
    decreases x,
{
    if 0 <= x < a.len() {
        assert(a[x].data.tree_node.members@ == b[x].data.tree_node.members@);
        assert(group_failed(a, t, x) == group_failed(b, t, x)) by {
            let ms = a[x].data.tree_node.members@;
            if group_failed(a, t, x) {
                let j = choose|j: int|
                    0 <= j < a[x].data.tree_node.members@.len() && {
                        let m = #[trigger] a[x].data.tree_node.members@[j];
                        m < a.len() && failed_by(a, t, m as int)
                    };
                assert(b[x].data.tree_node.members@[j] == ms[j]);
                assert(a[ms[j] as int].data.death_time == b[ms[j] as int].data.death_time);
            }
            if group_failed(b, t, x) {
                let j = choose|j: int|
                    0 <= j < b[x].data.tree_node.members@.len() && {
                        let m = #[trigger] b[x].data.tree_node.members@[j];
                        m < b.len() && failed_by(b, t, m as int)
                    };
                assert(a[x].data.tree_node.members@[j] == ms[j]);
                assert(a[ms[j] as int].data.death_time == b[ms[j] as int].data.death_time);
            }
        }
        let ps = a[x].data.tree_node.parents@;
        if ps.len() > 0 && ps[0] < x {
            lemma_cut_off_same(a, b, t, ps[0] as int);
        }
    }
}

pub(crate) proof fn lemma_failed_count_same(a: Seq<Node>, b: Seq<Node>, t: u64, k: int)
    requires
        same_failures(a, b),
        k <= a.len(),
    ensures
        failed_count(a, t, k) == failed_count(b, t, k),
    decreases k,
{
    if k > 0 {
        lemma_failed_count_same(a, b, t, k - 1);
        assert(a[k - 1].data.death_time == b[k - 1].data.death_time);
    }
}

/// Bound (excluded) of the offsets of a contributor's additive split.
pub const OFFSET_BOUND: i64 = 10000;

proof fn lemma_initial_messages_same(a: Seq<Node>, b: Seq<Node>, t: u64, k: int)
    requires
        a.len() == b.len(),
        k <= a.len(),
        forall|i: int| 0 <= i < a.len() ==> same_frame(#[trigger] a[i], b[i]),
    ensures
        initial_messages(a, t, k) == initial_messages(b, t, k),
    decreases k,
{
    if k > 0 {
        lemma_initial_messages_same(a, b, t, k - 1);
        assert(same_frame(a[k - 1], b[k - 1]));
        assert(setup_messages(a[k - 1], t) == setup_messages(b[k - 1], t));
    }
}

impl Manager {
    /// Opens every node's initial channels and queues every node's initial
    /// messages at the current time, node after node.
    pub fn initialize_nodes(&mut self)
        ensures
            final(self).nodes@.len() == old(self).nodes@.len(),
            forall|i: int|
                0 <= i < old(self).nodes@.len() ==> {
                    let (a, b) = (old(self).nodes@[i], #[trigger] final(self).nodes@[i]);
                    &&& same_but_clock_channels_shares(a, b)
                    &&& b.data.local_time == a.data.local_time
                    &&& b.shares@ == a.shares@
                    &&& b.data.opened_channels@ == a.data.opened_channels@ + initial_channels(a)
                },
            final(self).message_queue@ == queue_insert_all(
                old(self).message_queue@,
                initial_messages(old(self).nodes@, old(self).current_time, old(self).nodes@.len() as int),
            ),
            final(self).settings == old(self).settings,
            final(self).querier_address == old(self).querier_address,
            final(self).current_time == old(self).current_time,
            final(self).recording == old(self).recording,
            old(self).queue_ok() ==> final(self).queue_ok(),
    {
        let ghost pre = *self;
        let n = self.nodes.len();
        let t = self.current_time;
        let mut a: usize = 0;
        while a < n
            invariant
                a <= n,
                n == self.nodes@.len(),
                n == pre.nodes@.len(),
                t == pre.current_time,
                forall|i: int|
                    0 <= i < a ==> {
                        let (x, y) = (pre.nodes@[i], #[trigger] self.nodes@[i]);
                        &&& same_but_clock_channels_shares(x, y)
                        &&& y.data.local_time == x.data.local_time
                        &&& y.shares@ == x.shares@
                        &&& y.data.opened_channels@ == x.data.opened_channels@ + initial_channels(x)
                    },
                forall|i: int| a <= i < n ==> #[trigger] self.nodes@[i] == pre.nodes@[i],
                self.message_queue@ == queue_insert_all(
                    pre.message_queue@,
                    initial_messages(pre.nodes@, t, a as int),
                ),
                self.settings == pre.settings,
                self.querier_address == pre.querier_address,
                self.current_time == pre.current_time,
                self.recording == pre.recording,
                pre.queue_ok() ==> self.queue_ok(),
            decreases n - a,
        {
            self.nodes[a].open_initial_channels();
            let msgs = self.nodes[a].setup(t);
            proof {
                assert(setup_messages(self.nodes@[a as int], t) == setup_messages(
                    pre.nodes@[a as int],
                    t,
                ));
                lemma_setup_messages_timed(pre.nodes@[a as int], t);
                lemma_insert_all_concat(
                    pre.message_queue@,
                    initial_messages(pre.nodes@, t, a as int),
                    msgs@,
                );
            }
            self.insert_all(msgs, Ghost(t));
            a = a + 1;
        }
    }

    /// Number of contributors.
    pub fn count_contributors(&self) -> (r: usize)
        ensures
            r == contributor_count(self.nodes@, self.nodes@.len() as int),
    {
        let mut c: usize = 0;
        let mut i: usize = 0;
        while i < self.nodes.len()
            invariant
                i <= self.nodes@.len(),
                c == contributor_count(self.nodes@, i as int),
                c <= i,
            decreases self.nodes@.len() - i,
        {
            if self.nodes[i].data.role == NodeRole::Contributor {
                c = c + 1;
            }
            i = i + 1;
        }
        c
    }

    /// Records how many contributors are still alive at the current time.
    pub fn count_final_contributors(&mut self)
        ensures
            final(self).recording.final_contributors == surviving_contributor_count(
                old(self).nodes@,
                old(self).current_time,
                old(self).nodes@.len() as int,
            ),
            final(self).nodes == old(self).nodes,
            final(self).message_queue == old(self).message_queue,
            final(self).current_time == old(self).current_time,
            final(self).settings == old(self).settings,
    {
        let mut c: usize = 0;
        let mut i: usize = 0;
        while i < self.nodes.len()
            invariant
                i <= self.nodes@.len(),
                c == surviving_contributor_count(self.nodes@, self.current_time, i as int),
                c <= i,
            decreases self.nodes@.len() - i,
        {
            if self.nodes[i].data.role == NodeRole::Contributor && self.nodes[i].data.death_time
                > self.current_time {
                c = c + 1;
            }
            i = i + 1;
        }
        self.recording.final_contributors = c;
    }

    /// Gives every contributor the offsets of its additive split.
    pub fn assign_share_offsets(&mut self, offsets: &Vec<i64>)
        requires
            offsets@.len() + 1 == old(self).settings.tree.group_size,
        ensures
            final(self).nodes@.len() == old(self).nodes@.len(),
            forall|i: int|
                0 <= i < old(self).nodes@.len() ==> {
                    let (a, b) = (old(self).nodes@[i], #[trigger] final(self).nodes@[i]);
                    &&& b.data.share_offsets@ == if a.data.role == NodeRole::Contributor {
                        offsets@
                    } else {
                        a.data.share_offsets@
                    }
                    &&& b.data.death_time == a.data.death_time
                    &&& b.data.role == a.data.role
                    &&& b.data.tree_node == a.data.tree_node
                    &&& b.data.address == a.data.address
                    &&& b.data.aggregates@ == a.data.aggregates@
                    &&& b.shares@ == a.shares@
                    &&& b.data.local_time == a.data.local_time
                    &&& b.data.opened_channels@ == a.data.opened_channels@
                    &&& b.data.settings == a.data.settings
                    &&& b.data.finished_working == a.data.finished_working
                    &&& b.data.secret_value == a.data.secret_value
                },
            same_run(*old(self), *final(self)),
    {
        let ghost pre = *self;
        let mut i: usize = 0;
        while i < self.nodes.len()
            invariant
                i <= self.nodes@.len(),
                self.nodes@.len() == pre.nodes@.len(),
                forall|k: int|
                    0 <= k < i ==> {
                        let (a, b) = (pre.nodes@[k], #[trigger] self.nodes@[k]);
                        &&& b.data.share_offsets@ == if a.data.role == NodeRole::Contributor {
                            offsets@
                        } else {
                            a.data.share_offsets@
                        }
                        &&& b.data.death_time == a.data.death_time
                        &&& b.data.role == a.data.role
                        &&& b.data.tree_node == a.data.tree_node
                        &&& b.data.address == a.data.address
                        &&& b.data.aggregates@ == a.data.aggregates@
                        &&& b.shares@ == a.shares@
                        &&& b.data.local_time == a.data.local_time
                        &&& b.data.opened_channels@ == a.data.opened_channels@
                        &&& b.data.settings == a.data.settings
                        &&& b.data.finished_working == a.data.finished_working
                        &&& b.data.secret_value == a.data.secret_value
                    },
                forall|k: int| i <= k < self.nodes@.len() ==> #[trigger] self.nodes@[k] == pre.nodes@[k],
                same_run(pre, *self),
            decreases self.nodes@.len() - i,
        {
            if self.nodes[i].data.role == NodeRole::Contributor {
                self.nodes[i].data.share_offsets = copy_offsets(offsets);
            }
            i = i + 1;
        }
    }
}

impl Manager {
    /// Creates the querier (a group of `group_size` copies of its own address)
    /// and the tree below it, with `counts[k]` contributors under the `k`-th
    /// leaf-aggregator group in address order.
    pub fn generate_tree_nodes(&mut self, counts: &Vec<usize>)
        requires
            old(self).nodes@.len() == 0,
            old(self).querier_address == 0,
            old(self).settings.tree.group_size >= 1,
            counts@.len() >= leaf_groups(
                old(self).settings.tree.fanout as nat,
                old(self).settings.tree.depth as nat,
            ),
            tree_size(old(self).settings.tree, counts@) <= usize::MAX,
        ensures
            final(self).nodes@.len() == tree_size(old(self).settings.tree, counts@),
            members_known(final(self).nodes@),
            children_after(final(self).nodes@),
            addresses_match(final(self).nodes@),
            fresh_nodes(final(self).nodes@),
            pristine(final(self).nodes@, old(self).settings),
            same_run(*old(self), *final(self)),
            tree_laid(final(self).nodes@, old(self).settings.tree, counts@),
            final(self).nodes@[0].data.role == NodeRole::Querier,
            final(self).nodes@[0].data.address == 0,
            final(self).nodes@[0].data.tree_node.members@ == Seq::new(
                old(self).settings.tree.group_size as nat,
                |k: int| 0usize,
            ),
            group_views(final(self).nodes@[0].data.tree_node.children@) == seq![
                consecutive(
                    1,
                    group_len(
                        old(self).settings.tree.group_size as nat,
                        old(self).settings.tree.depth as nat,
                    ),
                ),
            ],
            forall|a: int|
                1 <= a < 1 + group_len(
                    old(self).settings.tree.group_size as nat,
                    old(self).settings.tree.depth as nat,
                ) ==> {
                    let n = #[trigger] final(self).nodes@[a];
                    &&& built_member(
                        n,
                        a,
                        old(self).settings.tree.depth as nat,
                        consecutive(
                            1,
                            group_len(
                                old(self).settings.tree.group_size as nat,
                                old(self).settings.tree.depth as nat,
                            ),
                        ),
                        Seq::new(old(self).settings.tree.group_size as nat, |k: int| 0usize),
                    )
                    &&& group_views(n.data.tree_node.children@) == child_groups(
                        old(self).settings.tree.fanout as nat,
                        old(self).settings.tree.group_size as nat,
                        counts@,
                        old(self).settings.tree.depth as nat,
                        0,
                        1 + group_len(
                            old(self).settings.tree.group_size as nat,
                            old(self).settings.tree.depth as nat,
                        ),
                    )
                },
    {
        let g = self.settings.tree.group_size as usize;
        let mut querier = Node::new(self.settings.copy(), 0, NodeRole::Querier);
        let mut members: Vec<Address> = Vec::new();
        let mut i: usize = 0;
        while i < g
            invariant
                i <= g,
                members@.len() == i,
                forall|k: int| 0 <= k < i ==> #[trigger] members@[k] == 0,
            decreases g - i,
        {
            members.push(0);
            i = i + 1;
        }
        assert(members@ =~= Seq::new(g as nat, |k: int| 0usize));
        querier.data.tree_node.members = members;
        self.nodes.push(querier);
        assert(members_known(self.nodes@));
        assert(children_after(self.nodes@));
        assert(addresses_match(self.nodes@));
        assert(fresh_nodes(self.nodes@));
        assert(pristine(self.nodes@, self.settings));
        let ghost first = self.nodes@;
        let depth = self.settings.tree.depth;
        self.create_tree_node(0, depth, 1, counts, 0);
        proof {
            assert(first[0].data.tree_node.members@.contains(0usize)) by {
                assert(first[0].data.tree_node.members@[0] == 0usize);
            }
            assert(group_views(first[0].data.tree_node.children@) =~= Seq::<Seq<Address>>::empty());
            assert(group_views(self.nodes@[0].data.tree_node.children@) =~= seq![
                consecutive(1, group_len(g as nat, depth as nat)),
            ]);
        }
    }
}

/// `post` is the simulation that `setup` builds from the fresh manager `pre`
/// with these contributor counts, lifetimes and split offsets: the tree is laid
/// out, every clock is at 0, every node holds its initial channels, its role's
/// defaults and its death time, the clock stands at the construction time, the
/// queue holds every node's initial messages in delivery order, and the
/// recording has only learnt the number of contributors.
pub open spec fn set_up(
    pre: Manager,
    post: Manager,
    counts: Seq<usize>,
    lifetimes: Seq<u64>,
    offsets: Seq<i64>,
) -> bool {
    let latency = construction_latency(pre.settings.tree, pre.settings.costs);
    let mode = pre.settings.building_blocks.failure_handling;
    let nodes = post.nodes@;
    &&& nodes.len() == tree_size(pre.settings.tree, counts)
    &&& tree_laid(nodes, pre.settings.tree, counts)
    &&& post.settings == pre.settings
    &&& post.querier_address == 0
    &&& forall|i: int|
        0 <= i < nodes.len() ==> {
            let n = #[trigger] nodes[i];
            &&& n.data.settings == pre.settings
            &&& n.data.local_time == 0
            &&& n.data.opened_channels@ == initial_channels(n)
            &&& !n.data.finished_working
            &&& n.data.secret_value == DEFAULT_SECRET
            &&& n.data.share_offsets@ == if n.data.role == NodeRole::Contributor {
                offsets
            } else {
                Seq::empty()
            }
            &&& n.data.aggregates@ == Map::<Address, crate::shares::Share>::empty()
            &&& n.shares@.len() == 0
            &&& n.data.death_time == if mode == FailureHandlingMode::LocalFailurePropagation
                && cut_off(with_lifetimes(nodes, lifetimes), latency, i) {
                0
            } else {
                lifetimes[i]
            }
        }
    &&& post.current_time == if mode == FailureHandlingMode::NodeReplacement {
        clamp_time(
            latency + failed_count(with_lifetimes(nodes, lifetimes), latency, nodes.len() as int)
                * replacement_cost(pre),
        )
    } else {
        latency
    }
    &&& post.message_queue@ == queue_insert_all(
        Seq::empty(),
        initial_messages(nodes, post.current_time, nodes.len() as int),
    )
    &&& post.recording == (Recording {
        initial_contributors: post.recording.initial_contributors,
        ..pre.recording
    })
    &&& post.recording.initial_contributors == contributor_count(nodes, nodes.len() as int)
    &&& post.queue_ok()
    &&& counts_ok(post)
}

impl Manager {
    /// Builds the whole simulation: the querier (a group of `group_size` copies
    /// of its own address), the tree below it with `counts[k]` contributors
    /// under the `k`-th leaf-aggregator group, the construction latency as the
    /// current time, node `i`'s death at `lifetimes[i]`, the failure-handling
    /// mode's treatment of failures during construction, the contributors'
    /// split offsets, the initial channels and the initial messages.
    pub fn setup(&mut self, counts: &Vec<usize>, lifetimes: &Vec<u64>, offsets: &Vec<i64>)
        requires
            old(self).nodes@.len() == 0,
            old(self).message_queue@.len() == 0,
            old(self).querier_address == 0,
            old(self).settings.tree.group_size >= 1,
            old(self).settings.average_failure_time > 0,
            counts@.len() >= leaf_groups(
                old(self).settings.tree.fanout as nat,
                old(self).settings.tree.depth as nat,
            ),
            tree_size(old(self).settings.tree, counts@) <= usize::MAX,
            lifetimes@.len() == tree_size(old(self).settings.tree, counts@),
            offsets@.len() + 1 == old(self).settings.tree.group_size,
            forall|i: int| 0 <= i < offsets@.len() ==> 0 <= #[trigger] offsets@[i] < OFFSET_BOUND,
        ensures
            set_up(*old(self), *final(self), counts@, lifetimes@, offsets@),
    {
        self.generate_tree_nodes(counts);
        let ghost n0 = self.nodes@;
        self.current_time = self.settings.tree_construction_latency();
        let ghost built = *self;
        self.generate_failures(lifetimes);
        let ghost n1 = self.nodes@;
        self.initialize_tree_failures();
        let ghost n2 = self.nodes@;
        self.assign_share_offsets(offsets);
        let ghost n3 = self.nodes@;
        let ghost t = self.current_time;
        self.initialize_nodes();
        let initial = self.count_contributors();
        self.recording.initial_contributors = initial;
        proof {
            if built.message_queue@.len() == 0 {
                assert(queue_ok(built.message_queue@, built.current_time));
                assert(holds_no_share(n0)) by {
                    assert forall|a: int| 0 <= a < n0.len() implies (#[trigger] n0[a]).data.aggregates@
                        == Map::<Address, crate::shares::Share>::empty() && n0[a].shares@.len() == 0 by {}
                }
                assert(same_holdings(n0, n1));
                lemma_fresh_layout_kept(n0, n1);
                assert(same_holdings(n1, n2)) by {
                    assert forall|i: int| 0 <= i < n1.len() implies (#[trigger] n2[i]).data.tree_node
                        == n1[i].data.tree_node && n2[i].data.address == n1[i].data.address
                        && n2[i].data.aggregates@ == n1[i].data.aggregates@ && n2[i].shares@
                        == n1[i].shares@ by {
                        if built.settings.building_blocks.failure_handling
                            == FailureHandlingMode::LocalFailurePropagation {
                            assert(n2[i] == if cut_off(n1, t, i) {
                                with_death(n1[i], 0)
                            } else {
                                n1[i]
                            });
                        }
                    }
                }
                lemma_fresh_layout_kept(n1, n2);
                assert(same_holdings(n2, n3));
                lemma_fresh_layout_kept(n2, n3);
                assert(same_holdings(n3, self.nodes@));
                lemma_fresh_layout_kept(n3, self.nodes@);
                lemma_initial_messages_plain(n3, t, n3.len() as int);
                lemma_insert_all_plain(built.message_queue@, initial_messages(n3, t, n3.len() as int));
                lemma_fresh_counts(*self);
            }
            let fin = self.nodes@;
            assert forall|i: int| 0 <= i < fin.len() implies {
                &&& same_shape(n0[i], #[trigger] fin[i])
                &&& fin[i].data.local_time == 0
                &&& fin[i].data.opened_channels@ == initial_channels(fin[i])
                &&& fin[i].data.role == NodeRole::Contributor ==> fin[i].data.share_offsets@ == offsets@
                &&& same_frame(n3[i], fin[i])
            } by {
                assert(n1[i] == with_death(n0[i], lifetimes@[i]));
                if built.settings.building_blocks.failure_handling
                    == FailureHandlingMode::LocalFailurePropagation {
                    assert(n2[i] == if cut_off(n1, built.current_time, i) {
                        with_death(n1[i], 0)
                    } else {
                        n1[i]
                    });
                } else if built.settings.building_blocks.failure_handling
                    == FailureHandlingMode::NodeReplacement {
                    assert(n2[i] == n1[i]);
                }
                assert(n0[i].data.opened_channels@.len() == 0);
                assert(n3[i].data.opened_channels@ =~= Seq::<ChannelState>::empty());
                assert(fin[i].data.opened_channels@ =~= initial_channels(n3[i]));
            }
            assert(shape_kept(n0, fin, 0, n0.len() as int));
            let lived = with_lifetimes(fin, lifetimes@);
            assert(same_failures(n1, lived)) by {
                assert forall|i: int| 0 <= i < n1.len() implies (#[trigger] n1[i]).data.death_time
                    == lived[i].data.death_time && n1[i].data.tree_node.members@
                    == lived[i].data.tree_node.members@ && n1[i].data.tree_node.parents@
                    == lived[i].data.tree_node.parents@ by {
                    assert(n1[i] == with_death(n0[i], lifetimes@[i]));
                    assert(same_shape(n0[i], fin[i]));
                }
            }
            assert forall|i: int| 0 <= i < fin.len() implies cut_off(n1, built.current_time, i) == cut_off(
                lived,
                built.current_time,
                i,
            ) by {
                lemma_cut_off_same(n1, lived, built.current_time, i);
            }
            lemma_failed_count_same(n1, lived, built.current_time, n1.len() as int);
            assert forall|i: int| 0 <= i < fin.len() implies {
                let n = #[trigger] fin[i];
                &&& n.data.settings == built.settings
                &&& !n.data.finished_working
                &&& n.data.secret_value == DEFAULT_SECRET
                &&& n.data.role != NodeRole::Contributor ==> n.data.share_offsets@ == Seq::<i64>::empty()
                &&& n.data.aggregates@ == Map::<Address, crate::shares::Share>::empty()
                &&& n.shares@.len() == 0
            } by {
                assert(n1[i] == with_death(n0[i], lifetimes@[i]));
                if built.settings.building_blocks.failure_handling
                    == FailureHandlingMode::LocalFailurePropagation {
                    assert(n2[i] == if cut_off(n1, built.current_time, i) {
                        with_death(n1[i], 0)
                    } else {
                        n1[i]
                    });
                }
                assert(same_frame(n3[i], fin[i]));
                if fin[i].data.role != NodeRole::Contributor {
                    assert(fin[i].data.share_offsets@ =~= Seq::<i64>::empty());
                }
            }
            lemma_tree_laid_frame(n0, fin, built.settings.tree, counts@);
            lemma_initial_messages_same(n3, fin, t, n3.len() as int);
            assert(built.message_queue@ =~= Seq::<Message>::empty());
            assert(self.current_time == t);
        }
    }
}

} // verus!
