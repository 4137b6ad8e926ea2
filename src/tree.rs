use itertools::Itertools;
use vstd::prelude::*;

use crate::common::Address;
use crate::manager::Manager;
use crate::node::{Node, NodeRole, DEFAULT_SECRET};
use crate::run::RunSettings;
use crate::shares::Share;
use crate::run::TreeSettings;

verus! {

/// `f` to the power `n`.
pub open spec fn pow(f: nat, n: nat) -> nat
    decreases n,
{
    if n == 0 {
        1
    } else {
        f * pow(f, (n - 1) as nat)
    }
}

/// `1 + f + ... + f^(d-1)`: the number of groups in a tree of aggregator
/// groups of depth `d` and fanout `f`.
pub open spec fn geometric(f: nat, d: nat) -> nat
    decreases d,
{
    if d == 0 {
        0
    } else {
        1 + f * geometric(f, (d - 1) as nat)
    }
}

/// Number of leaf-aggregator groups under a group of depth `d`.
pub open spec fn leaf_groups(f: nat, d: nat) -> nat {
    if d == 0 {
        0
    } else {
        pow(f, (d - 1) as nat)
    }
}

/// `counts[a] + ... + counts[b-1]`.
pub open spec fn range_sum(counts: Seq<usize>, a: int, b: int) -> int
    decreases b - a,
{
    if b <= a {
        0
    } else {
        range_sum(counts, a, b - 1) + counts[b - 1]
    }
}

/// Number of nodes in the subtree built at depth `d`, whose leaf-aggregator
/// groups take their contributor counts from `counts`, from index `leaf` on.
pub open spec fn subtree_size(f: nat, g: nat, counts: Seq<usize>, d: nat, leaf: int) -> int
    decreases d, 0nat,
{
    if d == 0 {
        1
    } else if d == 1 {
        g + counts[leaf]
    } else {
        g + children_size(f, g, counts, (d - 1) as nat, leaf, f)
    }
}

/// Number of nodes in the first `j` child subtrees of depth `c`.
pub open spec fn children_size(f: nat, g: nat, counts: Seq<usize>, c: nat, leaf: int, j: nat) -> int
    decreases c, j + 1,
{
    if j == 0 {
        0
    } else {
        children_size(f, g, counts, c, leaf, (j - 1) as nat) + subtree_size(
            f,
            g,
            counts,
            c,
            leaf + (j - 1) * leaf_groups(f, c),
        )
    }
}

/// Number of nodes of a whole simulation: the querier and the tree below it.
pub open spec fn tree_size(tree: TreeSettings, counts: Seq<usize>) -> int {
    1 + subtree_size(tree.fanout as nat, tree.group_size as nat, counts, tree.depth as nat, 0)
}

/// Every member address of every node names a node.
pub open spec fn members_known(nodes: Seq<Node>) -> bool {
    forall|i: int, j: int|
        0 <= i < nodes.len() && 0 <= j < nodes[i].data.tree_node.members@.len() ==> (
        #[trigger] nodes[i].data.tree_node.members@[j]) < nodes.len()
}

/// Every child group's members come after their parent and name nodes.
pub open spec fn children_after(nodes: Seq<Node>) -> bool {
    forall|a: int, i: int, k: int|
        0 <= a < nodes.len() && 0 <= i < nodes[a].data.tree_node.children@.len() && 0 <= k
            < nodes[a].data.tree_node.children@[i]@.len() ==> a < (
        #[trigger] nodes[a].data.tree_node.children@[i]@[k]) < nodes.len()
}

/// Every node sits at its own address.
pub open spec fn addresses_match(nodes: Seq<Node>) -> bool {
    forall|a: int| 0 <= a < nodes.len() ==> (#[trigger] nodes[a]).data.address == a
}

/// No node has run yet: every clock is at 0, no channel is open, and no share
/// was received or prepared.
pub open spec fn fresh_nodes(nodes: Seq<Node>) -> bool {
    forall|a: int|
        0 <= a < nodes.len() ==> (#[trigger] nodes[a]).data.aggregates@ == Map::<Address, Share>::empty()
            && nodes[a].shares@.len() == 0 && nodes[a].data.local_time == 0
            && nodes[a].data.opened_channels@.len() == 0
}

/// Every node has the given settings, the default secret, no split offsets,
/// no lifetime yet (death time 0) and has not finished.
pub open spec fn pristine(nodes: Seq<Node>, settings: RunSettings) -> bool {
    forall|a: int|
        0 <= a < nodes.len() ==> (#[trigger] nodes[a]).data.settings == settings && !nodes[a].data.finished_working
            && nodes[a].data.secret_value == DEFAULT_SECRET && nodes[a].data.share_offsets@.len() == 0
            && nodes[a].data.death_time == 0
}

/// The distinct elements of `s`, each where it first occurs.
pub open spec fn first_occurrences(s: Seq<Address>) -> Seq<Address>
    decreases s.len(),
{
    if s.len() == 0 {
        Seq::empty()
    } else {
        let prev = first_occurrences(s.drop_last());
        if prev.contains(s.last()) {
            prev
        } else {
            prev.push(s.last())
        }
    }
}

/// Relies on itertools' `Itertools::unique`: it yields each element the first
/// time it occurs and skips its later occurrences.
#[verifier::external_body]
fn distinct(v: &Vec<Address>) -> (r: Vec<Address>)
    ensures
        r@ == first_occurrences(v@),
{
    v.iter().unique().cloned().collect()
}

proof fn lemma_first_occurrences_within(s: Seq<Address>)
    ensures
        forall|k: int| 0 <= k < first_occurrences(s).len() ==> s.contains(
            #[trigger] first_occurrences(s)[k],
        ),
    decreases s.len(),
{
    if s.len() > 0 {
        let prev = first_occurrences(s.drop_last());
        lemma_first_occurrences_within(s.drop_last());
        assert forall|k: int| 0 <= k < first_occurrences(s).len() implies s.contains(
            #[trigger] first_occurrences(s)[k],
        ) by {
            if k < prev.len() {
                let x = prev[k];
                let w = choose|w: int| 0 <= w < s.drop_last().len() && s.drop_last()[w] == x;
                assert(s[w] == x);
            } else {
                assert(s[s.len() - 1] == s.last());
            }
        }
    }
}

/// A copy of a list of addresses.
pub fn copy_addresses(v: &Vec<Address>) -> (r: Vec<Address>)
    ensures
        r@ == v@,
{
    let mut r: Vec<Address> = Vec::new();
    let mut i: usize = 0;
    while i < v.len()
        invariant
            i <= v@.len(),
            r@ == v@.subrange(0, i as int),
        decreases v@.len() - i,
    {
        r.push(v[i]);
        assert(r@ =~= v@.subrange(0, i + 1));
        i = i + 1;
    }
    assert(v@.subrange(0, i as int) == v@);
    r
}

proof fn lemma_children_size_grows(
    f: nat,
    g: nat,
    counts: Seq<usize>,
    c: nat,
    leaf: int,
    j: nat,
    k: nat,
)
    requires
        j <= k,
    ensures
        0 <= children_size(f, g, counts, c, leaf, j) <= children_size(f, g, counts, c, leaf, k),
    decreases c, k + 1,
{
    if k > 0 {
        if j < k {
            lemma_children_size_grows(f, g, counts, c, leaf, j, (k - 1) as nat);
        } else {
            lemma_children_size_grows(f, g, counts, c, leaf, 0, (k - 1) as nat);
        }
        lemma_subtree_size_nonnegative(f, g, counts, c, leaf + (k - 1) * leaf_groups(f, c));
    }
}

proof fn lemma_subtree_size_nonnegative(f: nat, g: nat, counts: Seq<usize>, d: nat, leaf: int)
    ensures
        subtree_size(f, g, counts, d, leaf) >= 0,
    decreases d, 0nat,
{
    if d >= 2 {
        lemma_children_size_grows(f, g, counts, (d - 1) as nat, leaf, 0, f);
    }
}

proof fn lemma_range_sum_split(counts: Seq<usize>, a: int, b: int, c: int)
    requires
        a <= b <= c,
    ensures
        range_sum(counts, a, c) == range_sum(counts, a, b) + range_sum(counts, b, c),
    decreases c - b,
{
    if b < c {
        lemma_range_sum_split(counts, a, b, c - 1);
    }
}

proof fn lemma_children_size_closed(f: nat, g: nat, counts: Seq<usize>, c: nat, leaf: int, j: nat)
    requires
        c >= 1,
    ensures
        children_size(f, g, counts, c, leaf, j) == j * (g * geometric(f, c)) + range_sum(
            counts,
            leaf,
            leaf + j * leaf_groups(f, c),
        ),
    decreases c, j + 1,
{
    let per_group = g * geometric(f, c);
    let span = leaf_groups(f, c) as int;
    if j == 0 {
        assert(j * per_group == 0);
        assert(j * span == 0);
    } else {
        let i = (j - 1) as nat;
        lemma_children_size_closed(f, g, counts, c, leaf, i);
        lemma_subtree_size_closed(f, g, counts, c, leaf + i * span);
        assert(i * per_group + per_group == j * per_group) by (nonlinear_arith)
            requires
                i + 1 == j,
        ;
        assert(leaf + i * span + span == leaf + j * span) by (nonlinear_arith)
            requires
                i + 1 == j,
        ;
        assert(0 <= i * span) by (nonlinear_arith)
            requires
                span >= 0,
        ;
        lemma_range_sum_split(counts, leaf, leaf + i * span, leaf + j * span);
    }
}

proof fn lemma_subtree_size_closed(f: nat, g: nat, counts: Seq<usize>, d: nat, leaf: int)
    requires
        d >= 1,
    ensures
        subtree_size(f, g, counts, d, leaf) == g * geometric(f, d) + range_sum(
            counts,
            leaf,
            leaf + leaf_groups(f, d),
        ),
    decreases d, 0nat,
{
    if d == 1 {
        assert(geometric(f, 0) == 0);
        assert(f * geometric(f, 0) == 0) by (nonlinear_arith)
            requires
                geometric(f, 0) == 0,
        ;
        assert(geometric(f, 1) == 1);
        assert(leaf_groups(f, 1) == 1);
        assert(range_sum(counts, leaf, leaf) == 0);
    } else {
        let c = (d - 1) as nat;
        lemma_children_size_closed(f, g, counts, c, leaf, f);
        assert(leaf_groups(f, d) == f * leaf_groups(f, c));
        assert(g * geometric(f, d) == g + f * (g * geometric(f, c))) by (nonlinear_arith)
            requires
                geometric(f, d) == 1 + f * geometric(f, c),
        ;
    }
}

/// The size of a simulation of depth `d >= 1`, fanout `f` and groups of `g`:
/// one querier, `g` nodes for each of the `1 + f + ... + f^(d-1)` aggregator
/// groups, and the contributors of the `f^(d-1)` leaf-aggregator groups, whose
/// counts are the first `f^(d-1)` entries of `counts`.
pub proof fn lemma_tree_size(tree: TreeSettings, counts: Seq<usize>)
    requires
        tree.depth >= 1,
    ensures
        tree_size(tree, counts) == 1 + tree.group_size * geometric(tree.fanout as nat, tree.depth as nat)
            + range_sum(counts, 0, leaf_groups(tree.fanout as nat, tree.depth as nat) as int),
{
    lemma_subtree_size_closed(
        tree.fanout as nat,
        tree.group_size as nat,
        counts,
        tree.depth as nat,
        0,
    );
}

/// `b` is `a` where only the nodes may differ.
pub open spec fn same_run(a: Manager, b: Manager) -> bool {
    &&& b.settings == a.settings
    &&& b.querier_address == a.querier_address
    &&& b.message_queue == a.message_queue
    &&& b.current_time == a.current_time
    &&& b.recording == a.recording
}

/// The `size` consecutive addresses from `start`.
pub open spec fn consecutive(start: int, size: int) -> Seq<Address> {
    Seq::new(size as nat, |k: int| (start + k) as usize)
}

/// Size of a group at depth `d`: `g` members, or a single contributor.
pub open spec fn group_len(g: nat, d: nat) -> int {
    if d > 0 {
        g as int
    } else {
        1
    }
}

/// Role of the nodes built at depth `d`.
pub open spec fn role_at_depth(d: nat) -> NodeRole {
    if d > 1 {
        NodeRole::Aggregator
    } else if d == 1 {
        NodeRole::LeafAggregator
    } else {
        NodeRole::Contributor
    }
}

/// The child groups of a group built at depth `d`, whose subtrees start at
/// address `first`: `f` groups of `g` one level down, or `counts[leaf]` single
/// contributors below a leaf-aggregator group, or none below a contributor.
pub open spec fn child_groups(
    f: nat,
    g: nat,
    counts: Seq<usize>,
    d: nat,
    leaf: int,
    first: int,
) -> Seq<Seq<Address>> {
    if d == 0 {
        Seq::empty()
    } else if d == 1 {
        Seq::new(counts[leaf] as nat, |c: int| seq![(first + c) as usize])
    } else {
        Seq::new(
            f,
            |j: int|
                consecutive(first + children_size(f, g, counts, (d - 1) as nat, leaf, j as nat), g as int),
        )
    }
}

/// The first `j` child groups of an aggregator group.
pub open spec fn first_child_groups(f: nat, g: nat, counts: Seq<usize>, c: nat, leaf: int, first: int, j: nat) -> Seq<
    Seq<Address>,
> {
    Seq::new(j, |x: int| consecutive(first + children_size(f, g, counts, c, leaf, x as nat), g as int))
}

/// The child groups as address sequences.
pub open spec fn group_views(v: Seq<Vec<Address>>) -> Seq<Seq<Address>> {
    v.map_values(|x: Vec<Address>| x@)
}

/// `b` is `a` where at most the child groups differ.
pub open spec fn same_but_children(a: Node, b: Node) -> bool {
    &&& b.data.settings == a.data.settings
    &&& b.data.address == a.data.address
    &&& b.data.role == a.data.role
    &&& b.data.local_time == a.data.local_time
    &&& b.data.death_time == a.data.death_time
    &&& b.data.opened_channels == a.data.opened_channels
    &&& b.data.finished_working == a.data.finished_working
    &&& b.data.aggregates == a.data.aggregates
    &&& b.data.secret_value == a.data.secret_value
    &&& b.data.share_offsets == a.data.share_offsets
    &&& b.shares == a.shares
    &&& b.data.tree_node.address == a.data.tree_node.address
    &&& b.data.tree_node.depth == a.data.tree_node.depth
    &&& b.data.tree_node.members == a.data.tree_node.members
    &&& b.data.tree_node.parents == a.data.tree_node.parents
}

/// Node `n` is the member at address `a` of a group built at depth `d`.
pub open spec fn built_member(
    n: Node,
    a: int,
    d: nat,
    members: Seq<Address>,
    parents: Seq<Address>,
) -> bool {
    &&& n.data.address == a
    &&& n.data.tree_node.address == a
    &&& n.data.role == role_at_depth(d)
    &&& n.data.tree_node.depth == d
    &&& n.data.tree_node.members@ == members
    &&& n.data.tree_node.parents@ == parents
}

/// `b` is `a` (the node at address `i`) after the group `group` was added to
/// the children of each of `parents`.
pub open spec fn linked(a: Node, b: Node, parents: Seq<Address>, i: int, group: Seq<Address>) -> bool {
    &&& same_but_children(a, b)
    &&& group_views(b.data.tree_node.children@) == group_views(a.data.tree_node.children@) + if parents.contains(
        i as usize,
    ) {
        seq![group]
    } else {
        Seq::empty()
    }
}

/// What the layout reads of a node: its place, role and topology.
pub open spec fn same_shape(a: Node, b: Node) -> bool {
    &&& b.data.address == a.data.address
    &&& b.data.role == a.data.role
    &&& b.data.tree_node.address == a.data.tree_node.address
    &&& b.data.tree_node.depth == a.data.tree_node.depth
    &&& b.data.tree_node.members@ == a.data.tree_node.members@
    &&& b.data.tree_node.parents@ == a.data.tree_node.parents@
    &&& group_views(b.data.tree_node.children@) == group_views(a.data.tree_node.children@)
}

/// Nodes `lo` to `hi - 1` exist in both sequences and have the same shape.
pub open spec fn shape_kept(n1: Seq<Node>, n2: Seq<Node>, lo: int, hi: int) -> bool {
    &&& 0 <= lo
    &&& hi <= n1.len()
    &&& hi <= n2.len()
    &&& forall|a: int| #![trigger n1[a]] #![trigger n2[a]] lo <= a < hi ==> same_shape(n1[a], n2[a])
}

/// Number of child groups of a group built at depth `d >= 1`.
pub open spec fn child_count(f: nat, counts: Seq<usize>, d: nat, leaf: int) -> int {
    if d == 1 {
        counts[leaf] as int
    } else {
        f as int
    }
}

/// The subtree built at depth `d` from address `start` under the parent group
/// `parents` is laid out in `nodes`: its group of consecutive addresses has the
/// role of its depth, knows its parents and its child groups, and each child
/// subtree is laid out in turn, one level down, right after it.
pub open spec fn subtree_laid(
    nodes: Seq<Node>,
    f: nat,
    g: nat,
    counts: Seq<usize>,
    d: nat,
    leaf: int,
    start: int,
    parents: Seq<Address>,
) -> bool
    decreases d, 1int, 0int,
{
    let gl = group_len(g, d);
    &&& forall|a: int|
        start <= a < start + gl ==> {
            &&& 0 <= a < nodes.len()
            &&& built_member(#[trigger] nodes[a], a, d, consecutive(start, gl), parents)
            &&& group_views(nodes[a].data.tree_node.children@) == child_groups(
                f,
                g,
                counts,
                d,
                leaf,
                start + gl,
            )
        }
    &&& d >= 1 ==> children_laid(
        nodes,
        f,
        g,
        counts,
        (d - 1) as nat,
        leaf,
        start + gl,
        consecutive(start, gl),
        child_count(f, counts, d, leaf),
    )
}

/// The first `j` child subtrees, of depth `c`, of a group are laid out from
/// address `first` on.
pub open spec fn children_laid(
    nodes: Seq<Node>,
    f: nat,
    g: nat,
    counts: Seq<usize>,
    c: nat,
    leaf: int,
    first: int,
    group: Seq<Address>,
    j: int,
) -> bool
    decreases c + 1, 0int, j,
{
    if j <= 0 {
        true
    } else {
        &&& children_laid(nodes, f, g, counts, c, leaf, first, group, j - 1)
        &&& subtree_laid(
            nodes,
            f,
            g,
            counts,
            c,
            leaf + (j - 1) * leaf_groups(f, c),
            first + children_size(f, g, counts, c, leaf, (j - 1) as nat),
            group,
        )
    }
}

proof fn lemma_contributors_size(f: nat, g: nat, counts: Seq<usize>, leaf: int, j: nat)
    ensures
        children_size(f, g, counts, 0, leaf, j) == j,
    decreases j,
{
    if j > 0 {
        lemma_contributors_size(f, g, counts, leaf, (j - 1) as nat);
        assert(subtree_size(f, g, counts, 0, leaf + (j - 1) * leaf_groups(f, 0)) == 1);
    }
}

/// The size of a subtree: its group and its child subtrees.
proof fn lemma_subtree_split(f: nat, g: nat, counts: Seq<usize>, d: nat, leaf: int)
    requires
        d >= 1,
    ensures
        subtree_size(f, g, counts, d, leaf) == group_len(g, d) + children_size(
            f,
            g,
            counts,
            (d - 1) as nat,
            leaf,
            child_count(f, counts, d, leaf) as nat,
        ),
{
    if d == 1 {
        lemma_contributors_size(f, g, counts, leaf, counts[leaf] as nat);
    }
}

proof fn lemma_shape_kept_within(n1: Seq<Node>, n2: Seq<Node>, lo: int, hi: int, lo2: int, hi2: int)
    requires
        shape_kept(n1, n2, lo, hi),
        lo <= lo2,
        lo2 <= hi2,
        hi2 <= hi,
    ensures
        shape_kept(n1, n2, lo2, hi2),
{
    assert forall|a: int| #![trigger n1[a]] #![trigger n2[a]] lo2 <= a < hi2 implies same_shape(
        n1[a],
        n2[a],
    ) by {
        assert(lo <= a < hi);
    }
}

proof fn lemma_subtree_laid_frame(
    n1: Seq<Node>,
    n2: Seq<Node>,
    f: nat,
    g: nat,
    counts: Seq<usize>,
    d: nat,
    leaf: int,
    start: int,
    parents: Seq<Address>,
)
    requires
        subtree_laid(n1, f, g, counts, d, leaf, start, parents),
        shape_kept(n1, n2, start, start + subtree_size(f, g, counts, d, leaf)),
    ensures
        subtree_laid(n2, f, g, counts, d, leaf, start, parents),
    decreases d, 1int, 0int,
{
    let gl = group_len(g, d);
    if d >= 1 {
        lemma_subtree_split(f, g, counts, d, leaf);
        let c = (d - 1) as nat;
        let k = child_count(f, counts, d, leaf);
        lemma_children_size_grows(f, g, counts, c, leaf, 0, k as nat);
        lemma_shape_kept_within(
            n1,
            n2,
            start,
            start + subtree_size(f, g, counts, d, leaf),
            start + gl,
            start + gl + children_size(f, g, counts, c, leaf, k as nat),
        );
        lemma_children_laid_frame(n1, n2, f, g, counts, c, leaf, start + gl, consecutive(start, gl), k);
    }
    if d == 0 {
        assert(subtree_size(f, g, counts, d, leaf) == 1);
    }
    assert forall|a: int| start <= a < start + gl implies {
        &&& 0 <= a < n2.len()
        &&& built_member(#[trigger] n2[a], a, d, consecutive(start, gl), parents)
        &&& group_views(n2[a].data.tree_node.children@) == child_groups(f, g, counts, d, leaf, start + gl)
    } by {
        assert(same_shape(n1[a], n2[a]));
    }
}

proof fn lemma_children_laid_frame(
    n1: Seq<Node>,
    n2: Seq<Node>,
    f: nat,
    g: nat,
    counts: Seq<usize>,
    c: nat,
    leaf: int,
    first: int,
    group: Seq<Address>,
    j: int,
)
    requires
        children_laid(n1, f, g, counts, c, leaf, first, group, j),
        j >= 0,
        shape_kept(n1, n2, first, first + children_size(f, g, counts, c, leaf, j as nat)),
    ensures
        children_laid(n2, f, g, counts, c, leaf, first, group, j),
    decreases c + 1, 0int, j,
{
    if j > 0 {
        let i = (j - 1) as nat;
        lemma_children_size_grows(f, g, counts, c, leaf, i, j as nat);
        lemma_children_size_grows(f, g, counts, c, leaf, 0, i);
        let lo = first + children_size(f, g, counts, c, leaf, i);
        let hi = first + children_size(f, g, counts, c, leaf, j as nat);
        assert(hi == lo + subtree_size(f, g, counts, c, leaf + i * leaf_groups(f, c)));
        lemma_shape_kept_within(n1, n2, first, hi, first, lo);
        lemma_shape_kept_within(n1, n2, first, hi, lo, hi);
        lemma_children_laid_frame(n1, n2, f, g, counts, c, leaf, first, group, j - 1);
        lemma_subtree_laid_frame(
            n1,
            n2,
            f,
            g,
            counts,
            c,
            leaf + i * leaf_groups(f, c),
            first + children_size(f, g, counts, c, leaf, i),
            group,
        );
    }
}

/// The whole simulation is laid out: the querier at address 0 (a group of
/// `group_size` copies of its own address, whose one child group is the top
/// group) and the tree below it, from address 1 on.
pub open spec fn tree_laid(nodes: Seq<Node>, tree: TreeSettings, counts: Seq<usize>) -> bool {
    let g = tree.group_size as nat;
    let d = tree.depth as nat;
    &&& nodes.len() == tree_size(tree, counts)
    &&& nodes[0].data.role == NodeRole::Querier
    &&& nodes[0].data.address == 0
    &&& nodes[0].data.tree_node.address == 0
    &&& nodes[0].data.tree_node.depth == 0
    &&& nodes[0].data.tree_node.parents@.len() == 0
    &&& nodes[0].data.tree_node.members@ == Seq::new(g, |k: int| 0usize)
    &&& group_views(nodes[0].data.tree_node.children@) == seq![consecutive(1, group_len(g, d))]
    &&& subtree_laid(nodes, tree.fanout as nat, g, counts, d, 0, 1, Seq::new(g, |k: int| 0usize))
}

/// The layout of a simulation carries over to nodes of the same shape.
pub proof fn lemma_tree_laid_frame(n1: Seq<Node>, n2: Seq<Node>, tree: TreeSettings, counts: Seq<usize>)
    requires
        tree_laid(n1, tree, counts),
        n1.len() == n2.len(),
        shape_kept(n1, n2, 0, n1.len() as int),
    ensures
        tree_laid(n2, tree, counts),
{
    lemma_subtree_size_nonnegative(
        tree.fanout as nat,
        tree.group_size as nat,
        counts,
        tree.depth as nat,
        0,
    );
    assert(same_shape(n1[0], n2[0]));
    lemma_shape_kept_within(n1, n2, 0, n1.len() as int, 1, n1.len() as int);
    lemma_subtree_laid_frame(
        n1,
        n2,
        tree.fanout as nat,
        tree.group_size as nat,
        counts,
        tree.depth as nat,
        0,
        1,
        Seq::new(tree.group_size as nat, |k: int| 0usize),
    );
}

/// Two layouts of the same subtree agree on the shape of every node in it.
pub proof fn lemma_subtree_laid_unique(
    n1: Seq<Node>,
    n2: Seq<Node>,
    f: nat,
    g: nat,
    counts: Seq<usize>,
    d: nat,
    leaf: int,
    start: int,
    parents: Seq<Address>,
)
    requires
        subtree_laid(n1, f, g, counts, d, leaf, start, parents),
        subtree_laid(n2, f, g, counts, d, leaf, start, parents),
        0 <= start,
        start + subtree_size(f, g, counts, d, leaf) <= n1.len(),
        start + subtree_size(f, g, counts, d, leaf) <= n2.len(),
    ensures
        shape_kept(n1, n2, start, start + subtree_size(f, g, counts, d, leaf)),
    decreases d, 1int, 0int,
{
    let gl = group_len(g, d);
    let size = subtree_size(f, g, counts, d, leaf);
    if d >= 1 {
        lemma_subtree_split(f, g, counts, d, leaf);
        let c = (d - 1) as nat;
        let k = child_count(f, counts, d, leaf);
        lemma_children_size_grows(f, g, counts, c, leaf, 0, k as nat);
        lemma_children_laid_unique(n1, n2, f, g, counts, c, leaf, start + gl, consecutive(start, gl), k);
    } else {
        assert(size == 1);
    }
    assert forall|a: int| #![trigger n1[a]] #![trigger n2[a]] start <= a < start + size implies same_shape(
        n1[a],
        n2[a],
    ) by {
        if a < start + gl {
            assert(built_member(n1[a], a, d, consecutive(start, gl), parents));
            assert(built_member(n2[a], a, d, consecutive(start, gl), parents));
        } else {
            let c = (d - 1) as nat;
            let k = child_count(f, counts, d, leaf);
            assert(shape_kept(n1, n2, start + gl, start + gl + children_size(f, g, counts, c, leaf, k as nat)));
        }
    }
}

proof fn lemma_children_laid_unique(
    n1: Seq<Node>,
    n2: Seq<Node>,
    f: nat,
    g: nat,
    counts: Seq<usize>,
    c: nat,
    leaf: int,
    first: int,
    group: Seq<Address>,
    j: int,
)
    requires
        children_laid(n1, f, g, counts, c, leaf, first, group, j),
        children_laid(n2, f, g, counts, c, leaf, first, group, j),
        j >= 0,
        0 <= first,
        first + children_size(f, g, counts, c, leaf, j as nat) <= n1.len(),
        first + children_size(f, g, counts, c, leaf, j as nat) <= n2.len(),
    ensures
        shape_kept(n1, n2, first, first + children_size(f, g, counts, c, leaf, j as nat)),
    decreases c + 1, 0int, j,
{
    if j > 0 {
        let i = (j - 1) as nat;
        lemma_children_size_grows(f, g, counts, c, leaf, i, j as nat);
        lemma_children_size_grows(f, g, counts, c, leaf, 0, i);
        let lo = first + children_size(f, g, counts, c, leaf, i);
        let hi = first + children_size(f, g, counts, c, leaf, j as nat);
        assert(hi == lo + subtree_size(f, g, counts, c, leaf + i * leaf_groups(f, c)));
        lemma_children_laid_unique(n1, n2, f, g, counts, c, leaf, first, group, j - 1);
        lemma_subtree_laid_unique(n1, n2, f, g, counts, c, leaf + i * leaf_groups(f, c), lo, group);
        assert forall|a: int| #![trigger n1[a]] #![trigger n2[a]] first <= a < hi implies same_shape(
            n1[a],
            n2[a],
        ) by {
            if a < lo {
                assert(shape_kept(n1, n2, first, lo));
            } else {
                assert(shape_kept(n1, n2, lo, hi));
            }
        }
    } else {
        assert(children_size(f, g, counts, c, leaf, 0) == 0);
    }
}

/// Two layouts of the same simulation agree on the shape of every node.
pub proof fn lemma_tree_laid_unique(n1: Seq<Node>, n2: Seq<Node>, tree: TreeSettings, counts: Seq<usize>)
    requires
        tree_laid(n1, tree, counts),
        tree_laid(n2, tree, counts),
    ensures
        shape_kept(n1, n2, 0, n1.len() as int),
        n1.len() == n2.len(),
{
    let g = tree.group_size as nat;
    lemma_subtree_size_nonnegative(tree.fanout as nat, g, counts, tree.depth as nat, 0);
    lemma_subtree_laid_unique(
        n1,
        n2,
        tree.fanout as nat,
        g,
        counts,
        tree.depth as nat,
        0,
        1,
        Seq::new(g, |k: int| 0usize),
    );
    assert forall|a: int| #![trigger n1[a]] #![trigger n2[a]] 0 <= a < n1.len() implies same_shape(
        n1[a],
        n2[a],
    ) by {
        if a >= 1 {
            assert(shape_kept(n1, n2, 1, n1.len() as int));
        } else {
            assert(n1[0].data.tree_node.parents@ =~= n2[0].data.tree_node.parents@);
        }
    }
}

proof fn lemma_contains_push(s: Seq<Address>, v: Address)
    ensures
        forall|x: Address| #[trigger] s.push(v).contains(x) <==> (s.contains(x) || x == v),
{
    let r = s.push(v);
    assert forall|x: Address| #[trigger] r.contains(x) <==> (s.contains(x) || x == v) by {
        if r.contains(x) {
            let w = choose|w: int| 0 <= w < r.len() && r[w] == x;
            if w < s.len() {
                assert(s[w] == x);
            }
        }
        if s.contains(x) {
            let w = choose|w: int| 0 <= w < s.len() && s[w] == x;
            assert(r[w] == x);
        }
        if x == v {
            assert(r[s.len() as int] == x);
        }
    }
}

proof fn lemma_first_occurrences_exact(s: Seq<Address>)
    ensures
        first_occurrences(s).no_duplicates(),
        forall|x: Address| #[trigger] first_occurrences(s).contains(x) <==> s.contains(x),
    decreases s.len(),
{
    if s.len() > 0 {
        let prev = first_occurrences(s.drop_last());
        let l = s.last();
        lemma_first_occurrences_exact(s.drop_last());
        assert(s == s.drop_last().push(l));
        lemma_contains_push(s.drop_last(), l);
        if !prev.contains(l) {
            lemma_contains_push(prev, l);
            let r = prev.push(l);
            assert forall|i: int, j: int| 0 <= i < r.len() && 0 <= j < r.len() && i != j implies r[i]
                != r[j] by {
                if i < prev.len() && j < prev.len() {
                    assert(r[i] == prev[i] && r[j] == prev[j]);
                } else if i < prev.len() {
                    assert(r[i] == prev[i]);
                    assert(prev.contains(prev[i]));
                } else if j < prev.len() {
                    assert(r[j] == prev[j]);
                    assert(prev.contains(prev[j]));
                }
            }
        }
    }
}

impl Manager {
    /// Builds the subtree of depth `current_depth` whose first address is
    /// `start`, under the group of `parent_first`: a group of `group_size`
    /// consecutive addresses (a single contributor at depth 0) whose members
    /// know the parent group, which learns of it as a new child group; then
    /// `fanout` subtrees one level down, or, below a leaf-aggregator group,
    /// `counts[leaf]` contributors. Returns the next free address and the index
    /// of the next leaf-aggregator group's count.
    pub fn create_tree_node(
        &mut self,
        parent_first: Address,
        current_depth: u8,
        start: Address,
        counts: &Vec<usize>,
        leaf: usize,
    ) -> (r: (Address, usize))
        requires
            old(self).nodes@.len() == start,
            parent_first < start,
            members_known(old(self).nodes@),
            children_after(old(self).nodes@),
            addresses_match(old(self).nodes@),
            fresh_nodes(old(self).nodes@),
            pristine(old(self).nodes@, old(self).settings),
            old(self).settings.tree.group_size >= 1,
            leaf + leaf_groups(old(self).settings.tree.fanout as nat, current_depth as nat)
                <= counts@.len(),
            start + subtree_size(
                old(self).settings.tree.fanout as nat,
                old(self).settings.tree.group_size as nat,
                counts@,
                current_depth as nat,
                leaf as int,
            ) <= usize::MAX,
        ensures
            r.0 == start + subtree_size(
                old(self).settings.tree.fanout as nat,
                old(self).settings.tree.group_size as nat,
                counts@,
                current_depth as nat,
                leaf as int,
            ),
            r.1 == leaf + leaf_groups(old(self).settings.tree.fanout as nat, current_depth as nat),
            r.0 > start,
            final(self).nodes@.len() == r.0,
            members_known(final(self).nodes@),
            children_after(final(self).nodes@),
            addresses_match(final(self).nodes@),
            fresh_nodes(final(self).nodes@),
            pristine(final(self).nodes@, old(self).settings),
            same_run(*old(self), *final(self)),
            forall|a: int|
                start <= a < start + group_len(
                    old(self).settings.tree.group_size as nat,
                    current_depth as nat,
                ) ==> {
                    let n = #[trigger] final(self).nodes@[a];
                    &&& built_member(
                        n,
                        a,
                        current_depth as nat,
                        consecutive(
                            start as int,
                            group_len(old(self).settings.tree.group_size as nat, current_depth as nat),
                        ),
                        old(self).nodes@[parent_first as int].data.tree_node.members@,
                    )
                    &&& group_views(n.data.tree_node.children@) == child_groups(
                        old(self).settings.tree.fanout as nat,
                        old(self).settings.tree.group_size as nat,
                        counts@,
                        current_depth as nat,
                        leaf as int,
                        start + group_len(
                            old(self).settings.tree.group_size as nat,
                            current_depth as nat,
                        ),
                    )
                },
            subtree_laid(
                final(self).nodes@,
                old(self).settings.tree.fanout as nat,
                old(self).settings.tree.group_size as nat,
                counts@,
                current_depth as nat,
                leaf as int,
                start as int,
                old(self).nodes@[parent_first as int].data.tree_node.members@,
            ),
            forall|i: int|
                0 <= i < start ==> linked(
                    old(self).nodes@[i],
                    #[trigger] final(self).nodes@[i],
                    old(self).nodes@[parent_first as int].data.tree_node.members@,
                    i,
                    consecutive(
                        start as int,
                        group_len(old(self).settings.tree.group_size as nat, current_depth as nat),
                    ),
                ),
        decreases current_depth,
    {
        let ghost f = self.settings.tree.fanout as nat;
        let ghost gs = self.settings.tree.group_size as nat;
        let ghost d = current_depth as nat;
        let g = self.settings.tree.group_size as usize;
        let size = if current_depth > 0 {
            g
        } else {
            1
        };
        proof {
            if current_depth >= 2 {
                lemma_children_size_grows(f, gs, counts@, (current_depth - 1) as nat, leaf as int, 0, f);
            }
        }
        let group_end = start + size;
        let mut group: Vec<Address> = Vec::new();
        let mut i: usize = 0;
        while i < size
            invariant
                i <= size,
                group_end == start + size,
                group@.len() == i,
                forall|k: int| 0 <= k < i ==> #[trigger] group@[k] == start + k,
            decreases size - i,
        {
            group.push(start + i);
            i = i + 1;
        }
        assert(group@ =~= consecutive(start as int, size as int));
        let parents = copy_addresses(&self.nodes[parent_first].data.tree_node.members);
        let role = if current_depth > 1 {
            NodeRole::Aggregator
        } else if current_depth == 1 {
            NodeRole::LeafAggregator
        } else {
            NodeRole::Contributor
        };
        let ghost pre = *self;
        let mut k: usize = 0;
        while k < size
            invariant
                k <= size,
                group@.len() == size,
                group_end == start + size,
                group@ == consecutive(start as int, size as int),
                role == role_at_depth(d),
                d == current_depth,
                forall|x: int| 0 <= x < size ==> #[trigger] group@[x] == start + x,
                forall|x: int| 0 <= x < parents@.len() ==> #[trigger] parents@[x] < start,
                self.nodes@.len() == start + k,
                forall|a: int, b: int|
                    0 <= a < self.nodes@.len() && 0 <= b < self.nodes@[a].data.tree_node.members@.len()
                        ==> (#[trigger] self.nodes@[a].data.tree_node.members@[b]) < group_end,
                forall|a: int|
                    start <= a < start + k ==> built_member(#[trigger] self.nodes@[a], a, d, group@, parents@)
                        && self.nodes@[a].data.tree_node.children@.len() == 0,
                forall|x: int| 0 <= x < start ==> #[trigger] self.nodes@[x] == pre.nodes@[x],
                children_after(self.nodes@),
                addresses_match(self.nodes@),
                fresh_nodes(self.nodes@),
                pristine(self.nodes@, self.settings),
                same_run(pre, *self),
            decreases size - k,
        {
            let mut node = Node::new(self.settings.copy(), group[k], role);
            node.data.tree_node.depth = current_depth;
            node.data.tree_node.members = copy_addresses(&group);
            node.data.tree_node.parents = copy_addresses(&parents);
            self.nodes.push(node);
            k = k + 1;
        }
        let ghost created = self.nodes@;
        let uniq = distinct(&parents);
        proof {
            lemma_first_occurrences_within(parents@);
            lemma_first_occurrences_exact(parents@);
        }
        let mut u: usize = 0;
        while u < uniq.len()
            invariant
                u <= uniq@.len(),
                group_end == start + size,
                self.nodes@.len() == group_end,
                created.len() == group_end,
                uniq@ == first_occurrences(parents@),
                uniq@.no_duplicates(),
                forall|x: int| 0 <= x < uniq@.len() ==> parents@.contains(#[trigger] uniq@[x]),
                forall|x: int| 0 <= x < parents@.len() ==> #[trigger] parents@[x] < start,
                members_known(self.nodes@),
                forall|a: int| start <= a < group_end ==> #[trigger] self.nodes@[a] == created[a],
                forall|x: int|
                    0 <= x < start ==> linked(
                        pre.nodes@[x],
                        #[trigger] self.nodes@[x],
                        uniq@.subrange(0, u as int),
                        x,
                        group@,
                    ),
                children_after(self.nodes@),
                addresses_match(self.nodes@),
                fresh_nodes(self.nodes@),
                pristine(self.nodes@, self.settings),
                group@ == consecutive(start as int, size as int),
                size >= 1,
                same_run(pre, *self),
            decreases uniq@.len() - u,
        {
            let member = uniq[u];
            let ghost before = self.nodes@;
            let copy = copy_addresses(&group);
            self.nodes[member].data.tree_node.children.push(copy);
            proof {
                let done = uniq@.subrange(0, u as int);
                assert(uniq@.subrange(0, u + 1) == done.push(member));
                lemma_contains_push(done, member);
                assert(!done.contains(member)) by {
                    if done.contains(member) {
                        let w = choose|w: int| 0 <= w < done.len() && done[w] == member;
                        assert(uniq@[w] == uniq@[u as int]);
                    }
                }
                assert forall|x: int| 0 <= x < start implies linked(
                    pre.nodes@[x],
                    #[trigger] self.nodes@[x],
                    uniq@.subrange(0, u + 1),
                    x,
                    group@,
                ) by {
                    if x == member {
                        assert(group_views(before[x].data.tree_node.children@) =~= group_views(
                            pre.nodes@[x].data.tree_node.children@,
                        ));
                        assert(group_views(self.nodes@[x].data.tree_node.children@) =~= group_views(
                            pre.nodes@[x].data.tree_node.children@,
                        ) + seq![group@]);
                    } else {
                        assert(self.nodes@[x] == before[x]);
                        assert(uniq@.subrange(0, u + 1).contains(x as usize) == uniq@.subrange(
                            0,
                            u as int,
                        ).contains(x as usize));
                    }
                }
            }
            assert forall|a: int| 0 <= a < self.nodes@.len() implies #[trigger] self.nodes@[a].data.tree_node.members
                == before[a].data.tree_node.members by {}
            proof {
                assert(member < start);
                assert forall|a: int, i: int, k: int|
                    0 <= a < self.nodes@.len() && 0 <= i < self.nodes@[a].data.tree_node.children@.len()
                        && 0 <= k < self.nodes@[a].data.tree_node.children@[i]@.len() implies a < (
                    #[trigger] self.nodes@[a].data.tree_node.children@[i]@[k]) < self.nodes@.len() by {
                    if a == member && i == before[a].data.tree_node.children@.len() {
                        assert(self.nodes@[a].data.tree_node.children@[i]@ == group@);
                    } else {
                        assert(self.nodes@[a].data.tree_node.children@[i] == before[a].data.tree_node.children@[i]);
                    }
                }
            }
            u = u + 1;
        }
        proof {
            assert(uniq@.subrange(0, uniq@.len() as int) == uniq@);
        }
        let ghost after_link = self.nodes@;
        let mut next = group_end;
        let mut next_leaf = leaf;
        if current_depth > 1 {
            let ghost c = (current_depth - 1) as nat;
            let ghost span = leaf_groups(f, c);
            let fanout = self.settings.tree.fanout;
            let mut j: u8 = 0;
            while j < fanout
                invariant
                    j <= fanout,
                    fanout == f,
                    self.settings.tree.fanout == f,
                    self.settings.tree.group_size == gs,
                    gs >= 1,
                    size == gs,
                    start < group_end,
                    group_end == start + size,
                    c == current_depth - 1,
                    c >= 1,
                    span == leaf_groups(f, c),
                    leaf_groups(f, current_depth as nat) == f * span,
                    leaf + f * span <= counts@.len(),
                    self.nodes@.len() == next,
                    next >= group_end,
                    next == group_end + children_size(f, gs, counts@, c, leaf as int, j as nat),
                    group_end + children_size(f, gs, counts@, c, leaf as int, f) <= usize::MAX,
                    next_leaf == leaf + j * span,
                    members_known(self.nodes@),
                    children_after(self.nodes@),
                    addresses_match(self.nodes@),
                    fresh_nodes(self.nodes@),
                    pristine(self.nodes@, self.settings),
                pristine(self.nodes@, self.settings),
                    same_run(pre, *self),
                    group@ == consecutive(start as int, size as int),
                    forall|x: int|
                        0 <= x < start ==> same_but_children(after_link[x], #[trigger] self.nodes@[x])
                            && group_views(self.nodes@[x].data.tree_node.children@) == group_views(
                            after_link[x].data.tree_node.children@,
                        ),
                    forall|a: int|
                        start <= a < group_end ==> same_but_children(created[a], #[trigger] self.nodes@[a])
                            && group_views(self.nodes@[a].data.tree_node.children@)
                            == first_child_groups(f, gs, counts@, c, leaf as int, group_end as int, j as nat),
                    forall|a: int| start <= a < group_end ==> #[trigger] created[a].data.tree_node.members@ == group@,
                    children_laid(self.nodes@, f, gs, counts@, c, leaf as int, group_end as int, group@, j as int),
                decreases fanout - j,
            {
                proof {
                    lemma_children_size_grows(f, gs, counts@, c, leaf as int, (j + 1) as nat, f);
                    assert(j * span + span <= f * span) by (nonlinear_arith)
                        requires
                            j < f,
                    ;
                }
                let ghost before = self.nodes@;
                let (n2, l2) = self.create_tree_node(start, current_depth - 1, next, counts, next_leaf);
                proof {
                    assert(next_leaf + span == leaf + (j + 1) * span) by (nonlinear_arith)
                        requires
                            next_leaf == leaf + j * span,
                    ;
                    assert(before[start as int].data.tree_node.members@ == group@);
                    assert(group_len(gs, c) == gs);
                    assert forall|a: int| start <= a < group_end implies same_but_children(
                        created[a],
                        #[trigger] self.nodes@[a],
                    ) && group_views(self.nodes@[a].data.tree_node.children@) == first_child_groups(
                        f,
                        gs,
                        counts@,
                        c,
                        leaf as int,
                        group_end as int,
                        (j + 1) as nat,
                    ) by {
                        assert(group@.contains(a as usize)) by {
                            assert(group@[a - start] == a);
                        }
                        assert(first_child_groups(f, gs, counts@, c, leaf as int, group_end as int, (j + 1) as nat)
                            =~= first_child_groups(f, gs, counts@, c, leaf as int, group_end as int, j as nat).push(
                            consecutive(next as int, gs as int),
                        ));
                    }
                    assert forall|x: int| 0 <= x < start implies !#[trigger] group@.contains(x as usize) by {
                        if group@.contains(x as usize) {
                            let w = choose|w: int| 0 <= w < group@.len() && group@[w] == x as usize;
                            assert(group@[w] == start + w);
                        }
                    }
                    lemma_children_size_grows(f, gs, counts@, c, leaf as int, 0, j as nat);
                    assert forall|x: int| #![trigger before[x]] #![trigger self.nodes@[x]] group_end <= x < next implies same_shape(
                        before[x],
                        self.nodes@[x],
                    ) by {
                        if group@.contains(x as usize) {
                            let w = choose|w: int| 0 <= w < group@.len() && group@[w] == x as usize;
                            assert(group@[w] == start + w);
                        }
                        assert(linked(before[x], self.nodes@[x], group@, x, consecutive(next as int, gs as int)));
                    }
                    assert(shape_kept(before, self.nodes@, group_end as int, next as int));
                    lemma_children_laid_frame(
                        before,
                        self.nodes@,
                        f,
                        gs,
                        counts@,
                        c,
                        leaf as int,
                        group_end as int,
                        group@,
                        j as int,
                    );
                }
                next = n2;
                next_leaf = l2;
                j = j + 1;
            }
            proof {
                assert(first_child_groups(f, gs, counts@, c, leaf as int, group_end as int, f) =~= child_groups(
                    f,
                    gs,
                    counts@,
                    d,
                    leaf as int,
                    group_end as int,
                ));
                assert(children_laid(
                    self.nodes@,
                    f,
                    gs,
                    counts@,
                    (d - 1) as nat,
                    leaf as int,
                    start + group_len(gs, d),
                    consecutive(start as int, group_len(gs, d)),
                    child_count(f, counts@, d, leaf as int),
                ));
            }
        } else if current_depth == 1 {
            assert(leaf_groups(f, 1) == 1);
            let available = counts.len();
            let n_contrib = counts[leaf];
            let mut c: usize = 0;
            while c < n_contrib
                invariant
                    c <= n_contrib,
                    current_depth == 1,
                    self.settings.tree.fanout == f,
                    n_contrib == counts@[leaf as int],
                    start < group_end,
                    self.settings.tree.group_size == gs,
                    gs >= 1,
                    size == gs,
                    group_end == start + gs,
                    group_end + n_contrib <= usize::MAX,
                    leaf < available,
                    available == counts@.len(),
                    self.nodes@.len() == next,
                    next == group_end + c,
                    members_known(self.nodes@),
                    children_after(self.nodes@),
                    addresses_match(self.nodes@),
                    fresh_nodes(self.nodes@),
                    pristine(self.nodes@, self.settings),
                pristine(self.nodes@, self.settings),
                    same_run(pre, *self),
                    group@ == consecutive(start as int, size as int),
                    forall|x: int|
                        0 <= x < start ==> same_but_children(after_link[x], #[trigger] self.nodes@[x])
                            && group_views(self.nodes@[x].data.tree_node.children@) == group_views(
                            after_link[x].data.tree_node.children@,
                        ),
                    forall|a: int|
                        start <= a < group_end ==> same_but_children(created[a], #[trigger] self.nodes@[a])
                            && group_views(self.nodes@[a].data.tree_node.children@) == Seq::new(
                            c as nat,
                            |y: int| seq![(group_end + y) as usize],
                        ),
                    forall|a: int| start <= a < group_end ==> #[trigger] created[a].data.tree_node.members@ == group@,
                    children_laid(self.nodes@, f, gs, counts@, 0, leaf as int, group_end as int, group@, c as int),
                decreases n_contrib - c,
            {
                let ghost before = self.nodes@;
                let (n2, _) = self.create_tree_node(start, 0, next, counts, leaf);
                proof {
                    assert(before[start as int].data.tree_node.members@ == group@);
                    assert(consecutive(next as int, group_len(gs, 0)) =~= seq![next]);
                    assert forall|a: int| start <= a < group_end implies same_but_children(
                        created[a],
                        #[trigger] self.nodes@[a],
                    ) && group_views(self.nodes@[a].data.tree_node.children@) == Seq::new(
                        (c + 1) as nat,
                        |y: int| seq![(group_end + y) as usize],
                    ) by {
                        assert(group@.contains(a as usize)) by {
                            assert(group@[a - start] == a);
                        }
                        assert(Seq::new((c + 1) as nat, |y: int| seq![(group_end + y) as usize]) =~= Seq::new(
                            c as nat,
                            |y: int| seq![(group_end + y) as usize],
                        ).push(seq![next]));
                    }
                    assert forall|x: int| 0 <= x < start implies !#[trigger] group@.contains(x as usize) by {
                        if group@.contains(x as usize) {
                            let w = choose|w: int| 0 <= w < group@.len() && group@[w] == x as usize;
                            assert(group@[w] == start + w);
                        }
                    }
                    lemma_contributors_size(f, gs, counts@, leaf as int, c as nat);
                    lemma_contributors_size(f, gs, counts@, leaf as int, (c + 1) as nat);
                    assert forall|x: int| #![trigger before[x]] #![trigger self.nodes@[x]] group_end <= x < next implies same_shape(
                        before[x],
                        self.nodes@[x],
                    ) by {
                        if group@.contains(x as usize) {
                            let w = choose|w: int| 0 <= w < group@.len() && group@[w] == x as usize;
                            assert(group@[w] == start + w);
                        }
                        assert(linked(before[x], self.nodes@[x], group@, x, consecutive(next as int, 1)));
                    }
                    assert(shape_kept(before, self.nodes@, group_end as int, next as int));
                    lemma_children_laid_frame(
                        before,
                        self.nodes@,
                        f,
                        gs,
                        counts@,
                        0,
                        leaf as int,
                        group_end as int,
                        group@,
                        c as int,
                    );
                    assert(leaf + c * leaf_groups(f, 0) == leaf);
                }
                next = n2;
                c = c + 1;
            }
            next_leaf = leaf + 1;
            assert(children_laid(
                self.nodes@,
                f,
                gs,
                counts@,
                0,
                leaf as int,
                start + group_len(gs, d),
                consecutive(start as int, group_len(gs, d)),
                child_count(f, counts@, d, leaf as int),
            ));
        }
        proof {
            assert(parents@ == pre.nodes@[parent_first as int].data.tree_node.members@);
            assert(group@ == consecutive(start as int, group_len(gs, d)));
            assert forall|a: int| start <= a < start + group_len(gs, d) implies {
                &&& 0 <= a < self.nodes@.len()
                &&& built_member(
                    #[trigger] self.nodes@[a],
                    a,
                    d,
                    consecutive(start as int, group_len(gs, d)),
                    parents@,
                )
                &&& group_views(self.nodes@[a].data.tree_node.children@) == child_groups(
                    f,
                    gs,
                    counts@,
                    d,
                    leaf as int,
                    start + group_len(gs, d),
                )
            } by {
                assert(built_member(created[a], a, d, group@, parents@));
                if d == 0 {
                    assert(group_views(self.nodes@[a].data.tree_node.children@) =~= Seq::<Seq<Address>>::empty());
                }
            }
        }
        (next, next_leaf)
    }
}

proof fn lemma_pow_grows(f: nat, n: nat, m: nat)
    requires
        f >= 1,
        n <= m,
    ensures
        pow(f, n) <= pow(f, m),
    decreases m,
{
    if n < m {
        lemma_pow_grows(f, n, (m - 1) as nat);
        assert(pow(f, (m - 1) as nat) <= f * pow(f, (m - 1) as nat)) by (nonlinear_arith)
            requires
                f >= 1,
        ;
    }
}

/// Number of leaf-aggregator groups in a tree of depth `depth` and fanout
/// `fanout`, or `None` when it does not fit a `usize`.
pub fn leaf_group_count(fanout: u8, depth: u8) -> (r: Option<usize>)
    ensures
        r matches Some(n) ==> n == leaf_groups(fanout as nat, depth as nat),
        r is None ==> leaf_groups(fanout as nat, depth as nat) > usize::MAX,
{
    if depth == 0 {
        return Some(0);
    }
    let mut p: usize = 1;
    let mut k: u8 = 1;
    while k < depth
        invariant
            1 <= k <= depth,
            p == pow(fanout as nat, (k - 1) as nat),
        decreases depth - k,
    {
        assert(pow(fanout as nat, k as nat) == fanout * pow(fanout as nat, (k - 1) as nat));
        match p.checked_mul(fanout as usize) {
            Some(x) => {
                assert(x == fanout * p) by (nonlinear_arith)
                    requires
                        x == p * fanout,
                ;
                p = x;
            },
            None => {
                proof {
                    assert(fanout >= 1) by (nonlinear_arith)
                        requires
                            p * fanout > usize::MAX,
                    ;
                    assert(fanout * p > usize::MAX) by (nonlinear_arith)
                        requires
                            p * fanout > usize::MAX,
                    ;
                    lemma_pow_grows(fanout as nat, k as nat, (depth - 1) as nat);
                }
                return None;
            },
        }
        k = k + 1;
    }
    Some(p)
}

/// Number of nodes of the subtree built at depth `d` from leaf-aggregator
/// index `leaf`, with the index that follows its last leaf-aggregator group;
/// `None` when `counts` is too short or the number does not fit a `usize`.
fn subtree_count(fanout: u8, group_size: u8, counts: &Vec<usize>, d: u8, leaf: usize) -> (r: Option<
    (usize, usize),
>)
    requires
        leaf <= counts@.len(),
    ensures
        r matches Some((n, l)) ==> leaf + leaf_groups(fanout as nat, d as nat) <= counts@.len() && n
            == subtree_size(fanout as nat, group_size as nat, counts@, d as nat, leaf as int) && l
            == leaf + leaf_groups(fanout as nat, d as nat),
        r is None ==> leaf + leaf_groups(fanout as nat, d as nat) > counts@.len() || subtree_size(
            fanout as nat,
            group_size as nat,
            counts@,
            d as nat,
            leaf as int,
        ) > usize::MAX,
    decreases d,
{
    let ghost f = fanout as nat;
    let ghost g = group_size as nat;
    if d == 0 {
        return Some((1, leaf));
    }
    if d == 1 {
        assert(leaf_groups(f, 1) == 1);
        if leaf >= counts.len() {
            return None;
        }
        return match (group_size as usize).checked_add(counts[leaf]) {
            Some(n) => Some((n, leaf + 1)),
            None => None,
        };
    }
    let ghost c = (d - 1) as nat;
    let ghost span = leaf_groups(f, c);
    assert(leaf_groups(f, d as nat) == f * span);
    let mut acc: usize = group_size as usize;
    let mut next: usize = leaf;
    let mut j: u8 = 0;
    while j < fanout
        invariant
            j <= fanout,
            fanout == f,
            group_size == g,
            c == d - 1,
            c >= 1,
            span == leaf_groups(f, c),
            leaf_groups(f, d as nat) == f * span,
            acc == g + children_size(f, g, counts@, c, leaf as int, j as nat),
            next == leaf + j * span,
            next <= counts@.len(),
        decreases fanout - j,
    {
        proof {
            lemma_children_size_grows(f, g, counts@, c, leaf as int, (j + 1) as nat, f);
            lemma_children_size_grows(f, g, counts@, c, leaf as int, 0, j as nat);
            assert(j * span + span <= f * span) by (nonlinear_arith)
                requires
                    j < f,
            ;
            assert(next + span == leaf + (j + 1) * span) by (nonlinear_arith)
                requires
                    next == leaf + j * span,
            ;
        }
        match subtree_count(fanout, group_size, counts, d - 1, next) {
            None => {
                return None;
            },
            Some((size, after)) => match acc.checked_add(size) {
                Some(x) => {
                    acc = x;
                    next = after;
                },
                None => {
                    return None;
                },
            },
        }
        j = j + 1;
    }
    Some((acc, next))
}

/// Number of nodes that `setup` builds for this tree shape and these
/// contributor counts (one per leaf-aggregator group, in order); `None` when
/// there are fewer counts than leaf-aggregator groups or when the number does
/// not fit a `usize`.
pub fn node_count(tree: TreeSettings, counts: &Vec<usize>) -> (r: Option<usize>)
    ensures
        r matches Some(n) ==> counts@.len() >= leaf_groups(tree.fanout as nat, tree.depth as nat)
            && n == tree_size(tree, counts@),
        r is None ==> counts@.len() < leaf_groups(tree.fanout as nat, tree.depth as nat) || tree_size(
            tree,
            counts@,
        ) > usize::MAX,
{
    match subtree_count(tree.fanout, tree.group_size, counts, tree.depth, 0) {
        Some((n, _)) => n.checked_add(1),
        None => None,
    }
}

} // verus!
