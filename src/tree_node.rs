use vstd::prelude::*;

use crate::common::Address;

verus! {

/// A node's view of the topology.
#[derive(Debug)]
pub struct TreeNode {
    pub address: Address,
    /// Distance from the leaves: 0 for a contributor, 1 for a leaf aggregator.
    pub depth: u8,
    /// The node's group, leader first.
    pub members: Vec<Address>,
    /// The parent group's members, used position-wise.
    pub parents: Vec<Address>,
    /// The child groups, in order.
    pub children: Vec<Vec<Address>>,
}

impl TreeNode {
    /// A node that is not yet linked to any other.
    pub fn new(address: Address) -> (r: TreeNode)
        ensures
            r.address == address,
            r.depth == 0,
            r.members@.len() == 0,
            r.parents@.len() == 0,
            r.children@.len() == 0,
    {
        TreeNode { address, depth: 0, members: Vec::new(), parents: Vec::new(), children: Vec::new() }
    }
}

/// Index of the first occurrence of `a` in `s`.
pub open spec fn position_in(s: Seq<Address>, a: Address) -> Option<int>
    decreases s.len(),
{
    if s.len() == 0 {
        None
    } else {
        match position_in(s.drop_last(), a) {
            Some(i) => Some(i),
            None => if s.last() == a {
                Some(s.len() - 1)
            } else {
                None
            },
        }
    }
}

/// A position found lies within the sequence and holds the element.
pub proof fn lemma_position_in_range(s: Seq<Address>, a: Address)
    ensures
        position_in(s, a) matches Some(i) ==> 0 <= i < s.len() && s[i] == a,
    decreases s.len(),
{
    if s.len() > 0 {
        lemma_position_in_range(s.drop_last(), a);
        if position_in(s.drop_last(), a) is Some {
            let i = position_in(s.drop_last(), a)->Some_0;
            assert(s[i] == s.drop_last()[i]);
        }
    }
}

proof fn lemma_position_extends(s: Seq<Address>, n: int, a: Address)
    requires
        0 <= n <= s.len(),
        position_in(s.subrange(0, n), a) is Some,
    ensures
        position_in(s, a) == position_in(s.subrange(0, n), a),
    decreases s.len() - n,
{
    if n < s.len() {
        assert(s.subrange(0, n + 1).drop_last() == s.subrange(0, n));
        lemma_position_extends(s, n + 1, a);
    } else {
        assert(s.subrange(0, n) == s);
    }
}

/// Index of the first occurrence of `a` in `v`.
pub fn position_of(v: &Vec<Address>, a: Address) -> (r: Option<usize>)
    ensures
        r matches Some(i) ==> position_in(v@, a) == Some(i as int) && i < v@.len() && v@[i as int]
            == a,
        r is None ==> position_in(v@, a) is None,
{
    let mut i: usize = 0;
    while i < v.len()
        invariant
            i <= v@.len(),
            position_in(v@.subrange(0, i as int), a) is None,
        decreases v@.len() - i,
    {
        assert(v@.subrange(0, i + 1).drop_last() == v@.subrange(0, i as int));
        if v[i] == a {
            proof {
                lemma_position_extends(v@, i + 1, a);
            }
            return Some(i);
        }
        i = i + 1;
    }
    assert(v@.subrange(0, v@.len() as int) == v@);
    None
}

} // verus!
