use std::collections::hash_map::DefaultHasher;
use std::hash::Hasher;
use vstd::prelude::*;
use vstd::std_specs::hash::DefaultHasherAdditionalSpecFns;
use vstd::relations::{sorted_by, total_ordering};
use vstd::utf8::encode_utf8;

use crate::common::Address;

verus! {

/// One additive piece of a secret, or the fold of several such pieces.
#[derive(Debug)]
pub struct Share {
    /// The value carried.
    pub share: i64,
    /// How many contributor shares were folded into this one.
    pub count: usize,
    /// Identifier of the constituents: the sender's address, or a hash of the
    /// constituents' identifiers.
    pub id: String,
}

/// The character of a decimal digit.
pub open spec fn digit_char(d: nat) -> char {
    ((d + 48) as u8) as char
}

/// Decimal notation of a natural number, without leading zeros.
pub open spec fn decimal(n: nat) -> Seq<char>
    decreases n,
{
    if n < 10 {
        seq![digit_char(n)]
    } else {
        decimal(n / 10).push(digit_char(n % 10))
    }
}

/// Relies on the standard `Display` of `u64` (through `to_string`): its decimal
/// notation, with no sign and no leading zero.
#[verifier::external_body]
fn decimal_string(n: u64) -> (r: String)
    ensures
        r@ == decimal(n as nat),
{
    n.to_string()
}

/// Sum of the values of a sequence of shares.
pub open spec fn value_sum(s: Seq<Share>) -> int
    decreases s.len(),
{
    if s.len() == 0 {
        0
    } else {
        value_sum(s.drop_last()) + s.last().share
    }
}

/// Sum of the counts of a sequence of shares.
pub open spec fn count_sum(s: Seq<Share>) -> int
    decreases s.len(),
{
    if s.len() == 0 {
        0
    } else {
        count_sum(s.drop_last()) + s.last().count
    }
}

/// Whether key `a` comes no later than key `b`: shorter keys first, and keys
/// of one length in byte order. For decimal identifiers this is numeric order.
pub open spec fn key_leq(a: Seq<u8>, b: Seq<u8>) -> bool
    decreases a.len(),
{
    if a.len() != b.len() {
        a.len() < b.len()
    } else if a.len() == 0 {
        true
    } else if a[0] != b[0] {
        a[0] < b[0]
    } else {
        key_leq(a.drop_first(), b.drop_first())
    }
}

/// The key order as a relation.
pub open spec fn key_order() -> spec_fn(Seq<u8>, Seq<u8>) -> bool {
    |a: Seq<u8>, b: Seq<u8>| key_leq(a, b)
}

/// The sorting key of a share: the UTF-8 bytes of its identifier.
pub open spec fn id_key(s: Share) -> Seq<u8> {
    encode_utf8(s.id@)
}

/// The keys of a sequence of shares, in order.
pub open spec fn id_keys(s: Seq<Share>) -> Seq<Seq<u8>> {
    s.map_values(|x: Share| id_key(x))
}

/// The keys of a sequence of shares, sorted in key order.
pub open spec fn sorted_keys(s: Seq<Share>) -> Seq<Seq<u8>> {
    id_keys(s).sort_by(key_order())
}

/// What the identifier hash is fed: for each key in order, its bytes followed
/// by the terminator byte `0xff` (how a string hashes).
pub open spec fn key_writes(k: Seq<Seq<u8>>) -> Seq<Seq<u8>>
    decreases k.len(),
{
    if k.len() == 0 {
        Seq::empty()
    } else {
        key_writes(k.drop_last()).push(k.last()).push(seq![0xffu8])
    }
}

/// Identifier of the fold of a sequence of shares: the decimal notation of the
/// standard hasher's digest of the constituents' identifiers, taken in
/// ascending numeric order, so that it does not depend on their positions.
pub open spec fn aggregate_id(s: Seq<Share>) -> Seq<char> {
    decimal(DefaultHasher::spec_finish(key_writes(sorted_keys(s))) as nat)
}

/// Whether the sums of a sequence of shares fit the share's fields.
pub open spec fn sums_fit(s: Seq<Share>) -> bool {
    i64::MIN <= value_sum(s) <= i64::MAX && count_sum(s) <= usize::MAX
}

proof fn lemma_sum_bounds(s: Seq<Share>)
    ensures
        -(s.len() * 0x8000_0000_0000_0000) <= value_sum(s) <= s.len() * 0x8000_0000_0000_0000,
        0 <= count_sum(s) <= s.len() * 0x1_0000_0000_0000_0000,
    decreases s.len(),
{
    if s.len() > 0 {
        lemma_sum_bounds(s.drop_last());
    }
}

impl Share {
    /// A contributor's share, identified by its sender.
    pub fn new(value: i64, sender: Address) -> (r: Share)
        ensures
            r.share == value,
            r.count == 1,
            r.id@ == decimal(sender as nat),
    {
        Share { share: value, count: 1, id: decimal_string(sender as u64) }
    }

    /// A copy of this share.
    pub fn copy(&self) -> (r: Share)
        ensures
            r == *self,
    {
        Share { share: self.share, count: self.count, id: self.id.clone() }
    }
}

/// Exact sums of the values and counts of some shares.
fn exact_sums(shares: &Vec<Share>) -> (r: (i128, u128))
    ensures
        r.0 == value_sum(shares@),
        r.1 == count_sum(shares@),
{
    let mut values: i128 = 0;
    let mut counts: u128 = 0;
    let mut i: usize = 0;
    while i < shares.len()
        invariant
            i <= shares.len(),
            values == value_sum(shares@.subrange(0, i as int)),
            counts == count_sum(shares@.subrange(0, i as int)),
        decreases shares.len() - i,
    {
        proof {
            let pre = shares@.subrange(0, i as int);
            let next = shares@.subrange(0, i + 1);
            assert(next.drop_last() == pre);
            lemma_sum_bounds(pre);
            assert(i * 0x8000_0000_0000_0000 <= 0xffff_ffff_ffff_ffff * 0x8000_0000_0000_0000)
                by (nonlinear_arith)
                requires
                    i as int <= 0xffff_ffff_ffff_ffff,
            ;
            assert(i * 0x1_0000_0000_0000_0000 <= 0xffff_ffff_ffff_ffff * 0x1_0000_0000_0000_0000)
                by (nonlinear_arith)
                requires
                    i as int <= 0xffff_ffff_ffff_ffff,
            ;
        }
        values = values + shares[i].share as i128;
        counts = counts + shares[i].count as u128;
        i = i + 1;
    }
    assert(shares@.subrange(0, shares.len() as int) == shares@);
    (values, counts)
}

proof fn lemma_key_leq_reflexive(a: Seq<u8>)
    ensures
        key_leq(a, a),
    decreases a.len(),
{
    if a.len() > 0 {
        lemma_key_leq_reflexive(a.drop_first());
    }
}

proof fn lemma_key_leq_antisymmetric(a: Seq<u8>, b: Seq<u8>)
    requires
        key_leq(a, b),
        key_leq(b, a),
    ensures
        a == b,
    decreases a.len(),
{
    if a.len() > 0 && a[0] == b[0] {
        lemma_key_leq_antisymmetric(a.drop_first(), b.drop_first());
        assert(a =~= seq![a[0]] + a.drop_first());
        assert(b =~= seq![b[0]] + b.drop_first());
    } else if a.len() == 0 {
        assert(a =~= b);
    }
}

proof fn lemma_key_leq_transitive(a: Seq<u8>, b: Seq<u8>, c: Seq<u8>)
    requires
        key_leq(a, b),
        key_leq(b, c),
    ensures
        key_leq(a, c),
    decreases a.len(),
{
    if a.len() == b.len() && b.len() == c.len() && a.len() > 0 && a[0] == b[0] && b[0] == c[0] {
        lemma_key_leq_transitive(a.drop_first(), b.drop_first(), c.drop_first());
    }
}

proof fn lemma_key_leq_total(a: Seq<u8>, b: Seq<u8>)
    ensures
        key_leq(a, b) || key_leq(b, a),
    decreases a.len(),
{
    if a.len() == b.len() && a.len() > 0 && a[0] == b[0] {
        lemma_key_leq_total(a.drop_first(), b.drop_first());
    }
}

/// The key order is a total order.
pub proof fn lemma_key_order_total()
    ensures
        total_ordering(key_order()),
{
    let r = key_order();
    assert forall|x: Seq<u8>| #[trigger] r(x, x) by {
        lemma_key_leq_reflexive(x);
    }
    assert forall|x: Seq<u8>, y: Seq<u8>| #[trigger] r(x, y) && #[trigger] r(y, x) implies x == y by {
        lemma_key_leq_antisymmetric(x, y);
    }
    assert forall|x: Seq<u8>, y: Seq<u8>, z: Seq<u8>| #[trigger] r(x, y) && #[trigger] r(y, z) implies r(
        x,
        z,
    ) by {
        lemma_key_leq_transitive(x, y, z);
    }
    assert forall|x: Seq<u8>, y: Seq<u8>| #[trigger] r(x, y) || #[trigger] r(y, x) by {
        lemma_key_leq_total(x, y);
    }
}

/// The byte view of each key.
pub open spec fn key_views(v: Seq<Vec<u8>>) -> Seq<Seq<u8>> {
    v.map_values(|x: Vec<u8>| x@)
}

/// The key of an identifier.
fn key_of(id: &String) -> (r: Vec<u8>)
    ensures
        r@ == encode_utf8(id@),
{
    let bytes = id.as_str().as_bytes();
    let mut r: Vec<u8> = Vec::new();
    let mut i: usize = 0;
    while i < bytes.len()
        invariant
            i <= bytes@.len(),
            r@ == bytes@.subrange(0, i as int),
        decreases bytes@.len() - i,
    {
        r.push(bytes[i]);
        assert(r@ =~= bytes@.subrange(0, i + 1));
        i = i + 1;
    }
    assert(bytes@.subrange(0, i as int) == bytes@);
    r
}

/// Whether key `a` comes no later than key `b`.
fn key_le(a: &Vec<u8>, b: &Vec<u8>) -> (r: bool)
    ensures
        r == key_leq(a@, b@),
{
    if a.len() != b.len() {
        return a.len() < b.len();
    }
    let n = a.len();
    assert(a@.subrange(0, n as int) =~= a@);
    assert(b@.subrange(0, n as int) =~= b@);
    let mut i: usize = 0;
    while i < n
        invariant
            i <= n,
            n == a@.len(),
            n == b@.len(),
            key_leq(a@, b@) == key_leq(a@.subrange(i as int, n as int), b@.subrange(i as int, n as int)),
        decreases n - i,
    {
        let ghost x = a@.subrange(i as int, n as int);
        let ghost y = b@.subrange(i as int, n as int);
        assert(x.drop_first() == a@.subrange(i + 1, n as int));
        assert(y.drop_first() == b@.subrange(i + 1, n as int));
        if a[i] != b[i] {
            return a[i] < b[i];
        }
        i = i + 1;
    }
    true
}

/// The keys of some shares, sorted in key order.
fn sorted_id_keys(shares: &Vec<Share>) -> (r: Vec<Vec<u8>>)
    ensures
        key_views(r@) == sorted_keys(shares@),
{
    broadcast use vstd::seq_lib::group_to_multiset_ensures;

    proof {
        lemma_key_order_total();
    }
    let mut sorted: Vec<Vec<u8>> = Vec::new();
    let mut i: usize = 0;
    while i < shares.len()
        invariant
            i <= shares@.len(),
            total_ordering(key_order()),
            sorted_by(key_views(sorted@), key_order()),
            key_views(sorted@).to_multiset() == id_keys(shares@.subrange(0, i as int)).to_multiset(),
        decreases shares@.len() - i,
    {
        let key = key_of(&shares[i].id);
        let mut p: usize = 0;
        while p < sorted.len() && key_le(&sorted[p], &key)
            invariant
                p <= sorted@.len(),
                forall|j: int| 0 <= j < p ==> key_leq(#[trigger] sorted@[j]@, key@),
            decreases sorted@.len() - p,
        {
            p = p + 1;
        }
        let ghost before = key_views(sorted@);
        sorted.insert(p, key);
        proof {
            let after = key_views(sorted@);
            assert(after =~= before.insert(p as int, key@));
            if p < before.len() {
                lemma_key_leq_total(before[p as int], key@);
            }
            assert forall|x: int, y: int| 0 <= x < y < after.len() implies #[trigger] key_order()(
                after[x],
                after[y],
            ) by {
                if y == p {
                    assert(after[x] == before[x]);
                } else if x == p {
                    assert(after[y] == before[y - 1]);
                    if y - 1 > p {
                        assert(key_order()(before[p as int], before[y - 1]));
                        lemma_key_leq_transitive(key@, before[p as int], before[y - 1]);
                    }
                } else if x < p && y > p {
                    assert(after[x] == before[x] && after[y] == before[y - 1]);
                    assert(key_order()(before[x], before[y - 1]));
                } else if y < p {
                    assert(after[x] == before[x] && after[y] == before[y]);
                    assert(key_order()(before[x], before[y]));
                } else {
                    assert(after[x] == before[x - 1] && after[y] == before[y - 1]);
                    assert(key_order()(before[x - 1], before[y - 1]));
                }
            }
            vstd::seq_lib::to_multiset_insert(before, p as int, key@);
            let pre = shares@.subrange(0, i as int);
            let nxt = shares@.subrange(0, i + 1);
            assert(id_keys(nxt) =~= id_keys(pre).push(id_key(shares@[i as int])));
            assert(key@ == id_key(shares@[i as int]));
            assert(after.to_multiset() == before.to_multiset().insert(key@));
            vstd::seq_lib::to_multiset_build(id_keys(pre), key@);
            assert(id_keys(pre).push(key@).to_multiset() =~= id_keys(pre).to_multiset().insert(key@));
        }
        i = i + 1;
    }
    proof {
        assert(shares@.subrange(0, shares@.len() as int) == shares@);
        id_keys(shares@).lemma_sort_by_ensures(key_order());
        vstd::seq_lib::lemma_sorted_unique(key_views(sorted@), sorted_keys(shares@), key_order());
    }
    sorted
}

/// The identifier of the fold of some shares.
fn aggregate_id_string(shares: &Vec<Share>) -> (r: String)
    ensures
        r@ == aggregate_id(shares@),
{
    let keys = sorted_id_keys(shares);
    let mut hasher = DefaultHasher::new();
    let terminator: Vec<u8> = vec![0xffu8];
    let mut i: usize = 0;
    while i < keys.len()
        invariant
            i <= keys@.len(),
            terminator@ == seq![0xffu8],
            hasher@ == key_writes(key_views(keys@).subrange(0, i as int)),
        decreases keys@.len() - i,
    {
        let ghost next = key_views(keys@).subrange(0, i + 1);
        assert(next.drop_last() == key_views(keys@).subrange(0, i as int));
        assert(next.last() == keys@[i as int]@);
        hasher.write(keys[i].as_slice());
        hasher.write(terminator.as_slice());
        i = i + 1;
    }
    assert(key_views(keys@).subrange(0, keys@.len() as int) == key_views(keys@));
    decimal_string(hasher.finish())
}

/// Collections of shares that fold into one share.
pub trait AggregatableShares {
    /// The shares, in order.
    spec fn parts(&self) -> Seq<Share>;

    /// The position-wise fold: values and counts are summed, and the identifier
    /// is a hash of the constituents' identifiers.
    fn aggregate(&self) -> (r: Share)
        requires
            sums_fit(self.parts()),
        ensures
            r.share == value_sum(self.parts()),
            r.count == count_sum(self.parts()),
            r.id@ == aggregate_id(self.parts()),
    ;

    /// The fold, or `None` when its value or count does not fit.
    fn try_aggregate(&self) -> (r: Option<Share>)
        ensures
            sums_fit(self.parts()) <==> r is Some,
            r matches Some(s) ==> s.share == value_sum(self.parts()) && s.count == count_sum(
                self.parts(),
            ) && s.id@ == aggregate_id(self.parts()),
    ;
}

impl AggregatableShares for Vec<Share> {
    open spec fn parts(&self) -> Seq<Share> {
        self@
    }

    fn aggregate(&self) -> (r: Share) {
        let (values, counts) = exact_sums(self);
        Share { share: values as i64, count: counts as usize, id: aggregate_id_string(self) }
    }

    fn try_aggregate(&self) -> (r: Option<Share>) {
        let (values, counts) = exact_sums(self);
        if values < i64::MIN as i128 || values > i64::MAX as i128 || counts > usize::MAX as u128 {
            None
        } else {
            Some(Share { share: values as i64, count: counts as usize, id: aggregate_id_string(self) })
        }
    }
}

proof fn lemma_sums_concat(a: Seq<Share>, b: Seq<Share>)
    ensures
        value_sum(a + b) == value_sum(a) + value_sum(b),
        count_sum(a + b) == count_sum(a) + count_sum(b),
    decreases b.len(),
{
    if b.len() == 0 {
        assert(a + b == a);
    } else {
        assert((a + b).drop_last() == a + b.drop_last());
        lemma_sums_concat(a, b.drop_last());
    }
}

/// Folding is associative in value and count: folding the folds of `a` and of
/// `b` gives the same value and count as folding `a` and `b` together.
pub proof fn lemma_aggregate_regroups(a: Seq<Share>, b: Seq<Share>, fa: Share, fb: Share)
    requires
        fa.share == value_sum(a),
        fa.count == count_sum(a),
        fb.share == value_sum(b),
        fb.count == count_sum(b),
    ensures
        value_sum(seq![fa, fb]) == value_sum(a + b),
        count_sum(seq![fa, fb]) == count_sum(a + b),
{
    lemma_sums_concat(a, b);
    let s = seq![fa, fb];
    let one = seq![fa];
    assert(s.drop_last() =~= one);
    assert(s.last() == fb);
    assert(one.drop_last() =~= Seq::<Share>::empty());
    assert(one.last() == fa);
    assert(value_sum(Seq::<Share>::empty()) == 0);
    assert(count_sum(Seq::<Share>::empty()) == 0);
    assert(value_sum(s.drop_last()) == fa.share);
    assert(count_sum(s.drop_last()) == fa.count);
}

proof fn lemma_sums_single(x: Share)
    ensures
        value_sum(seq![x]) == x.share,
        count_sum(seq![x]) == x.count,
{
    let one = seq![x];
    assert(one.drop_last() =~= Seq::<Share>::empty());
    assert(one.last() == x);
    assert(value_sum(Seq::<Share>::empty()) == 0);
    assert(count_sum(Seq::<Share>::empty()) == 0);
    assert(value_sum(one) == value_sum(one.drop_last()) + one.last().share);
    assert(count_sum(one) == count_sum(one.drop_last()) + one.last().count);
}

proof fn lemma_sums_remove(s: Seq<Share>, k: int)
    requires
        0 <= k < s.len(),
    ensures
        value_sum(s) == value_sum(s.remove(k)) + s[k].share,
        count_sum(s) == count_sum(s.remove(k)) + s[k].count,
{
    let front = s.subrange(0, k);
    let back = s.subrange(k + 1, s.len() as int);
    assert(s =~= front + (seq![s[k]] + back));
    assert(s.remove(k) =~= front + back);
    lemma_sums_concat(front, seq![s[k]] + back);
    lemma_sums_concat(seq![s[k]], back);
    lemma_sums_concat(front, back);
    lemma_sums_single(s[k]);
}

proof fn lemma_keys_permutation(a: Seq<Share>, b: Seq<Share>)
    requires
        a.to_multiset() == b.to_multiset(),
    ensures
        id_keys(a).to_multiset() == id_keys(b).to_multiset(),
    decreases a.len(),
{
    broadcast use vstd::seq_lib::group_to_multiset_ensures;
    broadcast use vstd::multiset::group_multiset_axioms;

    if a.len() == 0 {
        assert(b.to_multiset().len() == 0);
        assert(b =~= Seq::<Share>::empty());
        assert(id_keys(a) =~= id_keys(b));
    } else {
        let x = a.last();
        let rest = a.drop_last();
        assert(a =~= rest.push(x));
        assert(a.to_multiset() =~= rest.to_multiset().insert(x));
        assert(b.to_multiset().count(x) > 0);
        assert(b.contains(x));
        let k = choose|k: int| 0 <= k < b.len() && b[k] == x;
        assert(b.remove(k).to_multiset() =~= b.to_multiset().remove(x));
        assert(rest.to_multiset() =~= a.to_multiset().remove(x));
        lemma_keys_permutation(rest, b.remove(k));
        let kb = id_keys(b);
        assert(id_keys(a) =~= id_keys(rest).push(id_key(x)));
        assert(id_keys(b.remove(k)) =~= kb.remove(k));
        assert(kb[k] == id_key(x));
        assert(kb.remove(k).to_multiset() =~= kb.to_multiset().remove(id_key(x)));
        assert(kb.to_multiset().count(id_key(x)) > 0) by {
            assert(kb.contains(id_key(x)));
        }
        assert(kb.to_multiset() =~= kb.to_multiset().remove(id_key(x)).insert(id_key(x)));
        assert(id_keys(a).to_multiset() =~= id_keys(rest).to_multiset().insert(id_key(x)));
    }
}

/// Folding ignores order: any two sequences of shares that are permutations of
/// each other fold to the same value, count and identifier.
pub proof fn lemma_aggregate_permutation(a: Seq<Share>, b: Seq<Share>)
    requires
        a.to_multiset() == b.to_multiset(),
    ensures
        value_sum(a) == value_sum(b),
        count_sum(a) == count_sum(b),
        aggregate_id(a) == aggregate_id(b),
{
    lemma_sums_permutation(a, b);
    lemma_keys_permutation(a, b);
    lemma_key_order_total();
    id_keys(a).lemma_sort_by_ensures(key_order());
    id_keys(b).lemma_sort_by_ensures(key_order());
    vstd::seq_lib::lemma_sorted_unique(sorted_keys(a), sorted_keys(b), key_order());
}

proof fn lemma_sums_permutation(a: Seq<Share>, b: Seq<Share>)
    requires
        a.to_multiset() == b.to_multiset(),
    ensures
        value_sum(a) == value_sum(b),
        count_sum(a) == count_sum(b),
    decreases a.len(),
{
    broadcast use vstd::seq_lib::group_to_multiset_ensures;

    if a.len() == 0 {
        assert(b.to_multiset().len() == 0);
        assert(b =~= Seq::<Share>::empty());
    } else {
        let x = a.last();
        let rest = a.drop_last();
        assert(a =~= rest.push(x));
        assert(a.to_multiset() =~= rest.to_multiset().insert(x));
        assert(b.to_multiset().count(x) > 0);
        assert(b.contains(x));
        let k = choose|k: int| 0 <= k < b.len() && b[k] == x;
        assert(b.remove(k).to_multiset() =~= b.to_multiset().remove(x));
        assert(rest.to_multiset() =~= a.to_multiset().remove(x));
        lemma_sums_permutation(rest, b.remove(k));
        lemma_sums_remove(b, k);
    }
}

} // verus!
