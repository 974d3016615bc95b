//! Deterministic node identities for the operations of one tick: the same
//! operations in any order receive the same identities.
use vstd::prelude::*;
use vstd::relations::{sorted_by, total_ordering};
use crate::canonical::{head, write_major, lemma_lex_asymmetric, lemma_lex_irreflexive, lemma_lex_transitive, lemma_lex_total};
use crate::events::{hash_item, hash_items, write_byte_items, write_hash_items};
use crate::hash::{blake3_digest, hash_lt};

verus! {

/// A node of the effect graph, ordered by its digest bytes.
#[derive(Clone, Copy, Debug, PartialEq, Eq, PartialOrd, Ord, Hash)]
pub struct NodeId(pub crate::hash::Hash);

impl NodeId {
    pub fn from_hash(hash: crate::hash::Hash) -> (r: NodeId)
        ensures
            r.0 == hash,
    {
        NodeId(hash)
    }

    pub fn hash(&self) -> (r: crate::hash::Hash)
        ensures
            r == self.0,
    {
        self.0
    }
}

/// Non-strict order of digests by raw bytes.
pub open spec fn hash_le(a: crate::hash::Hash, b: crate::hash::Hash) -> bool {
    a == b || hash_lt(a, b)
}

pub open spec fn hash_order() -> spec_fn(crate::hash::Hash, crate::hash::Hash) -> bool {
    |a: crate::hash::Hash, b: crate::hash::Hash| hash_le(a, b)
}

pub proof fn lemma_hash_order_total()
    ensures
        total_ordering(hash_order()),
{
    let leq = hash_order();
    assert forall|a: crate::hash::Hash, b: crate::hash::Hash| #[trigger] leq(a, b) && #[trigger] leq(b, a) implies a == b by {
        lemma_lex_asymmetric(a.0@, b.0@);
    }
    assert forall|a: crate::hash::Hash, b: crate::hash::Hash, c: crate::hash::Hash|
        #[trigger] leq(a, b) && #[trigger] leq(b, c) implies leq(a, c) by {
        if hash_lt(a, b) && hash_lt(b, c) {
            lemma_lex_transitive(a.0@, b.0@, c.0@);
        }
    }
    assert forall|a: crate::hash::Hash, b: crate::hash::Hash| #[trigger] leq(a, b) || #[trigger] leq(b, a) by {
        lemma_lex_total(a.0@, b.0@);
        if a.0@ == b.0@ {
            assert(a.0 == b.0);
        }
    }
}

/// The digest of a tick: of the canonical encoding of its operations in
/// ascending order.
pub open spec fn tick_hash_of(ops: Seq<crate::hash::Hash>) -> Seq<u8> {
    blake3_digest(hash_items(ops.sort_by(hash_order())))
}

/// The canonical encoding of the triple (tick digest, operation, counter).
pub open spec fn node_id_input(tick: crate::hash::Hash, op: crate::hash::Hash, counter: u64) -> Seq<u8> {
    head(4, 3) + hash_item(tick) + hash_item(op) + head(0, counter as nat)
}

/// The identity given to the `counter`-th allocation (from 0) for `op` in a
/// tick with digest `tick`.
pub open spec fn node_id_of(tick: crate::hash::Hash, op: crate::hash::Hash, counter: u64) -> Seq<u8> {
    blake3_digest(node_id_input(tick, op, counter))
}

/// How many allocations `counters` records for `op`.
pub open spec fn count_for(counters: Seq<(crate::hash::Hash, u64)>, op: crate::hash::Hash) -> u64
    decreases counters.len(),
{
    if counters.len() == 0 {
        0
    } else if counters.last().0 == op {
        counters.last().1
    } else {
        count_for(counters.drop_last(), op)
    }
}

/// Sorts digests ascending by raw bytes, keeping duplicates.
fn sort_hashes(ops: &[crate::hash::Hash]) -> (r: Vec<crate::hash::Hash>)
    ensures
        r@ == ops@.sort_by(hash_order()),
{
    let ghost leq = hash_order();
    proof {
        lemma_hash_order_total();
    }
    let mut r: Vec<crate::hash::Hash> = Vec::new();
    let mut i: usize = 0;
    assert(r@ =~= ops@.subrange(0, 0));
    while i < ops.len()
        invariant
            i <= ops@.len(),
            leq == hash_order(),
            total_ordering(leq),
            sorted_by(r@, leq),
            r@.to_multiset() == ops@.subrange(0, i as int).to_multiset(),
        decreases ops.len() - i,
    {
        let p = ops[i];
        let mut j: usize = 0;
        loop
            invariant
                j <= r@.len(),
                forall|x: int| 0 <= x < j ==> hash_le(#[trigger] r@[x], p),
            ensures
                j <= r@.len(),
                forall|x: int| 0 <= x < j ==> hash_le(#[trigger] r@[x], p),
                j < r@.len() ==> !hash_le(r@[j as int], p),
            decreases r.len() - j,
        {
            if j >= r.len() {
                break;
            }
            let c = r[j].compare(&p);
            if c > 0 {
                proof {
                    lemma_lex_asymmetric(r@[j as int].0@, p.0@);
                    lemma_lex_irreflexive(p.0@);
                }
                break;
            }
            j = j + 1;
        }
        let ghost old_r = r@;
        proof {
            if j < old_r.len() {
                assert(leq(old_r[j as int], p) || leq(p, old_r[j as int]));
            }
            assert forall|x: int| 0 <= x < j implies leq(old_r[x], p) by {
                assert(hash_le(r@[x], p));
            }
        }
        r.insert(j, p);
        proof {
            let nr = r@;
            assert(nr =~= old_r.insert(j as int, p));
            assert forall|x: int, y: int| 0 <= x < y < nr.len() implies #[trigger] leq(nr[x], nr[y]) by {
                if x < j && y > j {
                    assert(leq(old_r[x], p));
                    assert(leq(p, old_r[j as int]));
                    assert(leq(old_r[j as int], old_r[y - 1]) || j as int == y - 1);
                } else if x == j {
                    if j as int != y - 1 {
                        assert(leq(old_r[j as int], old_r[y - 1]));
                    }
                }
            }
            vstd::seq_lib::to_multiset_insert(old_r, j as int, p);
            assert(ops@.subrange(0, i + 1) =~= ops@.subrange(0, i as int).push(p));
            vstd::seq_lib::to_multiset_build(ops@.subrange(0, i as int), p);
        }
        i = i + 1;
    }
    proof {
        assert(ops@.subrange(0, i as int) =~= ops@);
        ops@.lemma_sort_by_ensures(leq);
        vstd::seq_lib::lemma_sorted_unique(r@, ops@.sort_by(leq), leq);
    }
    r
}

/// Identity allocation for one tick: a digest of the tick's operations and
/// a counter per operation.
pub struct DeterministicIdAllocator {
    tick_hash: crate::hash::Hash,
    /// Allocations per operation, latest entry per operation winning. A
    /// vector, not a hash map: Verus proves nothing of a `HashMap` keyed by a
    /// struct whose `Eq` and `Hash` are derived.
    counters: Vec<(crate::hash::Hash, u64)>,
}

/// The state of an allocator as mathematical values.
pub struct AllocatorView {
    pub tick_hash: crate::hash::Hash,
    pub counters: Seq<(crate::hash::Hash, u64)>,
}

impl View for DeterministicIdAllocator {
    type V = AllocatorView;

    closed spec fn view(&self) -> AllocatorView {
        AllocatorView { tick_hash: self.tick_hash, counters: self.counters@ }
    }
}

impl DeterministicIdAllocator {
    /// How many identities have been allocated for `op`.
    pub open spec fn allocated(&self, op: crate::hash::Hash) -> u64 {
        count_for(self@.counters, op)
    }

    /// An allocator for a tick; its digest does not depend on the order of
    /// `operations`, and no identity is allocated yet.
    pub fn new_for_tick(operations: &[crate::hash::Hash]) -> (r: Self)
        ensures
            r@.tick_hash.0@ == tick_hash_of(operations@),
            forall|op: crate::hash::Hash| r.allocated(op) == 0,
    {
        let sorted = sort_hashes(operations);
        let mut bytes: Vec<u8> = Vec::new();
        write_hash_items(sorted.as_slice(), &mut bytes);
        assert(bytes@ =~= hash_items(operations@.sort_by(hash_order())));
        let tick_hash = crate::hash::Hash::digest(bytes.as_slice());
        DeterministicIdAllocator { tick_hash, counters: Vec::new() }
    }

    fn find_counter(&self, op: &crate::hash::Hash) -> (r: Option<usize>)
        ensures
            match r {
                Some(k) => k < self@.counters.len() && self@.counters[k as int].0 == *op
                    && count_for(self@.counters, *op) == self@.counters[k as int].1
                    && forall|x: int| k < x < self@.counters.len() ==> self@.counters[x].0 != *op,
                None => count_for(self@.counters, *op) == 0 && forall|x: int|
                    0 <= x < self@.counters.len() ==> self@.counters[x].0 != *op,
            },
    {
        let mut i: usize = self.counters.len();
        assert(self.counters@.subrange(0, i as int) =~= self.counters@);
        while i > 0
            invariant
                i <= self.counters@.len(),
                count_for(self.counters@, *op) == count_for(self.counters@.subrange(0, i as int), *op),
                forall|x: int| i <= x < self.counters@.len() ==> self.counters@[x].0 != *op,
            decreases i,
        {
            assert(self.counters@.subrange(0, i as int).drop_last() =~= self.counters@.subrange(0, i - 1));
            if self.counters[i - 1].0.compare(op) == 0 {
                return Some(i - 1);
            }
            i = i - 1;
        }
        None
    }

    /// The next identity for `op`: the digest of (tick digest, `op`, number
    /// of identities already allocated for `op`). Counters are per
    /// operation, so calls for other operations do not affect it.
    pub fn alloc_node_id(&mut self, operation_hash: crate::hash::Hash) -> (r: NodeId)
        requires
            old(self).allocated(operation_hash) < u64::MAX,
        ensures
            r.0.0@ == node_id_of(old(self)@.tick_hash, operation_hash, old(self).allocated(operation_hash)),
            final(self)@.tick_hash == old(self)@.tick_hash,
            final(self).allocated(operation_hash) == old(self).allocated(operation_hash) + 1,
            forall|op: crate::hash::Hash| op != operation_hash ==> final(self).allocated(op) == old(self).allocated(op),
    {
        let counter: u64 = match self.find_counter(&operation_hash) {
            Some(k) => self.counters[k].1,
            None => 0,
        };
        let mut bytes: Vec<u8> = Vec::new();
        write_major(4, 3, &mut bytes);
        write_byte_items(self.tick_hash.0.as_slice(), &mut bytes);
        write_byte_items(operation_hash.0.as_slice(), &mut bytes);
        write_major(0, counter, &mut bytes);
        assert(bytes@ =~= node_id_input(self.tick_hash, operation_hash, counter));
        let id = crate::hash::Hash::digest(bytes.as_slice());
        let ghost old_c = self.counters@;
        self.counters.push((operation_hash, counter + 1));
        proof {
            assert(self.counters@.drop_last() =~= old_c);
        }
        NodeId(id)
    }

    /// The digest of the tick's operations.
    pub fn tick_hash(&self) -> (r: crate::hash::Hash)
        ensures
            r == self@.tick_hash,
    {
        self.tick_hash
    }

    /// Forgets every allocation; the tick digest stays.
    pub fn reset_counter(&mut self)
        ensures
            final(self)@.tick_hash == old(self)@.tick_hash,
            forall|op: crate::hash::Hash| final(self).allocated(op) == 0,
    {
        self.counters.clear();
    }
}

/// Antichain swap: operations that are the same multiset in any order give
/// the same tick digest.
pub proof fn lemma_tick_hash_order_independent(ops1: Seq<crate::hash::Hash>, ops2: Seq<crate::hash::Hash>)
    requires
        ops1.to_multiset() == ops2.to_multiset(),
    ensures
        tick_hash_of(ops1) == tick_hash_of(ops2),
{
    lemma_hash_order_total();
    ops1.lemma_sort_by_ensures(hash_order());
    ops2.lemma_sort_by_ensures(hash_order());
    vstd::seq_lib::lemma_sorted_unique(ops1.sort_by(hash_order()), ops2.sort_by(hash_order()), hash_order());
}

} // verus!
