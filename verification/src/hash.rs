//! Locality-sensitive bucket tables.
//!
//! A fingerprint is hashed into a `HASH_BITS`-bit key, one bit per random
//! projection (set where the projection is non-negative). The key is split
//! into `NUM_TABLES` bands of `HASH_BITS / NUM_TABLES` bits; band `t` is
//! the bucket of the fingerprint in table `t`. Fingerprints that share a
//! bucket in some table are candidates of each other.

use vstd::prelude::*;
use std::collections::HashMap;

verus! {

/// Number of hash bits.
pub const HASH_BITS: usize = 128;

/// Number of hash tables (bands).
pub const NUM_TABLES: usize = 8;

/// Bits of the key per table.
pub const BITS_PER_TABLE: usize = 16;

/// A bucket key.
pub type BucketKey = u128;

/// Bit `i` of `h` is set.
pub open spec fn bit_set(h: u128, i: u128) -> bool {
    (h >> i) & 1 == 1
}

/// The bucket of key `h` in table `t`: bits `16 t .. 16 t + 16` of `h`.
pub open spec fn sub_key(h: u128, t: int) -> u128 {
    (h >> ((t * 16) as u128)) & 0xffff
}

proof fn lemma_bit_of_or(b: u128, i: u128, j: u128)
    by (bit_vector)
    requires
        i < 128,
        j < 128,
    ensures
        ((b | (1u128 << i)) >> j) & 1 == if j == i {
            1u128
        } else {
            (b >> j) & 1
        },
{
}

proof fn lemma_bit_of_zero(j: u128)
    by (bit_vector)
    ensures
        (0u128 >> j) & 1 == 0,
{
}

/// The key whose bit `i` is set exactly where `signs[i]` holds, for the
/// first `signs.len()` bits; every later bit is clear.
pub fn key_from_signs(signs: &Vec<bool>) -> (h: BucketKey)
    requires
        signs.len() <= HASH_BITS,
    ensures
        forall|i: int| 0 <= i < 128 ==> #[trigger] bit_set(h, i as u128) == (i < signs.len() && signs@[i]),
{
    let mut bits: u128 = 0;
    let mut i: usize = 0;
    proof {
        assert forall|j: int| 0 <= j < 128 implies #[trigger] bit_set(bits, j as u128) == (j < 0
            && signs@[j]) by {
            lemma_bit_of_zero(j as u128);
        }
    }
    while i < signs.len()
        invariant
            signs.len() <= 128,
            i <= signs.len(),
            forall|j: int|
                0 <= j < 128 ==> #[trigger] bit_set(bits, j as u128) == (j < i && signs@[j]),
        decreases signs.len() - i,
    {
        if signs[i] {
            let ghost before = bits;
            bits = bits | (1u128 << (i as u128));
            proof {
                assert forall|j: int| 0 <= j < 128 implies #[trigger] bit_set(bits, j as u128) == (j
                    < i + 1 && signs@[j]) by {
                    lemma_bit_of_or(before, i as u128, j as u128);
                    assert(bit_set(before, j as u128) == (j < i && signs@[j]));
                }
            }
        }
        i = i + 1;
    }
    bits
}

/// The bucket of key `full_hash` in table `t`.
fn table_key(full_hash: BucketKey, t: usize) -> (k: BucketKey)
    requires
        t < NUM_TABLES,
    ensures
        k == sub_key(full_hash, t as int),
{
    let shift = (t * BITS_PER_TABLE) as u128;
    let width = BITS_PER_TABLE as u128;
    assert(1u128 << width == 0x10000) by (bit_vector)
        requires
            width == 16,
    ;
    let mask: BucketKey = (1u128 << width) - 1;
    (full_hash >> shift) & mask
}

/// A candidate returned by a query.
#[derive(Debug, Clone, Copy, PartialEq, Eq)]
pub struct LshCandidate {
    /// Index of the candidate fingerprint.
    pub index: usize,
    /// Number of bucket entries, over all tables, where it matched.
    pub hit_count: usize,
}

/// Deterministic generator of pseudo-random 64-bit words (a linear
/// congruential generator with the constants of Numerical Recipes).
pub struct LcgRng {
    pub state: u64,
}

/// The state that follows state `s`: `s * 6364136223846793005 +
/// 1442695040888963407` modulo 2^64.
pub open spec fn lcg_next(s: u64) -> u64 {
    ((s as int * 6364136223846793005 + 1442695040888963407) % 0x1_0000_0000_0000_0000) as u64
}

impl LcgRng {
    /// A generator whose state is `seed`.
    pub fn new(seed: u64) -> (r: Self)
        ensures
            r.state == seed,
    {
        LcgRng { state: seed }
    }

    /// Advances the state and returns the new state.
    pub fn next_u64(&mut self) -> (r: u64)
        ensures
            r == lcg_next(old(self).state),
            final(self).state == r,
    {
        let ghost s = self.state as int;
        self.state = self.state.wrapping_mul(6364136223846793005).wrapping_add(1442695040888963407);
        proof {
            let m: int = 0x1_0000_0000_0000_0000;
            vstd::arithmetic::div_mod::lemma_add_mod_noop(
                s * 6364136223846793005,
                1442695040888963407,
                m,
            );
            vstd::arithmetic::div_mod::lemma_mod_twice(s * 6364136223846793005, m);
            assert(1442695040888963407int % m == 1442695040888963407);
        }
        self.state
    }
}

/// The number of entries of `table` equal to `(key, idx)`.
pub open spec fn matches_in(table: Seq<(u128, usize)>, key: u128, idx: usize) -> nat
    decreases table.len(),
{
    if table.len() == 0 {
        0
    } else {
        matches_in(table.drop_last(), key, idx) + if table.last() == (key, idx) {
            1nat
        } else {
            0nat
        }
    }
}

/// The number of entries `(sub_key(h, u), idx)` in table `u`, summed over
/// the first `t` tables.
pub open spec fn hits(tables: Seq<Seq<(u128, usize)>>, h: u128, idx: usize, t: int) -> nat
    decreases t,
{
    if t <= 0 {
        0
    } else {
        hits(tables, h, idx, t - 1) + matches_in(tables[t - 1], sub_key(h, t - 1), idx)
    }
}

/// The number of entries in the first `t` tables.
pub open spec fn entries_in(tables: Seq<Seq<(u128, usize)>>, t: int) -> nat
    decreases t,
{
    if t <= 0 {
        0
    } else {
        entries_in(tables, t - 1) + tables[t - 1].len()
    }
}

proof fn lemma_matches_bound(table: Seq<(u128, usize)>, key: u128, idx: usize)
    ensures
        matches_in(table, key, idx) <= table.len(),
    decreases table.len(),
{
    if table.len() > 0 {
        lemma_matches_bound(table.drop_last(), key, idx);
    }
}

proof fn lemma_hits_bound(tables: Seq<Seq<(u128, usize)>>, h: u128, idx: usize, t: int)
    ensures
        hits(tables, h, idx, t) <= entries_in(tables, t),
    decreases t,
{
    if t > 0 {
        lemma_hits_bound(tables, h, idx, t - 1);
        lemma_matches_bound(tables[t - 1], sub_key(h, t - 1), idx);
    }
}

proof fn lemma_entries_monotone(tables: Seq<Seq<(u128, usize)>>, t1: int, t2: int)
    requires
        t1 <= t2,
    ensures
        entries_in(tables, t1) <= entries_in(tables, t2),
    decreases t2 - t1,
{
    if t1 < t2 {
        lemma_entries_monotone(tables, t1, t2 - 1);
    }
}

/// The hits of `idx` for key `h` counted over the first `t` tables and the
/// first `j` entries of table `t`.
pub open spec fn partial_hits(
    tables: Seq<Seq<(u128, usize)>>,
    h: u128,
    idx: usize,
    t: int,
    j: int,
) -> nat {
    hits(tables, h, idx, t) + matches_in(tables[t].take(j), sub_key(h, t), idx)
}

/// Locality-sensitive bucket tables: table `t` lists `(bucket, index)`
/// pairs, one per inserted fingerprint.
#[derive(Debug, Clone)]
pub struct SpectralHash {
    /// The bucket tables.
    pub tables: Vec<Vec<(BucketKey, usize)>>,
}

impl SpectralHash {
    /// The contents of the tables.
    pub open spec fn tables_view(self) -> Seq<Seq<(u128, usize)>> {
        self.tables@.map_values(|t: Vec<(u128, usize)>| t@)
    }

    /// There is a table for every band.
    pub open spec fn well_formed(self) -> bool {
        self.tables@.len() >= NUM_TABLES
    }

    /// The number of entries, over all tables, that hold `idx` in the bucket
    /// of key `h`.
    pub open spec fn hit_count(self, h: u128, idx: usize) -> nat {
        hits(self.tables_view(), h, idx, NUM_TABLES as int)
    }

    /// `NUM_TABLES` empty tables.
    pub fn new() -> (r: Self)
        ensures
            r.tables@.len() == NUM_TABLES,
            r.tables_view() == Seq::new(NUM_TABLES as nat, |t: int| Seq::<(u128, usize)>::empty()),
            r.well_formed(),
    {
        let mut tables: Vec<Vec<(BucketKey, usize)>> = Vec::new();
        while tables.len() < NUM_TABLES
            invariant
                tables.len() <= NUM_TABLES,
                forall|t: int| 0 <= t < tables.len() ==> (#[trigger] tables@[t])@ == Seq::<
                    (u128, usize),
                >::empty(),
            decreases NUM_TABLES - tables.len(),
        {
            tables.push(Vec::new());
        }
        let r = SpectralHash { tables };
        assert(r.tables_view() =~= Seq::new(
            NUM_TABLES as nat,
            |t: int| Seq::<(u128, usize)>::empty(),
        ));
        r
    }

    /// Files `index` under key `full_hash`: in each table `t`, the pair
    /// `(sub_key(full_hash, t), index)` is appended.
    pub fn insert(&mut self, full_hash: BucketKey, index: usize)
        requires
            old(self).well_formed(),
        ensures
            final(self).tables@.len() == old(self).tables@.len(),
            forall|t: int|
                0 <= t < final(self).tables@.len() ==> #[trigger] final(self).tables_view()[t] == if t
                    < NUM_TABLES {
                    old(self).tables_view()[t].push((sub_key(full_hash, t), index))
                } else {
                    old(self).tables_view()[t]
                },
    {
        let mut t: usize = 0;
        while t < NUM_TABLES
            invariant
                t <= NUM_TABLES,
                self.tables@.len() == old(self).tables@.len(),
                old(self).tables@.len() >= NUM_TABLES,
                forall|u: int|
                    0 <= u < self.tables@.len() ==> #[trigger] self.tables@[u]@ == if u < t {
                        old(self).tables@[u]@.push((sub_key(full_hash, u), index))
                    } else {
                        old(self).tables@[u]@
                    },
            decreases NUM_TABLES - t,
        {
            let key = table_key(full_hash, t);
            self.tables[t].push((key, index));
            t = t + 1;
        }
    }
}

impl SpectralHash {
    /// The candidates for key `full_hash`: every index with at least one
    /// hit, each once, with its hit count (`hit_count`), most hits first.
    pub fn query(&self, full_hash: BucketKey) -> (r: Vec<LshCandidate>)
        requires
            self.well_formed(),
            entries_in(self.tables_view(), NUM_TABLES as int) <= usize::MAX,
        ensures
            forall|k: int|
                0 <= k < r.len() ==> {
                    &&& (#[trigger] r@[k]).hit_count == self.hit_count(full_hash, r@[k].index)
                    &&& r@[k].hit_count > 0
                },
            forall|k1: int, k2: int|
                0 <= k1 < r.len() && 0 <= k2 < r.len() && k1 != k2 ==> (#[trigger] r@[k1]).index
                    != (#[trigger] r@[k2]).index,
            forall|idx: usize|
                #[trigger] self.hit_count(full_hash, idx) > 0 ==> exists|k: int|
                    0 <= k < r.len() && (#[trigger] r@[k]).index == idx,
            forall|k1: int, k2: int|
                0 <= k1 < k2 < r.len() ==> (#[trigger] r@[k1]).hit_count >= (
                #[trigger] r@[k2]).hit_count,
    {
        broadcast use vstd::std_specs::hash::group_hash_axioms;

        let ghost tv = self.tables_view();
        let mut counts: HashMap<usize, usize> = HashMap::new();
        let mut order: Vec<usize> = Vec::new();
        let mut t: usize = 0;
        while t < NUM_TABLES
            invariant
                t <= NUM_TABLES,
                self.well_formed(),
                tv == self.tables_view(),
                entries_in(tv, NUM_TABLES as int) <= usize::MAX,
                forall|idx: usize|
                    #[trigger] counts@.contains_key(idx) ==> counts@[idx] == hits(
                        tv,
                        full_hash,
                        idx,
                        t as int,
                    ) && counts@[idx] > 0,
                forall|idx: usize|
                    #[trigger] hits(tv, full_hash, idx, t as int) > 0 ==> counts@.contains_key(
                        idx,
                    ),
                forall|idx: usize| #[trigger] counts@.contains_key(idx) <==> order@.contains(idx),
                forall|p: int, q: int|
                    0 <= p < order.len() && 0 <= q < order.len() && p != q ==> (
                    #[trigger] order@[p]) != (#[trigger] order@[q]),
            decreases NUM_TABLES - t,
        {
            let key = table_key(full_hash, t);
            let table = &self.tables[t];
            let mut j: usize = 0;
            proof {
                assert(tv[t as int] == table@);
                assert forall|idx: usize| #[trigger] partial_hits(tv, full_hash, idx, t as int, 0)
                    == hits(tv, full_hash, idx, t as int) by {
                    assert(tv[t as int].take(0) =~= Seq::<(u128, usize)>::empty());
                }
                lemma_entries_monotone(tv, t + 1, NUM_TABLES as int);
            }
            while j < table.len()
                invariant
                    t < NUM_TABLES,
                    j <= table.len(),
                    tv[t as int] == table@,
                    key == sub_key(full_hash, t as int),
                    entries_in(tv, t + 1) <= usize::MAX,
                    forall|idx: usize|
                        #[trigger] counts@.contains_key(idx) ==> counts@[idx] == partial_hits(
                            tv,
                            full_hash,
                            idx,
                            t as int,
                            j as int,
                        ) && counts@[idx] > 0,
                    forall|idx: usize|
                        #[trigger] partial_hits(tv, full_hash, idx, t as int, j as int) > 0
                            ==> counts@.contains_key(idx),
                    forall|idx: usize| #[trigger] counts@.contains_key(idx) <==> order@.contains(idx),
                    forall|p: int, q: int|
                        0 <= p < order.len() && 0 <= q < order.len() && p != q ==> (
                        #[trigger] order@[p]) != (#[trigger] order@[q]),
                decreases table.len() - j,
            {
                let (entry_key, entry_index) = table[j];
                proof {
                    assert(tv[t as int].take(j + 1).drop_last() =~= tv[t as int].take(j as int));
                    assert forall|idx: usize| #[trigger]
                        partial_hits(tv, full_hash, idx, t as int, j + 1) == partial_hits(
                            tv,
                            full_hash,
                            idx,
                            t as int,
                            j as int,
                        ) + if (entry_key == key && entry_index == idx) {
                            1nat
                        } else {
                            0nat
                        } by {}
                }
                if entry_key == key {
                    let ghost before = counts@;
                    match counts.get(&entry_index) {
                        Some(c) => {
                            proof {
                                lemma_hits_bound(tv, full_hash, entry_index, t as int);
                                lemma_matches_bound(tv[t as int].take(j + 1), key, entry_index);
                                assert(partial_hits(tv, full_hash, entry_index, t as int, j + 1)
                                    <= entries_in(tv, t + 1));
                            }
                            let next = *c + 1;
                            counts.insert(entry_index, next);
                            proof {
                                assert(counts@.dom() =~= before.dom());
                            }
                        },
                        None => {
                            counts.insert(entry_index, 1);
                            let ghost order_before = order@;
                            order.push(entry_index);
                            proof {
                                assert(partial_hits(tv, full_hash, entry_index, t as int, j as int)
                                    == 0);
                                assert forall|idx: usize| #[trigger] counts@.contains_key(idx) <==> order@.contains(idx) by {
                                    if order_before.contains(idx) {
                                        let p = choose|p: int| 0 <= p < order_before.len() && order_before[p] == idx;
                                        assert(order@[p] == idx);
                                    }
                                    if order@.contains(idx) && idx != entry_index {
                                        let p = choose|p: int| 0 <= p < order@.len() && order@[p] == idx;
                                        assert(order_before[p] == idx);
                                    }
                                    assert(order@[order_before.len() as int] == entry_index);
                                }
                                assert forall|p: int, q: int|
                                    0 <= p < order.len() && 0 <= q < order.len() && p != q implies (
                                    #[trigger] order@[p]) != (#[trigger] order@[q]) by {
                                    if p == order_before.len() {
                                        assert(!order_before.contains(entry_index));
                                        assert(order@[q] == order_before[q]);
                                    } else if q == order_before.len() {
                                        assert(!order_before.contains(entry_index));
                                        assert(order@[p] == order_before[p]);
                                    }
                                }
                            }
                        },
                    }
                }
                j = j + 1;
            }
            proof {
                assert(tv[t as int].take(table@.len() as int) =~= tv[t as int]);
                assert forall|idx: usize| #[trigger] hits(tv, full_hash, idx, t + 1)
                    == partial_hits(tv, full_hash, idx, t as int, j as int) by {}
            }
            t = t + 1;
        }
        let mut cands: Vec<LshCandidate> = Vec::new();
        let mut p: usize = 0;
        while p < order.len()
            invariant
                p <= order.len(),
                cands.len() == p,
                forall|idx: usize|
                    #[trigger] counts@.contains_key(idx) ==> counts@[idx] == hits(
                        tv,
                        full_hash,
                        idx,
                        NUM_TABLES as int,
                    ) && counts@[idx] > 0,
                forall|idx: usize| #[trigger] counts@.contains_key(idx) <==> order@.contains(idx),
                forall|q: int|
                    0 <= q < p ==> (#[trigger] cands@[q]).index == order@[q] && cands@[q].hit_count
                        == counts@[order@[q]],
            decreases order.len() - p,
        {
            let idx = order[p];
            proof {
                assert(order@.contains(idx));
            }
            match counts.get(&idx) {
                Some(c) => {
                    cands.push(LshCandidate { index: idx, hit_count: *c });
                },
                None => {
                    proof {
                        assert(false);
                    }
                },
            }
            p = p + 1;
        }
        proof {
            assert forall|a: int, b: int|
                0 <= a < cands.len() && 0 <= b < cands.len() && a != b implies (
                #[trigger] cands@[a]).index != (#[trigger] cands@[b]).index by {
                assert(order@[a] != order@[b]);
            }
        }
        let r = sort_by_hits(cands);
        proof {
            assert forall|idx: usize| #[trigger] self.hit_count(full_hash, idx) > 0 implies exists|k: int|
                0 <= k < r.len() && (#[trigger] r@[k]).index == idx by {
                assert(counts@.contains_key(idx));
                let q = choose|q: int| 0 <= q < order@.len() && order@[q] == idx;
                assert(r@.contains(cands@[q]));
                let k = choose|k: int| 0 <= k < r@.len() && r@[k] == cands@[q];
                assert(r@[k].index == idx);
            }
            assert forall|k: int| 0 <= k < r.len() implies {
                &&& (#[trigger] r@[k]).hit_count == self.hit_count(full_hash, r@[k].index)
                &&& r@[k].hit_count > 0
            } by {
                assert(cands@.contains(r@[k]));
                let q = choose|q: int| 0 <= q < cands@.len() && cands@[q] == r@[k];
                assert(order@.contains(order@[q]));
                assert(counts@.contains_key(order@[q]));
                assert(cands@[q].index == order@[q]);
            }
        }
        r
    }
}

/// Hit counts never increase along `s`.
pub open spec fn sorted_by_hits(s: Seq<LshCandidate>) -> bool {
    forall|k1: int, k2: int| 0 <= k1 < k2 < s.len() ==> (#[trigger] s[k1]).hit_count >= (
    #[trigger] s[k2]).hit_count
}

/// The indices of `s` are pairwise distinct.
pub open spec fn distinct_indices(s: Seq<LshCandidate>) -> bool {
    forall|k1: int, k2: int|
        0 <= k1 < s.len() && 0 <= k2 < s.len() && k1 != k2 ==> (#[trigger] s[k1]).index != (
        #[trigger] s[k2]).index
}

/// Inserts `c` after every candidate with at least as many hits.
fn insert_by_hits(r: &mut Vec<LshCandidate>, c: LshCandidate) -> (pos: usize)
    requires
        sorted_by_hits(old(r)@),
    ensures
        pos <= old(r)@.len(),
        final(r)@ == old(r)@.insert(pos as int, c),
        sorted_by_hits(final(r)@),
{
    let mut pos: usize = 0;
    while pos < r.len() && r[pos].hit_count >= c.hit_count
        invariant
            pos <= r.len(),
            forall|k: int| 0 <= k < pos ==> (#[trigger] r@[k]).hit_count >= c.hit_count,
        decreases r.len() - pos,
    {
        pos = pos + 1;
    }
    let ghost before = r@;
    r.insert(pos, c);
    proof {
        assert forall|k1: int, k2: int| 0 <= k1 < k2 < r@.len() implies (#[trigger] r@[k1]).hit_count
            >= (#[trigger] r@[k2]).hit_count by {
            if k1 == pos {
                if pos < before.len() {
                    assert(before[pos as int].hit_count < c.hit_count);
                    assert(r@[k2] == before[k2 - 1]);
                    if k2 - 1 > pos {
                        assert(before[pos as int].hit_count >= before[k2 - 1].hit_count);
                    }
                }
            } else if k2 == pos {
                assert(r@[k1] == before[k1]);
            } else {
                let a = if k1 < pos { k1 } else { k1 - 1 };
                let b = if k2 < pos { k2 } else { k2 - 1 };
                assert(r@[k1] == before[a]);
                assert(r@[k2] == before[b]);
            }
        }
    }
    pos
}

/// Inserting the next candidate keeps the result a distinct arrangement of
/// the candidates seen so far.
proof fn lemma_insert_candidate(before: Seq<LshCandidate>, pos: int, cands: Seq<LshCandidate>, i: int)
    requires
        0 <= i < cands.len(),
        0 <= pos <= before.len(),
        distinct_indices(cands),
        distinct_indices(before),
        forall|k: int| 0 <= k < before.len() ==> cands.take(i).contains(#[trigger] before[k]),
        forall|p: int| 0 <= p < i ==> before.contains(#[trigger] cands[p]),
    ensures
        ({
            let after = before.insert(pos, cands[i]);
            &&& distinct_indices(after)
            &&& forall|k: int| 0 <= k < after.len() ==> cands.take(i + 1).contains(#[trigger] after[k])
            &&& forall|p: int| 0 <= p < i + 1 ==> after.contains(#[trigger] cands[p])
        }),
{
    let after = before.insert(pos, cands[i]);
    assert forall|k: int| 0 <= k < after.len() implies cands.take(i + 1).contains(#[trigger] after[k]) by {
        if k == pos {
            assert(cands.take(i + 1)[i] == after[k]);
        } else {
            let kb = if k < pos { k } else { k - 1 };
            assert(after[k] == before[kb]);
            assert(cands.take(i).contains(before[kb]));
            let p = choose|p: int| 0 <= p < i && cands.take(i)[p] == before[kb];
            assert(cands.take(i + 1)[p] == after[k]);
        }
    }
    assert forall|p: int| 0 <= p < i + 1 implies after.contains(#[trigger] cands[p]) by {
        if p == i {
            assert(after[pos] == cands[p]);
        } else {
            assert(before.contains(cands[p]));
            let k = choose|k: int| 0 <= k < before.len() && before[k] == cands[p];
            if k < pos {
                assert(after[k] == cands[p]);
            } else {
                assert(after[k + 1] == cands[p]);
            }
        }
    }
    assert forall|k1: int, k2: int|
        0 <= k1 < after.len() && 0 <= k2 < after.len() && k1 != k2 implies (#[trigger] after[k1]).index
            != (#[trigger] after[k2]).index by {
        if k1 == pos || k2 == pos {
            let other = if k1 == pos { k2 } else { k1 };
            let ko = if other < pos { other } else { other - 1 };
            assert(after[other] == before[ko]);
            assert(cands.take(i).contains(before[ko]));
            let p = choose|p: int| 0 <= p < i && cands.take(i)[p] == before[ko];
            assert(cands[p] == before[ko]);
            assert(cands[p].index != cands[i].index);
        } else {
            let a = if k1 < pos { k1 } else { k1 - 1 };
            let b = if k2 < pos { k2 } else { k2 - 1 };
            assert(after[k1] == before[a]);
            assert(after[k2] == before[b]);
        }
    }
}

/// Orders candidates by hit count, most first; ties keep their order.
fn sort_by_hits(cands: Vec<LshCandidate>) -> (r: Vec<LshCandidate>)
    requires
        distinct_indices(cands@),
    ensures
        r.len() == cands.len(),
        forall|k: int| 0 <= k < r.len() ==> cands@.contains(#[trigger] r@[k]),
        forall|p: int| 0 <= p < cands.len() ==> r@.contains(#[trigger] cands@[p]),
        distinct_indices(r@),
        sorted_by_hits(r@),
{
    let mut r: Vec<LshCandidate> = Vec::new();
    let mut i: usize = 0;
    while i < cands.len()
        invariant
            i <= cands.len(),
            r.len() == i,
            distinct_indices(cands@),
            forall|k: int| 0 <= k < r.len() ==> cands@.take(i as int).contains(#[trigger] r@[k]),
            forall|p: int| 0 <= p < i ==> r@.contains(#[trigger] cands@[p]),
            distinct_indices(r@),
            sorted_by_hits(r@),
        decreases cands.len() - i,
    {
        let ghost before = r@;
        let pos = insert_by_hits(&mut r, cands[i]);
        proof {
            lemma_insert_candidate(before, pos as int, cands@, i as int);
        }
        i = i + 1;
    }
    assert(cands@.take(cands.len() as int) =~= cands@);
    r
}

impl SpectralHash {
    /// Tables holding `hashes[i]` under index `i`, for every `i` in order.
    pub fn build_index(hashes: &[BucketKey]) -> (r: Self)
        ensures
            r.tables@.len() == NUM_TABLES,
            forall|t: int|
                0 <= t < NUM_TABLES ==> #[trigger] r.tables_view()[t] == Seq::new(
                    hashes@.len(),
                    |i: int| (sub_key(hashes@[i], t), i as usize),
                ),
    {
        let mut lsh = SpectralHash::new();
        let mut i: usize = 0;
        assert forall|t: int| 0 <= t < NUM_TABLES implies #[trigger] lsh.tables_view()[t] == Seq::new(
            0 as nat,
            |k: int| (sub_key(hashes@[k], t), k as usize),
        ) by {
            assert(lsh.tables_view()[t] =~= Seq::new(
                0 as nat,
                |k: int| (sub_key(hashes@[k], t), k as usize),
            ));
        }
        while i < hashes.len()
            invariant
                i <= hashes.len(),
                lsh.tables@.len() == NUM_TABLES,
                forall|t: int|
                    0 <= t < NUM_TABLES ==> #[trigger] lsh.tables_view()[t] == Seq::new(
                        i as nat,
                        |k: int| (sub_key(hashes@[k], t), k as usize),
                    ),
            decreases hashes.len() - i,
        {
            let ghost before = lsh.tables_view();
            lsh.insert(hashes[i], i);
            proof {
                assert forall|t: int| 0 <= t < NUM_TABLES implies #[trigger] lsh.tables_view()[t]
                    == Seq::new((i + 1) as nat, |k: int| (sub_key(hashes@[k], t), k as usize)) by {
                    assert(lsh.tables_view()[t] == before[t].push((sub_key(hashes@[i as int], t), i)));
                    assert(lsh.tables_view()[t] =~= Seq::new(
                        (i + 1) as nat,
                        |k: int| (sub_key(hashes@[k], t), k as usize),
                    ));
                }
            }
            i = i + 1;
        }
        lsh
    }
}

proof fn lemma_hits_after_push(
    before: Seq<Seq<(u128, usize)>>,
    after: Seq<Seq<(u128, usize)>>,
    h: u128,
    idx: usize,
    h2: u128,
    idx2: usize,
    t: int,
)
    requires
        0 <= t <= NUM_TABLES,
        before.len() >= NUM_TABLES,
        after.len() == before.len(),
        forall|u: int|
            0 <= u < NUM_TABLES ==> #[trigger] after[u] == before[u].push((sub_key(h, u), idx)),
    ensures
        hits(after, h, idx, t) == hits(before, h, idx, t) + t,
        idx2 != idx ==> hits(after, h2, idx2, t) == hits(before, h2, idx2, t),
    decreases t,
{
    if t > 0 {
        lemma_hits_after_push(before, after, h, idx, h2, idx2, t - 1);
        let u = t - 1;
        assert(after[u].drop_last() =~= before[u]);
    }
}

/// Reading back a write: once `index` is inserted under key `h`, a query
/// with `h` counts exactly one more hit for `index` in every table, so
/// `index` is among the candidates; no other index gains a hit.
pub proof fn lemma_insert_then_query(
    before: SpectralHash,
    after: SpectralHash,
    h: u128,
    index: usize,
    other_key: u128,
    other: usize,
)
    requires
        before.well_formed(),
        after.tables@.len() == before.tables@.len(),
        forall|t: int|
            0 <= t < after.tables@.len() ==> #[trigger] after.tables_view()[t] == if t < NUM_TABLES {
                before.tables_view()[t].push((sub_key(h, t), index))
            } else {
                before.tables_view()[t]
            },
    ensures
        after.hit_count(h, index) == before.hit_count(h, index) + NUM_TABLES,
        after.hit_count(h, index) > 0,
        other != index ==> after.hit_count(other_key, other) == before.hit_count(other_key, other),
{
    assert forall|u: int| 0 <= u < NUM_TABLES implies #[trigger] after.tables_view()[u]
        == before.tables_view()[u].push((sub_key(h, u), index)) by {
        assert(after.tables_view()[u] == before.tables_view()[u].push((sub_key(h, u), index)));
    }
    lemma_hits_after_push(
        before.tables_view(),
        after.tables_view(),
        h,
        index,
        other_key,
        other,
        NUM_TABLES as int,
    );
}

/// The number of the first `t` bands in which keys `a` and `b` agree.
pub open spec fn shared_bands(a: u128, b: u128, t: int) -> nat
    decreases t,
{
    if t <= 0 {
        0
    } else {
        shared_bands(a, b, t - 1) + if sub_key(a, t - 1) == sub_key(b, t - 1) {
            1nat
        } else {
            0nat
        }
    }
}

proof fn lemma_matches_in_built(hashes: Seq<u128>, t: int, key: u128, idx: usize, k: int)
    requires
        0 <= k <= hashes.len(),
        hashes.len() <= usize::MAX,
    ensures
        matches_in(Seq::new(k as nat, |i: int| (sub_key(hashes[i], t), i as usize)), key, idx) == if idx
            < k && sub_key(hashes[idx as int], t) == key {
            1nat
        } else {
            0nat
        },
    decreases k,
{
    if k > 0 {
        let s = Seq::new(k as nat, |i: int| (sub_key(hashes[i], t), i as usize));
        assert(s.drop_last() =~= Seq::new((k - 1) as nat, |i: int| (sub_key(hashes[i], t), i as usize)));
        lemma_matches_in_built(hashes, t, key, idx, k - 1);
    }
}

proof fn lemma_hits_built(tables: Seq<Seq<(u128, usize)>>, hashes: Seq<u128>, h: u128, idx: usize, t: int)
    requires
        0 <= t <= NUM_TABLES,
        tables.len() == NUM_TABLES,
        hashes.len() <= usize::MAX,
        forall|u: int|
            0 <= u < NUM_TABLES ==> #[trigger] tables[u] == Seq::new(
                hashes.len(),
                |i: int| (sub_key(hashes[i], u), i as usize),
            ),
    ensures
        hits(tables, h, idx, t) == if idx < hashes.len() {
            shared_bands(h, hashes[idx as int], t)
        } else {
            0
        },
    decreases t,
{
    if t > 0 {
        lemma_hits_built(tables, hashes, h, idx, t - 1);
        assert(tables[t - 1] == Seq::new(
            hashes.len(),
            |i: int| (sub_key(hashes[i], t - 1), i as usize),
        ));
        lemma_matches_in_built(hashes, t - 1, sub_key(h, t - 1), idx, hashes.len() as int);
    }
}

/// The index built from `hashes` counts, for key `h` and index `i`, one hit
/// per band in which `h` and `hashes[i]` agree, and none for an index past
/// the list: a query lists exactly the fingerprints that share a bucket
/// with the query in some table.
pub proof fn lemma_built_index_hits(r: SpectralHash, hashes: Seq<u128>, h: u128, idx: usize)
    requires
        hashes.len() <= usize::MAX,
        r.tables@.len() == NUM_TABLES,
        forall|t: int|
            0 <= t < NUM_TABLES ==> #[trigger] r.tables_view()[t] == Seq::new(
                hashes.len(),
                |i: int| (sub_key(hashes[i], t), i as usize),
            ),
    ensures
        r.hit_count(h, idx) == if idx < hashes.len() {
            shared_bands(h, hashes[idx as int], NUM_TABLES as int)
        } else {
            0
        },
{
    lemma_hits_built(r.tables_view(), hashes, h, idx, NUM_TABLES as int);
}

impl Default for SpectralHash {
    fn default() -> (r: Self)
        ensures
            r.tables@.len() == NUM_TABLES,
            r.tables_view() == Seq::new(NUM_TABLES as nat, |t: int| Seq::<(u128, usize)>::empty()),
    {
        Self::new()
    }
}

} // verus!
