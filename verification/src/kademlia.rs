//! The routing table: identifier distance, buckets, insertion with
//! splitting, and proximity lookup.

use crate::bits::{leading_zeros_u128, lemma_lz128_bounds, lz128};
use vstd::prelude::*;

verus! {

/// Identifier of a node in the overlay network.
pub type NodeID = u128;

/// A lookup key; keys share the identifier space of nodes.
pub type Key = u128;

/// A stored payload, as the RPC surface speaks of it.
pub type Value = Vec<u8>;

/// Transport-level port of a peer.
pub type NodePort = usize;

/// Network address of a peer, modeled as plain address bytes; the transport
/// layer owns the conversion to its own socket types.
#[derive(Debug, PartialEq, Eq, Copy, Clone, Structural)]
pub enum NodeAddress {
    V4(u8, u8, u8, u8),
    V6(u16, u16, u16, u16, u16, u16, u16, u16),
}

/// What the table knows of one peer. An immutable value; equal when all
/// three fields are equal.
#[derive(Debug, PartialEq, Eq, Copy, Clone, Structural)]
pub struct NodeDescription {
    pub id: NodeID,
    pub address: NodeAddress,
    pub port: NodePort,
}

impl NodeDescription {
    /// A placeholder peer on the loopback address, for tests and examples.
    pub fn _dummy(id: NodeID) -> (r: NodeDescription)
        ensures
            r == (NodeDescription { id, address: NodeAddress::V4(127, 0, 0, 1), port: 5000 }),
    {
        NodeDescription { id, address: NodeAddress::V4(127, 0, 0, 1), port: 5000 }
    }
}

impl Default for NodeDescription {
    fn default() -> (r: Self)
        ensures
            r == (NodeDescription {
                id: 0,
                address: NodeAddress::V4(127, 0, 0, 1),
                port: 5000,
            }),
    {
        NodeDescription { id: 0, address: NodeAddress::V4(127, 0, 0, 1), port: 5000 }
    }
}

/// The RPC surface of a Kademlia node; implemented by the protocol layer
/// that feeds peer observations into the routing table.
pub trait KademliaNode {
    fn find_node(key: Key);

    fn find_value(key: Key);

    fn store(key: Key, val: Value);

    fn ping(node: NodeID);
}

/// XOR distance between two identifiers.
pub open spec fn spec_iddiff(a: NodeID, b: NodeID) -> NodeID {
    a ^ b
}

/// Raw bucket index of `b` as seen from `a`: how many leading zeros the
/// distance has beyond the `128 - key_space` that every in-space distance
/// shares. Closer peers get higher indices.
pub open spec fn spec_bucket_index(a: NodeID, b: NodeID, key_space: usize) -> int {
    lz128(spec_iddiff(a, b)) - (128 - key_space)
}

/// Whether the distance between `a` and `b` stays within a logical address
/// space of `key_space` bits, so that the raw bucket index is not negative.
pub open spec fn fits_key_space(a: NodeID, b: NodeID, key_space: usize) -> bool {
    lz128(spec_iddiff(a, b)) >= 128 - key_space
}

/// A raw bucket index folded into a table that has only `limit` buckets.
pub open spec fn spec_clamp(bucket: int, limit: int) -> int {
    if bucket >= limit {
        limit - 1
    } else {
        bucket
    }
}

/// Law: the XOR distance is symmetric, and zero exactly on equal
/// identifiers (in particular on any identifier paired with itself).
pub proof fn lemma_distance_symmetric(a: NodeID, b: NodeID)
    ensures
        spec_iddiff(a, b) == spec_iddiff(b, a),
        spec_iddiff(a, a) == 0,
        spec_iddiff(a, b) == 0 <==> a == b,
{
    assert(a ^ b == b ^ a) by (bit_vector);
    assert(a ^ a == 0) by (bit_vector);
    assert((a ^ b == 0) <==> a == b) by (bit_vector);
}

/// XOR distance between two identifiers.
pub fn iddiff(a: &NodeID, b: &NodeID) -> (r: NodeID)
    ensures
        r == spec_iddiff(*a, *b),
{
    *a ^ *b
}

/// Raw bucket index of `b` as seen from `a` under a `key_space`-bit logical
/// address space: `key_space` itself for `a == b`, otherwise below
/// `key_space`.
pub fn bucket_id(a: &NodeID, b: &NodeID, key_space: usize) -> (r: usize)
    requires
        1 <= key_space <= 128,
        fits_key_space(*a, *b, key_space),
    ensures
        r == spec_bucket_index(*a, *b, key_space),
        r <= key_space,
        *a != *b ==> r < key_space,
{
    let distance = iddiff(a, b);
    proof {
        lemma_lz128_bounds(distance);
        lemma_distance_symmetric(*a, *b);
    }
    let base_line: u32 = 128 - (key_space as u32);
    let lz = leading_zeros_u128(distance);
    (lz - base_line) as usize
}

/// Folds a raw bucket index into the `limit` buckets the table has so far:
/// indices beyond the end land in the last, catch-all bucket.
pub fn constrain_bucket(bucket: usize, limit: usize) -> (r: usize)
    requires
        limit >= 1,
    ensures
        r == spec_clamp(bucket as int, limit as int),
        r < limit,
{
    if bucket >= limit {
        limit - 1
    } else {
        bucket
    }
}

/// How an insert ended: the peer was appended to a bucket with room, dropped
/// because a full bucket may not split, or appended after a split grew the
/// table.
#[derive(Debug, PartialEq, Eq, Copy, Clone, Structural)]
pub enum InsertOutcome {
    Inserted,
    Rejected,
    Split,
}

/// What the routing table can fail with.
#[derive(Debug, PartialEq, Eq, Copy, Clone, Structural)]
pub enum TableError {
    /// A table was asked for with no bucket classes or no bucket capacity.
    InvalidConfiguration,
    /// A split made no room for the peer that triggered it.
    RoutingInvariantViolation,
}

/// One bucket: peers of one proximity class, in insertion order.
pub type Neighborhood = Vec<NodeDescription>;

/// The routing table: the local node's identifier, the bucket capacity
/// `kay`, the logical address-space width, and the buckets themselves,
/// growable at the near end only.
#[derive(Debug)]
pub struct VectorRoutingTable {
    pub id: NodeID,
    pub key_space: usize,
    pub kay: usize,
    pub hoods: Vec<Neighborhood>,
}

impl Default for VectorRoutingTable {
    fn default() -> (r: Self)
        ensures
            r.id == 0,
            r.key_space == 0,
            r.kay == 0,
            r.hoods@.len() == 0,
    {
        VectorRoutingTable { id: 0, key_space: 0, kay: 0, hoods: Vec::new() }
    }
}

/// Total number of peers in the first `i` buckets.
pub open spec fn buckets_population(hoods: Seq<Neighborhood>, i: int) -> int
    decreases i,
{
    if i <= 0 {
        0
    } else {
        buckets_population(hoods, i - 1) + hoods[i - 1]@.len()
    }
}

proof fn lemma_buckets_population_nonneg(hoods: Seq<Neighborhood>, i: int)
    ensures
        buckets_population(hoods, i) >= 0,
    decreases i,
{
    if i > 0 {
        lemma_buckets_population_nonneg(hoods, i - 1);
    }
}

proof fn lemma_buckets_population_mono(hoods: Seq<Neighborhood>, i: int, j: int)
    requires
        i <= j,
    ensures
        buckets_population(hoods, i) <= buckets_population(hoods, j),
    decreases j - i,
{
    if i < j {
        lemma_buckets_population_mono(hoods, i, j - 1);
    }
}

/// Sequences that agree on their first `i` buckets hold the same first-`i`
/// population.
proof fn lemma_buckets_population_agree(h1: Seq<Neighborhood>, h2: Seq<Neighborhood>, i: int)
    requires
        forall|k: int| 0 <= k < i ==> h1[k] == h2[k],
    ensures
        buckets_population(h1, i) == buckets_population(h2, i),
    decreases i,
{
    if i > 0 {
        lemma_buckets_population_agree(h1, h2, i - 1);
    }
}

/// Replacing bucket `t` changes the population by the change in that one
/// bucket's length.
proof fn lemma_buckets_population_update(hoods: Seq<Neighborhood>, t: int, b: Neighborhood, i: int)
    requires
        0 <= t < hoods.len(),
        i <= hoods.len(),
    ensures
        buckets_population(hoods.update(t, b), i) == buckets_population(hoods, i) + if t < i {
            b@.len() - hoods[t]@.len()
        } else {
            0
        },
    decreases i,
{
    if i > 0 {
        lemma_buckets_population_update(hoods, t, b, i - 1);
    }
}

/// The view of one bucket, as a function value shared by the lookup specs.
pub open spec fn bucket_views() -> spec_fn(Neighborhood) -> Seq<NodeDescription> {
    |b: Neighborhood| b@
}

/// Membership test for one proximity class: does `self_id` compute bucket
/// index `i` for a peer?
pub open spec fn bucket_pred(self_id: NodeID, key_space: usize, i: int) -> spec_fn(
    NodeDescription,
) -> bool {
    |p: NodeDescription| spec_bucket_index(self_id, p.id, key_space) == i
}

/// The peers of `s` whose computed bucket index is `i`, in their original
/// order: what a split hands to bucket `i`.
pub open spec fn regroup(
    s: Seq<NodeDescription>,
    self_id: NodeID,
    key_space: usize,
    i: int,
) -> Seq<NodeDescription> {
    s.filter(bucket_pred(self_id, key_space, i))
}

/// The largest bucket index computed for any peer of `s`: how far a split
/// must grow the table.
pub open spec fn max_bucket_index(s: Seq<NodeDescription>, self_id: NodeID, key_space: usize) -> int
    decreases s.len(),
{
    if s.len() <= 1 {
        spec_bucket_index(self_id, s[0].id, key_space)
    } else {
        let rest = max_bucket_index(s.drop_last(), self_id, key_space);
        let v = spec_bucket_index(self_id, s.last().id, key_space);
        if v > rest {
            v
        } else {
            rest
        }
    }
}

proof fn lemma_max_bucket_index_ge(s: Seq<NodeDescription>, self_id: NodeID, key_space: usize, j: int)
    requires
        0 <= j < s.len(),
    ensures
        spec_bucket_index(self_id, s[j].id, key_space) <= max_bucket_index(s, self_id, key_space),
    decreases s.len(),
{
    if s.len() > 1 && j < s.len() - 1 {
        lemma_max_bucket_index_ge(s.drop_last(), self_id, key_space, j);
        assert(s.drop_last()[j] == s[j]);
    }
}

/// A table whose catch-all bucket was redistributed into its proximity
/// classes is well formed again.
proof fn lemma_regrouped_wf(
    o: VectorRoutingTable,
    f: VectorRoutingTable,
    last0: Seq<NodeDescription>,
    c: int,
)
    requires
        o.wf(),
        f.id == o.id,
        f.key_space == o.key_space,
        f.kay == o.kay,
        last0 == o.hoods@[o.hoods@.len() - 1]@,
        last0.len() >= 1,
        c == max_bucket_index(last0, o.id, o.key_space),
        c <= o.key_space - 1,
        f.hoods@.len() == c + 1,
        forall|i: int| 0 <= i < o.hoods@.len() - 1 ==> f.hoods@[i] == o.hoods@[i],
        forall|i: int|
            o.hoods@.len() - 1 <= i <= c ==> (#[trigger] f.hoods@[i])@ == regroup(
                last0,
                o.id,
                o.key_space,
                i,
            ),
    ensures
        f.wf(),
{
    let lb = o.hoods@.len() - 1;
    lemma_max_bucket_index_ge(last0, o.id, o.key_space, 0);
    assert(o.bucket_of(last0[0].id) >= lb);
    assert(c >= lb);
    assert forall|i: int| 0 <= i < f.hoods@.len() implies (#[trigger] f.hoods@[i])@.len()
        <= f.kay by {
        if i >= lb {
            last0.lemma_filter_len(bucket_pred(o.id, o.key_space, i));
        }
    };
    assert forall|i: int, j: int|
        0 <= i < f.hoods@.len() && 0 <= j < f.hoods@[i]@.len() implies f.admissible_peer(
        #[trigger] f.hoods@[i]@[j],
    ) by {
        if i < lb {
            assert(o.admissible_peer(o.hoods@[i]@[j]));
        } else {
            let p = bucket_pred(o.id, o.key_space, i);
            let e = f.hoods@[i]@[j];
            assert(last0.filter(p)[j] == e);
            assert(last0.filter(p).contains(e));
            last0.lemma_filter_contains_rev(p, e);
            let k = choose|k: int| 0 <= k < last0.len() && last0[k] == e;
            assert(o.admissible_peer(o.hoods@[lb]@[k]));
        }
    };
    assert forall|i: int, j: int|
        0 <= i < f.last_index() && 0 <= j < f.hoods@[i]@.len() implies f.bucket_of(
        (#[trigger] f.hoods@[i]@[j]).id,
    ) == i by {
        if i < lb {
            assert(o.bucket_of(o.hoods@[i]@[j].id) == i);
        } else {
            let p = bucket_pred(o.id, o.key_space, i);
            last0.lemma_filter_pred(p, j);
        }
    };
    assert forall|j: int| 0 <= j < f.hoods@[f.last_index()]@.len() implies f.bucket_of(
        (#[trigger] f.hoods@[f.last_index()]@[j]).id,
    ) >= f.last_index() by {
        let p = bucket_pred(o.id, o.key_space, c);
        last0.lemma_filter_pred(p, j);
    };
}

impl VectorRoutingTable {
    /// The raw bucket index the table computes for an identifier.
    pub open spec fn bucket_of(self, id: NodeID) -> int {
        spec_bucket_index(self.id, id, self.key_space)
    }

    /// A peer the table may hold: not the local node itself, and within the
    /// table's logical address space.
    pub open spec fn admissible_peer(self, p: NodeDescription) -> bool {
        p.id != self.id && fits_key_space(self.id, p.id, self.key_space)
    }

    /// Index of the last, catch-all bucket.
    pub open spec fn last_index(self) -> int {
        self.hoods@.len() - 1
    }

    /// The table's invariant: a valid configuration, at least one and at
    /// most `key_space` buckets, no bucket over capacity, every peer
    /// admissible, every bucket but the last holding exactly the peers whose
    /// index it is, and the last bucket holding only peers at its index or
    /// beyond.
    pub open spec fn wf(self) -> bool {
        &&& 1 <= self.key_space <= 128
        &&& 1 <= self.kay
        &&& 1 <= self.hoods@.len() <= self.key_space
        &&& forall|i: int|
            0 <= i < self.hoods@.len() ==> (#[trigger] self.hoods@[i])@.len() <= self.kay
        &&& forall|i: int, j: int|
            0 <= i < self.hoods@.len() && 0 <= j < self.hoods@[i]@.len() ==> self.admissible_peer(
                #[trigger] self.hoods@[i]@[j],
            )
        &&& forall|i: int, j: int|
            0 <= i < self.last_index() && 0 <= j < self.hoods@[i]@.len() ==> self.bucket_of(
                (#[trigger] self.hoods@[i]@[j]).id,
            ) == i
        &&& forall|j: int|
            0 <= j < self.hoods@[self.last_index()]@.len() ==> self.bucket_of(
                (#[trigger] self.hoods@[self.last_index()]@[j]).id,
            ) >= self.last_index()
    }

    /// Total number of peers the table holds.
    pub open spec fn spec_population(self) -> int {
        buckets_population(self.hoods@, self.hoods@.len() as int)
    }

    /// The peers of buckets `start..end`, flattened in bucket order with
    /// insertion order kept inside each bucket.
    pub open spec fn spec_candidates_upto(self, start: int, end: int) -> Seq<NodeDescription> {
        self.hoods@.subrange(start, end).flat_map(bucket_views())
    }

    /// The peers of all buckets from `start` to the table's end.
    pub open spec fn spec_candidates(self, start: int) -> Seq<NodeDescription> {
        self.spec_candidates_upto(start, self.hoods@.len() as int)
    }

    /// What a lookup returns: the candidates from the key's bucket to the
    /// table's end, cut down to the first `kay`.
    pub open spec fn spec_lookup(self, key: Key) -> Seq<NodeDescription> {
        let start = spec_clamp(self.bucket_of(key), self.hoods@.len() as int);
        let flat = self.spec_candidates(start);
        if flat.len() <= self.kay {
            flat
        } else {
            flat.take(self.kay as int)
        }
    }

    /// Builds a table of one empty bucket around `id`; rejects a
    /// configuration with no bucket classes or no bucket capacity.
    pub fn new(id: NodeID, key_space: usize, kay: usize) -> (r: Result<VectorRoutingTable, TableError>)
        requires
            key_space <= 128,
        ensures
            key_space == 0 || kay == 0 ==> (r matches Err(e) && e
                == TableError::InvalidConfiguration),
            key_space >= 1 && kay >= 1 ==> (r matches Ok(t) && {
                &&& t.id == id
                &&& t.key_space == key_space
                &&& t.kay == kay
                &&& t.hoods@.len() == 1
                &&& t.hoods@[0]@.len() == 0
                &&& t.wf()
                &&& t.spec_population() == 0
            }),
    {
        if key_space == 0 || kay == 0 {
            return Err(TableError::InvalidConfiguration);
        }
        let mut hoods: Vec<Neighborhood> = Vec::with_capacity(key_space);
        hoods.push(Vec::new());
        let t = VectorRoutingTable { id, key_space, kay, hoods };
        proof {
            assert(t.hoods@.len() == 1);
            assert(t.hoods@[0]@.len() == 0);
            assert(t.spec_population() == 0) by {
                assert(buckets_population(t.hoods@, 1) == buckets_population(t.hoods@, 0)
                    + t.hoods@[0]@.len());
            };
        }
        Ok(t)
    }

    /// Lengths of all buckets, in bucket order.
    pub fn _pop_by_hood(&self) -> (r: Vec<usize>)
        ensures
            r@.len() == self.hoods@.len(),
            forall|i: int| 0 <= i < r@.len() ==> r@[i] == (#[trigger] self.hoods@[i])@.len(),
    {
        let mut sizes: Vec<usize> = Vec::new();
        let mut i: usize = 0;
        while i < self.hoods.len()
            invariant
                i <= self.hoods@.len(),
                sizes@.len() == i,
                forall|k: int| 0 <= k < i ==> sizes@[k] == (#[trigger] self.hoods@[k])@.len(),
            decreases self.hoods@.len() - i,
        {
            sizes.push(self.hoods[i].len());
            i += 1;
        }
        sizes
    }

    /// The bucket capacity and lookup bound.
    pub fn kay(&self) -> (r: usize)
        ensures
            r == self.kay,
    {
        self.kay
    }

    /// Sum of all bucket lengths.
    #[verifier::loop_isolation(false)]
    pub fn population(&self) -> (r: usize)
        requires
            self.spec_population() <= usize::MAX,
        ensures
            r as int == self.spec_population(),
    {
        let mut total: usize = 0;
        let mut i: usize = 0;
        while i < self.hoods.len()
            invariant
                i <= self.hoods@.len(),
                total as int == buckets_population(self.hoods@, i as int),
            decreases self.hoods@.len() - i,
        {
            proof {
                lemma_buckets_population_mono(self.hoods@, i + 1, self.hoods@.len() as int);
                lemma_buckets_population_nonneg(self.hoods@, i as int);
            }
            total = total + self.hoods[i].len();
            i += 1;
        }
        total
    }

    /// Collects up to `kay` peers near `key`: the buckets from the key's own
    /// class to the table's end, flattened in bucket order with insertion
    /// order kept, then truncated. The result approximates proximity; it is
    /// not re-sorted by exact distance to `key`. An empty or short result
    /// means local knowledge is exhausted, not an error.
    #[verifier::loop_isolation(false)]
    pub fn lookup(&self, key: Key) -> (r: Neighborhood)
        requires
            self.wf(),
            fits_key_space(self.id, key, self.key_space),
        ensures
            r@ == self.spec_lookup(key),
            r@.len() <= self.kay,
    {
        let bucket = bucket_id(&self.id, &key, self.key_space);
        let start_at = constrain_bucket(bucket, self.hoods.len());
        let ghost start = start_at as int;
        let kayv = self.kay;
        let mut result: Neighborhood = Vec::new();
        let mut i = start_at;
        proof {
            assert(self.hoods@.subrange(start, start) =~= Seq::<Neighborhood>::empty());
            assert(self.spec_candidates_upto(start, start) =~= Seq::<NodeDescription>::empty());
        }
        while i < self.hoods.len() && result.len() < kayv
            invariant
                start <= i as int <= self.hoods@.len(),
                result@.len() <= self.kay,
                result@.len() < self.kay ==> result@ == self.spec_candidates_upto(start, i as int),
                result@.len() == self.kay ==> self.spec_candidates_upto(start, i as int).len()
                    >= self.kay && result@ == self.spec_candidates_upto(start, i as int).take(
                    self.kay as int,
                ),
            decreases self.hoods@.len() - i,
        {
            let ghost gpre = self.spec_candidates_upto(start, i as int);
            let blen = self.hoods[i].len();
            let mut j: usize = 0;
            proof {
                assert(self.hoods@[i as int]@.take(0) =~= Seq::<NodeDescription>::empty());
                assert(result@ =~= gpre + self.hoods@[i as int]@.take(0));
            }
            while j < blen && result.len() < kayv
                invariant
                    j as int <= self.hoods@[i as int]@.len(),
                    blen == self.hoods@[i as int]@.len(),
                    start <= i as int,
                    (i as int) < self.hoods@.len(),
                    result@.len() <= self.kay,
                    result@ == gpre + self.hoods@[i as int]@.take(j as int),
                decreases blen - j,
            {
                result.push(self.hoods[i][j]);
                proof {
                    assert(result@ =~= gpre + self.hoods@[i as int]@.take(j as int + 1));
                }
                j += 1;
            }
            proof {
                let bview = self.hoods@[i as int]@;
                assert(self.hoods@.subrange(start, i as int + 1) =~= self.hoods@.subrange(
                    start,
                    i as int,
                ).push(self.hoods@[i as int]));
                self.hoods@.subrange(start, i as int).lemma_flat_map_push(
                    bucket_views(),
                    self.hoods@[i as int],
                );
                assert(bucket_views()(self.hoods@[i as int]) == bview);
                assert(self.spec_candidates_upto(start, i as int + 1) == gpre + bview);
                if j == blen {
                    assert(bview.take(j as int) =~= bview);
                    assert(result@ == self.spec_candidates_upto(start, i as int + 1));
                } else {
                    assert(result@.len() == self.kay);
                    assert(result@ =~= (gpre + bview).take(self.kay as int));
                }
            }
            i += 1;
        }
        proof {
            let full = self.spec_candidates(start);
            if i as int == self.hoods@.len() {
                assert(full == self.spec_candidates_upto(start, i as int));
            } else {
                assert(result@.len() == self.kay);
                let upto = self.spec_candidates_upto(start, i as int);
                assert(self.hoods@.subrange(start, self.hoods@.len() as int) =~= self.hoods@.subrange(
                    start,
                    i as int,
                ) + self.hoods@.subrange(i as int, self.hoods@.len() as int));
                assert(self.hoods@.subrange(start, self.hoods@.len() as int).map_values(bucket_views())
                    =~= self.hoods@.subrange(start, i as int).map_values(bucket_views())
                    + self.hoods@.subrange(i as int, self.hoods@.len() as int).map_values(
                    bucket_views(),
                ));
                vstd::seq_lib::lemma_flatten_concat(
                    self.hoods@.subrange(start, i as int).map_values(bucket_views()),
                    self.hoods@.subrange(i as int, self.hoods@.len() as int).map_values(
                        bucket_views(),
                    ),
                );
                assert(full.len() >= upto.len());
                assert(full.take(self.kay as int) =~= upto.take(self.kay as int));
            }
        }
        result
    }

    /// Files a newly observed peer. The common case appends it to the bucket
    /// its distance selects. A full bucket other than the last rejects the
    /// peer; a full last bucket is split: its peers are regrouped by their
    /// recomputed indices, the table grows up to the farthest such index, and
    /// the peer is then appended to its own bucket — unless even the split
    /// left no room there, which is reported as a violation and drops the
    /// peer (the split itself is kept).
    ///
    /// The contract carries the table's laws: an accepted insert (`Inserted`
    /// or `Split`) raises the population by exactly one and anything else
    /// leaves it unchanged, so over any call sequence the population equals
    /// the number of accepted inserts; the bucket count never decreases; and
    /// well-formedness — in particular, no bucket ever over capacity — is
    /// preserved.
    #[verifier::loop_isolation(false)]
    #[verifier::rlimit(60)]
    pub fn insert(&mut self, other: NodeDescription) -> (r: Result<InsertOutcome, TableError>)
        requires
            old(self).wf(),
            fits_key_space(old(self).id, other.id, old(self).key_space),
        ensures
            final(self).id == old(self).id,
            final(self).key_space == old(self).key_space,
            final(self).kay == old(self).kay,
            final(self).wf(),
            final(self).hoods@.len() >= old(self).hoods@.len(),
            (r == Ok::<InsertOutcome, TableError>(InsertOutcome::Inserted) || r
                == Ok::<InsertOutcome, TableError>(InsertOutcome::Split)) ==> final(self).spec_population()
                == old(self).spec_population() + 1,
            (r == Ok::<InsertOutcome, TableError>(InsertOutcome::Rejected) || r is Err) ==> final(self).spec_population()
                == old(self).spec_population(),
            ({
                let o = *old(self);
                let f = *final(self);
                let raw = o.bucket_of(other.id);
                let tgt = spec_clamp(raw, o.hoods@.len() as int);
                let lb = o.hoods@.len() - 1;
                &&& (other.id == o.id ==> r == Ok::<InsertOutcome, TableError>(
                    InsertOutcome::Rejected,
                ) && f.hoods == o.hoods)
                &&& (other.id != o.id && o.hoods@[tgt]@.len() < o.kay ==> {
                    &&& r == Ok::<InsertOutcome, TableError>(InsertOutcome::Inserted)
                    &&& f.hoods@.len() == o.hoods@.len()
                    &&& f.hoods@[tgt]@ == o.hoods@[tgt]@.push(other)
                    &&& (forall|i: int|
                        0 <= i < o.hoods@.len() && i != tgt ==> f.hoods@[i] == o.hoods@[i])
                })
                &&& (other.id != o.id && o.hoods@[tgt]@.len() >= o.kay && tgt != lb ==> r
                    == Ok::<InsertOutcome, TableError>(InsertOutcome::Rejected) && f.hoods
                    == o.hoods)
                &&& (other.id != o.id && o.hoods@[tgt]@.len() >= o.kay && tgt == lb ==> {
                    let last0 = o.hoods@[lb]@;
                    let c = max_bucket_index(last0, o.id, o.key_space);
                    &&& f.hoods@.len() == c + 1
                    &&& (forall|i: int| 0 <= i < lb ==> f.hoods@[i] == o.hoods@[i])
                    &&& (raw <= c && regroup(last0, o.id, o.key_space, raw).len() < o.kay ==> {
                        &&& r == Ok::<InsertOutcome, TableError>(InsertOutcome::Split)
                        &&& f.hoods@[raw]@ == regroup(last0, o.id, o.key_space, raw).push(other)
                        &&& (forall|i: int|
                            lb <= i <= c && i != raw ==> (#[trigger] f.hoods@[i])@ == regroup(
                                last0,
                                o.id,
                                o.key_space,
                                i,
                            ))
                    })
                    &&& (!(raw <= c && regroup(last0, o.id, o.key_space, raw).len() < o.kay) ==> {
                        &&& r == Err::<InsertOutcome, TableError>(
                            TableError::RoutingInvariantViolation,
                        )
                        &&& (forall|i: int|
                            lb <= i <= c ==> (#[trigger] f.hoods@[i])@ == regroup(
                                last0,
                                o.id,
                                o.key_space,
                                i,
                            ))
                    })
                })
            }),
    {
        let ghost o = *old(self);
        if other.id == self.id {
            return Ok(InsertOutcome::Rejected);
        }
        let bucket = bucket_id(&self.id, &other.id, self.key_space);
        let initial_len = self.hoods.len();
        let last_bucket = initial_len - 1;
        let insert_at = constrain_bucket(bucket, initial_len);
        let ghost raw = bucket as int;
        let ghost tgt = insert_at as int;
        let ghost lbi = last_bucket as int;
        if self.hoods[insert_at].len() < self.kay {
            let mut b = self.hoods[insert_at].clone();
            proof {
                assert(b@ =~= o.hoods@[tgt]@);
            }
            b.push(other);
            let ghost bview = b@;
            self.hoods[insert_at] = b;
            proof {
                lemma_buckets_population_update(o.hoods@, tgt, self.hoods@[tgt], o.hoods@.len() as int);
                let f = *self;
                assert forall|i: int| 0 <= i < f.hoods@.len() implies (#[trigger] f.hoods@[i])@.len()
                    <= f.kay by {};
                assert forall|i: int, j: int|
                    0 <= i < f.hoods@.len() && 0 <= j < f.hoods@[i]@.len()
                    implies f.admissible_peer(#[trigger] f.hoods@[i]@[j]) by {
                    if i == tgt && j == f.hoods@[i]@.len() - 1 {
                    } else {
                        assert(o.admissible_peer(o.hoods@[i]@[j]));
                    }
                };
                assert forall|i: int, j: int|
                    0 <= i < f.last_index() && 0 <= j < f.hoods@[i]@.len() implies f.bucket_of(
                    (#[trigger] f.hoods@[i]@[j]).id,
                ) == i by {
                    if i == tgt && j == f.hoods@[i]@.len() - 1 {
                        assert(tgt < lbi ==> raw == tgt);
                    } else {
                        assert(o.bucket_of(o.hoods@[i]@[j].id) == i);
                    }
                };
                assert forall|j: int| 0 <= j < f.hoods@[f.last_index()]@.len() implies f.bucket_of(
                    (#[trigger] f.hoods@[f.last_index()]@[j]).id,
                ) >= f.last_index() by {
                    if tgt == lbi && j == f.hoods@[lbi]@.len() - 1 {
                        assert(raw >= lbi);
                    } else {
                        assert(o.bucket_of(o.hoods@[lbi]@[j].id) >= lbi);
                    }
                };
                assert(f.wf());
            }
            Ok(InsertOutcome::Inserted)
        } else if insert_at != last_bucket {
            Ok(InsertOutcome::Rejected)
        } else {
            // Split: regroup the catch-all bucket's peers by recomputed index.
            let last = self.hoods[last_bucket].clone();
            let ghost last0 = last@;
            proof {
                assert(last0 =~= o.hoods@[lbi]@);
                assert(o.admissible_peer(o.hoods@[lbi]@[0]));
            }
            let p0 = last[0];
            let mut closest = bucket_id(&self.id, &p0.id, self.key_space);
            proof {
                assert(last0.take(1).len() == 1);
                assert(last0.take(1)[0] == last0[0]);
                assert(closest as int == max_bucket_index(last0.take(1), o.id, o.key_space));
            }
            let mut j: usize = 1;
            while j < last.len()
                invariant
                    1 <= j <= last0.len(),
                    closest as int == max_bucket_index(last0.take(j as int), o.id, o.key_space),
                    closest < o.key_space,
                decreases last0.len() - j,
            {
                let pj = last[j];
                proof {
                    assert(pj == last0[j as int]);
                    assert(o.admissible_peer(o.hoods@[lbi]@[j as int]));
                }
                let bj = bucket_id(&self.id, &pj.id, self.key_space);
                proof {
                    let t1 = last0.take(j as int + 1);
                    assert(t1.drop_last() =~= last0.take(j as int));
                    assert(t1.last() == last0[j as int]);
                    assert(max_bucket_index(t1, o.id, o.key_space) == if bj as int
                        > max_bucket_index(last0.take(j as int), o.id, o.key_space) {
                        bj as int
                    } else {
                        max_bucket_index(last0.take(j as int), o.id, o.key_space)
                    });
                }
                if bj > closest {
                    closest = bj;
                }
                j += 1;
            }
            let ghost c = closest as int;
            proof {
                assert(last0.take(last0.len() as int) =~= last0);
                assert(c == max_bucket_index(last0, o.id, o.key_space));
                lemma_max_bucket_index_ge(last0, o.id, o.key_space, 0);
                assert(o.bucket_of(last0[0].id) >= lbi);
                assert(c >= lbi);
            }
            // Empty the old catch-all slot and grow the table with empty
            // buckets up to the farthest recomputed index.
            self.hoods[last_bucket] = Vec::new();
            proof {
                lemma_buckets_population_update(
                    o.hoods@,
                    lbi,
                    self.hoods@[lbi],
                    o.hoods@.len() as int,
                );
                assert(buckets_population(self.hoods@, self.hoods@.len() as int)
                    == buckets_population(o.hoods@, lbi));
            }
            while self.hoods.len() <= closest
                invariant
                    lbi + 1 <= self.hoods@.len() <= c + 1,
                    self.id == o.id,
                    self.key_space == o.key_space,
                    self.kay == o.kay,
                    forall|i: int| 0 <= i < lbi ==> self.hoods@[i] == o.hoods@[i],
                    forall|i: int|
                        lbi <= i < self.hoods@.len() ==> (#[trigger] self.hoods@[i])@.len() == 0,
                    buckets_population(self.hoods@, self.hoods@.len() as int)
                        == buckets_population(o.hoods@, lbi),
                decreases c + 1 - self.hoods@.len(),
            {
                let ghost hpre = self.hoods@;
                self.hoods.push(Vec::new());
                proof {
                    lemma_buckets_population_agree(self.hoods@, hpre, hpre.len() as int);
                }
            }
            // Redistribute the old catch-all peers, in their stored order.
            let mut j: usize = 0;
            while j < last.len()
                invariant
                    0 <= j <= last0.len(),
                    self.hoods@.len() == c + 1,
                    self.id == o.id,
                    self.key_space == o.key_space,
                    self.kay == o.kay,
                    forall|i: int| 0 <= i < lbi ==> self.hoods@[i] == o.hoods@[i],
                    forall|i: int|
                        lbi <= i <= c ==> (#[trigger] self.hoods@[i])@ == regroup(
                            last0.take(j as int),
                            o.id,
                            o.key_space,
                            i,
                        ),
                    buckets_population(self.hoods@, self.hoods@.len() as int)
                        == buckets_population(o.hoods@, lbi) + j,
                decreases last0.len() - j,
            {
                let ghost hpre = self.hoods@;
                let pj = last[j];
                proof {
                    assert(pj == last0[j as int]);
                    assert(o.admissible_peer(o.hoods@[lbi]@[j as int]));
                }
                let t = bucket_id(&self.id, &pj.id, self.key_space);
                proof {
                    lemma_max_bucket_index_ge(last0, o.id, o.key_space, j as int);
                    assert(o.bucket_of(o.hoods@[lbi]@[j as int].id) >= lbi);
                    assert(lbi <= t as int <= c);
                }
                let mut b = self.hoods[t].clone();
                proof {
                    assert(b@ =~= regroup(last0.take(j as int), o.id, o.key_space, t as int));
                }
                b.push(pj);
                self.hoods[t] = b;
                proof {
                    let tj = last0.take(j as int);
                    let tj1 = last0.take(j as int + 1);
                    assert(tj1 =~= tj.push(pj));
                    assert forall|i: int| lbi <= i <= c implies (#[trigger] self.hoods@[i])@
                        == regroup(tj1, o.id, o.key_space, i) by {
                        let p = bucket_pred(o.id, o.key_space, i);
                        tj.lemma_filter_push(pj, p);
                        if i == t as int {
                            assert(p(pj));
                        } else {
                            assert(!p(pj));
                            assert(self.hoods@[i] == hpre[i]);
                        }
                    };
                    lemma_buckets_population_update(hpre, t as int, self.hoods@[t as int], c + 1);
                }
                j += 1;
            }
            proof {
                assert(last0.take(last0.len() as int) =~= last0);
            }
            // Room for the peer that triggered the split?
            if bucket < self.hoods.len() && self.hoods[bucket].len() < self.kay {
                let ghost hpre = self.hoods@;
                let mut b = self.hoods[bucket].clone();
                proof {
                    assert(b@ =~= regroup(last0, o.id, o.key_space, raw));
                }
                b.push(other);
                self.hoods[bucket] = b;
                proof {
                    lemma_buckets_population_update(hpre, raw, self.hoods@[raw], c + 1);
                    let f = *self;
                    assert(o.hoods@[lbi]@.len() == o.kay);
                    assert forall|i: int| 0 <= i < f.hoods@.len() implies (#[trigger] f.hoods@[i])@.len()
                        <= f.kay by {
                        if i < lbi {
                            assert(f.hoods@[i] == o.hoods@[i]);
                            assert((o.hoods@[i])@.len() <= o.kay);
                        } else if i == raw {
                            assert(f.hoods@[raw]@ == hpre[raw]@.push(other));
                            assert(hpre[raw]@ == regroup(last0, o.id, o.key_space, raw));
                        } else {
                            last0.lemma_filter_len(bucket_pred(o.id, o.key_space, i));
                        }
                    };
                    assert forall|i: int, j2: int|
                        0 <= i < f.hoods@.len() && 0 <= j2 < f.hoods@[i]@.len()
                        implies f.admissible_peer(#[trigger] f.hoods@[i]@[j2]) by {
                        if i < lbi {
                            assert(o.admissible_peer(o.hoods@[i]@[j2]));
                        } else if i == raw && j2 == f.hoods@[i]@.len() - 1 {
                        } else {
                            let p = bucket_pred(o.id, o.key_space, i);
                            let e = f.hoods@[i]@[j2];
                            assert(last0.filter(p)[j2] == e);
                            assert(last0.filter(p).contains(e));
                            last0.lemma_filter_contains_rev(p, e);
                            let k = choose|k: int| 0 <= k < last0.len() && last0[k] == e;
                            assert(o.admissible_peer(o.hoods@[lbi]@[k]));
                        }
                    };
                    assert forall|i: int, j2: int|
                        0 <= i < f.last_index() && 0 <= j2 < f.hoods@[i]@.len() implies f.bucket_of(
                        (#[trigger] f.hoods@[i]@[j2]).id,
                    ) == i by {
                        if i < lbi {
                            assert(o.bucket_of(o.hoods@[i]@[j2].id) == i);
                        } else if i == raw && j2 == f.hoods@[i]@.len() - 1 {
                        } else {
                            let p = bucket_pred(o.id, o.key_space, i);
                            last0.lemma_filter_pred(p, j2);
                        }
                    };
                    assert forall|j2: int| 0 <= j2 < f.hoods@[f.last_index()]@.len()
                        implies f.bucket_of((#[trigger] f.hoods@[f.last_index()]@[j2]).id)
                        >= f.last_index() by {
                        if raw == c && j2 == f.hoods@[c]@.len() - 1 {
                        } else {
                            let p = bucket_pred(o.id, o.key_space, c);
                            last0.lemma_filter_pred(p, j2);
                        }
                    };
                    assert(f.wf());
                    assert(buckets_population(o.hoods@, o.hoods@.len() as int)
                        == buckets_population(o.hoods@, lbi) + o.hoods@[lbi]@.len());
                }
                Ok(InsertOutcome::Split)
            } else {
                proof {
                    let f = *self;
                    lemma_regrouped_wf(o, f, last0, c);
                    assert(buckets_population(o.hoods@, o.hoods@.len() as int)
                        == buckets_population(o.hoods@, lbi) + o.hoods@[lbi]@.len());
                    assert(o.hoods@[lbi]@.len() == o.kay);
                }
                Err(TableError::RoutingInvariantViolation)
            }
        }
    }
}

} // verus!
