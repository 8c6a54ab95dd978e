//! The cost of a schedule suffix while the parent's nonce bits are still open,
//! and the domains and scores of the schedule search.

use crate::checked::is_power_of_two;
use crate::error::AkitaError;
use crate::grinding::TRANSCRIPT_GRINDING_QUERY_LIMIT;
use crate::params::CommitmentRingDims;
use vstd::arithmetic::power2::*;
use vstd::prelude::*;

verus! {

/// The largest number of witness chunks that a layout may have.
pub const MAX_WITNESS_CHUNKS: usize = 64;

/// The bytes that bits take, rounded up.
pub open spec fn bit_bytes(bits: int) -> int {
    (bits + 7) / 8
}

/// The payload of a suffix, its nonce bits, which are packed together with those
/// of its parents, and its queries.
#[derive(Clone, Copy, Debug, PartialEq, Eq, Structural)]
pub struct PackedProofCost {
    pub payload_bytes: usize,
    pub nonce_bits: usize,
    pub query_count: u64,
}

impl PackedProofCost {
    /// The bytes of a proof whose parents leave some bits over.
    pub open spec fn bytes_after(self, remainder: int) -> int {
        self.payload_bytes + bit_bytes(self.nonce_bits + remainder)
    }

    /// Whether those bytes can be counted.
    pub open spec fn counts(self, remainder: int) -> bool {
        self.nonce_bits + remainder <= usize::MAX && self.bytes_after(remainder) <= usize::MAX
    }

    /// Whether a cost is one of a proof: its bytes can be counted and it stays
    /// below the query limit.
    pub open spec fn wf(self) -> bool {
        self.counts(0) && self.query_count < TRANSCRIPT_GRINDING_QUERY_LIMIT
    }

    /// The cost of a suffix.
    pub fn new(payload_bytes: usize, nonce_bits: usize, query_count: u64) -> (r: Result<
        Self,
        AkitaError,
    >)
        ensures
            ({
                let cost = PackedProofCost { payload_bytes, nonce_bits, query_count };
                match r {
                    Ok(c) => cost.wf() && c == cost,
                    Err(e) => !cost.wf() && e is InvalidSetup,
                }
            }),
    {
        let cost = PackedProofCost { payload_bytes, nonce_bits, query_count };
        if cost.checked_proof_bytes_with_parent_remainder(0).is_none() {
            return Err(AkitaError::setup("proof size does not fit"));
        }
        if query_count >= TRANSCRIPT_GRINDING_QUERY_LIMIT {
            return Err(AkitaError::setup("query count exceeds the limit"));
        }
        Ok(cost)
    }

    /// The bytes of a proof whose parents leave some bits over, if they can be
    /// counted.
    pub fn checked_proof_bytes_with_parent_remainder(&self, remainder: usize) -> (r: Option<usize>)
        ensures
            match r {
                Some(n) => self.counts(remainder as int) && n == self.bytes_after(
                    remainder as int,
                ),
                None => !self.counts(remainder as int),
            },
    {
        match self.nonce_bits.checked_add(remainder) {
            Some(bits) => {
                let bytes: usize = if bits % 8 == 0 {
                    bits / 8
                } else {
                    bits / 8 + 1
                };
                proof {
                    assert(bytes == bit_bytes(bits as int));
                }
                self.payload_bytes.checked_add(bytes)
            },
            None => None,
        }
    }

    /// The bytes of a proof without parents.
    pub fn proof_bytes(&self) -> (n: usize)
        requires
            self.wf(),
        ensures
            n == self.bytes_after(0),
    {
        match self.checked_proof_bytes_with_parent_remainder(0) {
            Some(n) => n,
            None => 0,
        }
    }

    /// Whether a suffix costs no more than another under every parent: it asks
    /// no more queries and, for every number of bits that a parent can leave
    /// over, both sizes exist and its own is not the larger one.
    pub open spec fn dominates(self, other: Self) -> bool {
        &&& self.query_count <= other.query_count
        &&& forall|r: int|
            #![trigger self.bytes_after(r)]
            0 <= r < 8 ==> self.counts(r) && other.counts(r) && self.bytes_after(r)
                <= other.bytes_after(r)
    }

    /// Whether a suffix costs less than another under every parent.
    pub open spec fn beats(self, other: Self) -> bool {
        &&& self.query_count <= other.query_count
        &&& forall|r: int|
            #![trigger self.bytes_after(r)]
            0 <= r < 8 ==> self.counts(r) && other.counts(r) && self.bytes_after(r)
                < other.bytes_after(r)
    }

    /// Whether this suffix costs no more than another under every parent.
    pub fn never_worse_for_every_parent(&self, other: Self) -> (b: bool)
        ensures
            b == self.dominates(other),
    {
        if self.query_count > other.query_count {
            return false;
        }
        let mut r: usize = 0;
        while r < 8
            invariant
                r <= 8,
                forall|k: int|
                    #![trigger self.bytes_after(k)]
                    0 <= k < r ==> self.counts(k) && other.counts(k) && self.bytes_after(k)
                        <= other.bytes_after(k),
            decreases 8 - r,
        {
            let ghost at = self.bytes_after(r as int);
            match (
                self.checked_proof_bytes_with_parent_remainder(r),
                other.checked_proof_bytes_with_parent_remainder(r),
            ) {
                (Some(own), Some(its)) => {
                    if own > its {
                        return false;
                    }
                },
                _ => {
                    return false;
                },
            }
            r += 1;
        }
        proof {
            assert(self.query_count <= other.query_count);
            assert forall|k: int|
                #![trigger self.bytes_after(k)]
                0 <= k < 8 implies self.counts(k) && other.counts(k) && self.bytes_after(k)
                <= other.bytes_after(k) by {
                assert(0 <= k < r);
            }
        }
        true
    }

    /// Whether this suffix costs less than another under every parent.
    pub fn strictly_better_for_every_parent(&self, other: Self) -> (b: bool)
        ensures
            b == self.beats(other),
    {
        if self.query_count > other.query_count {
            return false;
        }
        let mut r: usize = 0;
        while r < 8
            invariant
                r <= 8,
                forall|k: int|
                    #![trigger self.bytes_after(k)]
                    0 <= k < r ==> self.counts(k) && other.counts(k) && self.bytes_after(k)
                        < other.bytes_after(k),
            decreases 8 - r,
        {
            let ghost at = self.bytes_after(r as int);
            match (
                self.checked_proof_bytes_with_parent_remainder(r),
                other.checked_proof_bytes_with_parent_remainder(r),
            ) {
                (Some(own), Some(its)) => {
                    if own >= its {
                        return false;
                    }
                },
                _ => {
                    return false;
                },
            }
            r += 1;
        }
        proof {
            assert(self.query_count <= other.query_count);
            assert forall|k: int|
                #![trigger self.bytes_after(k)]
                0 <= k < 8 implies self.counts(k) && other.counts(k) && self.bytes_after(k)
                < other.bytes_after(k) by {
                assert(0 <= k < r);
            }
        }
        true
    }

    /// The cost of one more level before a suffix.
    pub open spec fn prepended(self, payload_bytes: int, nonce_bits: int, queries: int) -> (
        int,
        int,
        int,
    ) {
        (
            self.payload_bytes + payload_bytes,
            self.nonce_bits + nonce_bits,
            self.query_count + queries,
        )
    }

    /// The cost of one more level before this suffix. Sums that do not fit are
    /// an error; a sum that exhausts the query limit only rules the level out.
    pub fn checked_prepend(&self, payload_bytes: usize, nonce_bits: usize, queries: u64) -> (r:
        Result<Option<Self>, AkitaError>)
        ensures
            ({
                let (p, n, q) = self.prepended(
                    payload_bytes as int,
                    nonce_bits as int,
                    queries as int,
                );
                let fits = p + bit_bytes(n) <= usize::MAX && n <= usize::MAX && q <= u64::MAX;
                match r {
                    Ok(Some(cost)) => {
                        &&& fits
                        &&& q < TRANSCRIPT_GRINDING_QUERY_LIMIT
                        &&& cost.wf()
                        &&& cost == (PackedProofCost {
                            payload_bytes: p as usize,
                            nonce_bits: n as usize,
                            query_count: q as u64,
                        })
                    },
                    Ok(None) => fits && q >= TRANSCRIPT_GRINDING_QUERY_LIMIT,
                    Err(e) => !fits && e is InvalidSetup,
                }
            }),
    {
        let payload: Option<usize> = self.payload_bytes.checked_add(payload_bytes);
        let bits: Option<usize> = self.nonce_bits.checked_add(nonce_bits);
        let count: Option<u64> = self.query_count.checked_add(queries);
        match (payload, bits, count) {
            (Some(payload_bytes), Some(nonce_bits), Some(query_count)) => {
                let cost = PackedProofCost { payload_bytes, nonce_bits, query_count };
                if cost.checked_proof_bytes_with_parent_remainder(0).is_none() {
                    return Err(AkitaError::setup("proof size does not fit"));
                }
                if query_count >= TRANSCRIPT_GRINDING_QUERY_LIMIT {
                    return Ok(None);
                }
                Ok(Some(cost))
            },
            _ => Err(AkitaError::setup("proof cost does not fit")),
        }
    }
}

/// A suffix that dominates another still does behind one more level, wherever
/// both sizes can still be counted.
pub proof fn law_dominance_survives_prepending(
    a: PackedProofCost,
    b: PackedProofCost,
    payload_bytes: int,
    nonce_bits: int,
    remainder: int,
)
    requires
        a.dominates(b),
        0 <= payload_bytes,
        0 <= nonce_bits,
        0 <= remainder,
    ensures
        a.payload_bytes + payload_bytes + bit_bytes(a.nonce_bits + nonce_bits + remainder)
            <= b.payload_bytes + payload_bytes + bit_bytes(b.nonce_bits + nonce_bits + remainder),
{
    let r = (nonce_bits + remainder) % 8;
    let c = (nonce_bits + remainder) / 8;
    assert(a.bytes_after(r) <= b.bytes_after(r));
    assert(bit_bytes(a.nonce_bits + nonce_bits + remainder) == bit_bytes(a.nonce_bits + r) + c);
    assert(bit_bytes(b.nonce_bits + nonce_bits + remainder) == bit_bytes(b.nonce_bits + r) + c);
}

/// Domination is transitive.
pub proof fn law_dominance_is_transitive(
    a: PackedProofCost,
    b: PackedProofCost,
    c: PackedProofCost,
)
    requires
        a.dominates(b),
        b.dominates(c),
    ensures
        a.dominates(c),
{
    assert forall|r: int| #![trigger a.bytes_after(r)] 0 <= r < 8 implies a.counts(r) && c.counts(r)
        && a.bytes_after(r) <= c.bytes_after(r) by {
        assert(b.bytes_after(r) <= c.bytes_after(r));
    }
}

// ---------------------------------------------------------------------------
// Layout scores
// ---------------------------------------------------------------------------

/// Whether blocks do not share out evenly over chunks.
pub open spec fn imbalance(blocks: usize, chunks: usize) -> usize {
    if blocks % chunks == 0 {
        0
    } else {
        1
    }
}

/// Whether a layout can be scored: it has blocks, and its chunks are a power of
/// two within the limit.
pub open spec fn layout_scored(blocks: usize, chunks: usize) -> bool {
    &&& blocks > 0
    &&& 0 < chunks <= MAX_WITNESS_CHUNKS
    &&& is_pow2(chunks as int)
}

/// The score of a layout: its work with both passes over its blocks and the
/// imbalance of its chunks, and then these three as tie breaks.
pub fn layout_candidate_score(work: usize, blocks: usize, chunks: usize) -> (r: Result<
    (usize, usize, usize, usize),
    AkitaError,
>)
    ensures
        ({
            let total = work + 2 * blocks + imbalance(blocks, chunks);
            match r {
                Ok(score) => layout_scored(blocks, chunks) && score == (
                    total as usize,
                    work,
                    blocks,
                    imbalance(blocks, chunks),
                ) && total <= usize::MAX,
                Err(e) => (!layout_scored(blocks, chunks) || total > usize::MAX)
                    && e is InvalidSetup,
            }
        }),
{
    if blocks == 0 {
        return Err(AkitaError::setup("layout has no blocks"));
    }
    if chunks == 0 || chunks > MAX_WITNESS_CHUNKS || !is_power_of_two(chunks) {
        return Err(AkitaError::setup("chunk count is not supported"));
    }
    let uneven: usize = if blocks % chunks == 0 {
        0
    } else {
        1
    };
    let total: u128 = work as u128 + 2 * (blocks as u128) + uneven as u128;
    if total > usize::MAX as u128 {
        return Err(AkitaError::setup("layout score does not fit"));
    }
    Ok((total as usize, work, blocks, uneven))
}

// ---------------------------------------------------------------------------
// Dimension domains
// ---------------------------------------------------------------------------

/// Whether one triple of dimensions comes before another.
pub open spec fn dims_before(a: CommitmentRingDims, b: CommitmentRingDims) -> bool {
    a.inner < b.inner || (a.inner == b.inner && (a.outer < b.outer || (a.outer == b.outer
        && a.opening < b.opening)))
}

/// Whether the inner ring carries the other two: all are powers of two, and
/// neither of the others is larger.
pub open spec fn carries(d: CommitmentRingDims) -> bool {
    &&& d.outer <= d.inner
    &&& d.opening <= d.inner
    &&& d.inner > 0 && d.outer > 0 && d.opening > 0
    &&& is_pow2(d.inner as int)
    &&& is_pow2(d.outer as int)
    &&& is_pow2(d.opening as int)
}

/// The dimensions that a search ranges over, in order and without repetition.
#[derive(Clone, Debug, PartialEq, Eq)]
pub struct RingDimensionSearchDomain {
    pub candidates: Vec<CommitmentRingDims>,
}

/// Whether triples stand in order without repetition.
pub open spec fn dims_sorted(s: Seq<CommitmentRingDims>) -> bool {
    forall|i: int, j: int| 0 <= i < j < s.len() ==> dims_before(s[i], s[j])
}

fn is_before(a: &CommitmentRingDims, b: &CommitmentRingDims) -> (r: bool)
    ensures
        r == dims_before(*a, *b),
{
    a.inner < b.inner || (a.inner == b.inner && (a.outer < b.outer || (a.outer == b.outer
        && a.opening < b.opening)))
}

fn is_carrier(d: &CommitmentRingDims) -> (r: bool)
    ensures
        r == carries(*d),
{
    d.outer <= d.inner && d.opening <= d.inner && d.inner > 0 && d.outer > 0 && d.opening > 0
        && is_power_of_two(d.inner) && is_power_of_two(d.outer) && is_power_of_two(d.opening)
}

impl RingDimensionSearchDomain {
    /// The domain of some triples. Without any, and with one that its inner ring
    /// does not carry, there is none.
    pub fn new(dims: Vec<CommitmentRingDims>) -> (r: Result<Self, AkitaError>)
        ensures
            match r {
                Ok(domain) => {
                    &&& dims@.len() > 0
                    &&& forall|i: int| 0 <= i < dims@.len() ==> carries(#[trigger] dims@[i])
                    &&& dims_sorted(domain.candidates@)
                    &&& domain.candidates@.to_set() == dims@.to_set()
                },
                Err(e) => e is InvalidSetup && (dims@.len() == 0 || exists|i: int|
                    0 <= i < dims@.len() && !carries(#[trigger] dims@[i])),
            },
    {
        if dims.len() == 0 {
            return Err(AkitaError::setup("ring dimension domain is empty"));
        }
        let mut candidates: Vec<CommitmentRingDims> = Vec::new();
        let mut k: usize = 0;
        proof {
            assert(candidates@.to_set() =~= dims@.take(0).to_set());
        }
        while k < dims.len()
            invariant
                k <= dims@.len(),
                dims@.len() > 0,
                forall|i: int| 0 <= i < k ==> carries(#[trigger] dims@[i]),
                dims_sorted(candidates@),
                candidates@.to_set() == dims@.take(k as int).to_set(),
            decreases dims@.len() - k,
        {
            if !is_carrier(&dims[k]) {
                proof {
                    assert(!carries(dims@[k as int]));
                }
                return Err(AkitaError::setup("ring dimensions are not carried by the inner ring"));
            }
            insert_dims(&mut candidates, dims[k]);
            proof {
                let d = dims@[k as int];
                assert(dims@.take(k + 1) =~= dims@.take(k as int).push(d));
                lemma_push_to_set(dims@.take(k as int), d);
            }
            k += 1;
        }
        proof {
            assert(dims@.take(k as int) =~= dims@);
        }
        Ok(RingDimensionSearchDomain { candidates })
    }

    /// The triples.
    pub fn candidates(&self) -> (r: &Vec<CommitmentRingDims>)
        ensures
            r@ == self.candidates@,
    {
        &self.candidates
    }
}

proof fn lemma_push_to_set<A>(s: Seq<A>, a: A)
    ensures
        s.push(a).to_set() == s.to_set().insert(a),
{
    assert forall|x: A| s.push(a).to_set().contains(x) == s.to_set().insert(a).contains(x) by {
        if s.contains(x) {
            let i = choose|i: int| 0 <= i < s.len() && s[i] == x;
            assert(s.push(a)[i] == x);
        }
        if x == a {
            assert(s.push(a)[s.len() as int] == x);
        }
        if s.push(a).contains(x) && x != a {
            let i = choose|i: int| 0 <= i < s.push(a).len() && s.push(a)[i] == x;
            assert(s[i] == x);
        }
    }
    assert(s.push(a).to_set() =~= s.to_set().insert(a));
}

/// Puts a triple in its place unless it is there already.
fn insert_dims(sorted: &mut Vec<CommitmentRingDims>, d: CommitmentRingDims)
    requires
        dims_sorted(old(sorted)@),
    ensures
        dims_sorted(final(sorted)@),
        final(sorted)@.to_set() == old(sorted)@.to_set().insert(d),
{
    let ghost before = sorted@;
    let mut at: usize = 0;
    while at < sorted.len() && is_before(&sorted[at], &d)
        invariant
            sorted@ == before,
            at <= before.len(),
            forall|i: int| 0 <= i < at ==> dims_before(#[trigger] before[i], d),
        decreases before.len() - at,
    {
        at += 1;
    }
    if at < sorted.len() && sorted[at] == d {
        proof {
            assert(before[at as int] == d);
            assert(before.to_set().contains(d));
            assert(before.to_set() =~= before.to_set().insert(d));
        }
        return ;
    }
    sorted.insert(at, d);
    proof {
        let after = sorted@;
        if at < before.len() {
            assert(dims_before(d, before[at as int]));
        }
        assert forall|i: int, j: int| 0 <= i < j < after.len() implies dims_before(
            after[i],
            after[j],
        ) by {
            if i == at {
                assert(after[j] == before[j - 1]);
                if j - 1 > at {
                    assert(dims_before(before[at as int], before[j - 1]));
                }
            } else if j == at {
                assert(after[i] == before[i]);
            } else {
                let a = if i < at {
                    i
                } else {
                    i - 1
                };
                let b = if j < at {
                    j
                } else {
                    j - 1
                };
                assert(after[i] == before[a] && after[j] == before[b]);
            }
        }
        assert forall|x: CommitmentRingDims|
            after.to_set().contains(x) == before.to_set().insert(d).contains(x) by {
            if before.contains(x) {
                let i = choose|i: int| 0 <= i < before.len() && before[i] == x;
                if i < at {
                    assert(after[i] == x);
                } else {
                    assert(after[i + 1] == x);
                }
            }
            if x == d {
                assert(after[at as int] == x);
            }
            if after.contains(x) && x != d {
                let i = choose|i: int| 0 <= i < after.len() && after[i] == x;
                if i < at {
                    assert(before[i] == x);
                } else {
                    assert(before[i - 1] == x);
                }
            }
        }
        assert(after.to_set() =~= before.to_set().insert(d));
    }
}

/// Domains of the same triples are the same.
pub proof fn law_domain_is_canonical(a: Seq<CommitmentRingDims>, b: Seq<CommitmentRingDims>)
    requires
        dims_sorted(a),
        dims_sorted(b),
        a.to_set() == b.to_set(),
    ensures
        a == b,
    decreases a.len(),
{
    if a.len() == 0 {
        if b.len() > 0 {
            assert(b.contains(b[0]));
            assert(a.to_set().contains(b[0]));
        }
        assert(a =~= b);
    } else {
        let x = a.last();
        assert(a[a.len() - 1] == x);
        assert(a.to_set().contains(x));
        assert(b.to_set().contains(x));
        let y = b.last();
        assert(b[b.len() - 1] == y);
        assert(b.to_set().contains(y));
        assert(a.to_set().contains(y));
        let i = choose|i: int| 0 <= i < b.len() && b[i] == x;
        let j = choose|j: int| 0 <= j < a.len() && a[j] == y;
        assert(x == y) by {
            if x != y {
                assert(i < b.len() - 1 && j < a.len() - 1);
                assert(dims_before(b[i], b[b.len() - 1]));
                assert(dims_before(a[j], a[a.len() - 1]));
            }
        }
        let p = a.drop_last();
        let q = b.drop_last();
        assert forall|z: CommitmentRingDims| p.to_set().contains(z) == q.to_set().contains(z) by {
            lemma_drop_last_set(a, z);
            lemma_drop_last_set(b, z);
        }
        assert(p.to_set() =~= q.to_set());
        law_domain_is_canonical(p, q);
        assert(a =~= p.push(x));
        assert(b =~= q.push(y));
    }
}

proof fn lemma_drop_last_set(s: Seq<CommitmentRingDims>, z: CommitmentRingDims)
    requires
        dims_sorted(s),
        s.len() > 0,
    ensures
        s.drop_last().to_set().contains(z) == (s.to_set().contains(z) && z != s.last()),
{
    if s.drop_last().contains(z) {
        let i = choose|i: int| 0 <= i < s.len() - 1 && s.drop_last()[i] == z;
        assert(s[i] == z);
        assert(dims_before(s[i], s[s.len() - 1]));
    }
    if s.contains(z) && z != s.last() {
        let i = choose|i: int| 0 <= i < s.len() && s[i] == z;
        assert(s.drop_last()[i] == z);
    }
}

/// Bits are packed into the fewest bytes that hold them.
pub proof fn law_bits_take_the_fewest_bytes(bits: int)
    requires
        bits >= 0,
    ensures
        8 * bit_bytes(bits) >= bits,
        8 * (bit_bytes(bits) - 1) < bits,
{
}

/// The bytes of a suffix under a parent are its payload and its nonces packed
/// behind the bits that the parent leaves over; a level before it adds its
/// payload, its nonce bits and its queries.
pub proof fn law_costs_add_up(cost: PackedProofCost, remainder: int, payload: int, bits: int, queries: int)
    requires
        remainder >= 0,
    ensures
        8 * (cost.bytes_after(remainder) - cost.payload_bytes) >= cost.nonce_bits + remainder,
        8 * (cost.bytes_after(remainder) - cost.payload_bytes) < cost.nonce_bits + remainder + 8,
        cost.prepended(payload, bits, queries).0 - payload == cost.payload_bytes,
        cost.prepended(payload, bits, queries).1 - bits == cost.nonce_bits,
        cost.prepended(payload, bits, queries).2 - queries == cost.query_count,
{
}

/// Triples of dimensions are ordered by their inner dimension, then by their
/// outer, then by their opening dimension; the inner ring carries the others
/// where all are powers of two and it is the largest.
pub proof fn law_dimensions_are_ordered_from_the_inside(a: CommitmentRingDims, b: CommitmentRingDims)
    ensures
        a.inner < b.inner ==> dims_before(a, b),
        a.inner == b.inner && a.outer < b.outer ==> dims_before(a, b),
        a.inner == b.inner && a.outer == b.outer && a.opening < b.opening ==> dims_before(a, b),
        dims_before(a, b) ==> !dims_before(b, a),
        a != b ==> dims_before(a, b) || dims_before(b, a),
        carries(a) ==> a.inner >= a.outer > 0 && a.inner >= a.opening > 0 && is_pow2(
            a.inner as int,
        ) && is_pow2(a.outer as int) && is_pow2(a.opening as int),
        a.inner >= a.outer > 0 && a.inner >= a.opening > 0 && is_pow2(a.inner as int) && is_pow2(
            a.outer as int,
        ) && is_pow2(a.opening as int) ==> carries(a),
{
}

/// Chunks are in balance exactly when they divide the blocks.
pub proof fn law_balance_is_divisibility(blocks: usize, chunks: usize)
    requires
        chunks > 0,
    ensures
        imbalance(blocks, chunks) <= 1,
        imbalance(blocks, chunks) == 0 <==> exists|q: int| #[trigger] (q * chunks) == blocks,
{
    let (b, c) = (blocks as int, chunks as int);
    vstd::arithmetic::div_mod::lemma_fundamental_div_mod(b, c);
    if b % c == 0 {
        assert((b / c) * chunks == blocks) by (nonlinear_arith)
            requires
                b == c * (b / c),
                b == blocks,
                c == chunks,
        ;
    }
    if exists|q: int| #[trigger] (q * chunks) == blocks {
        let q = choose|q: int| #[trigger] (q * chunks) == blocks;
        vstd::arithmetic::div_mod::lemma_mod_multiples_basic(q, c);
    }
}

} // verus!
