//! The nonces of a proof, packed into a headerless stream of bits.
//!
//! Nonces follow each other in the order of the grinding plan, each in the width
//! that the plan gives it and least significant bit first. Bits fill bytes from
//! the least significant end, and the bits after the last nonce are zero.

use crate::error::AkitaError;
use crate::grinding;
use crate::grinding::{GrindingPlan, GrindingRun, GrindingSite, FOLD_RESPONSE_ATTEMPTS};
use vstd::arithmetic::power2::*;
use vstd::prelude::*;

verus! {

// ---------------------------------------------------------------------------
// Bits
// ---------------------------------------------------------------------------

/// The first `w` bits of a number, least significant first.
pub open spec fn bits_of(v: nat, w: nat) -> Seq<bool>
    decreases w,
{
    if w == 0 {
        Seq::empty()
    } else {
        seq![v % 2 == 1] + bits_of(v / 2, (w - 1) as nat)
    }
}

/// The number that bits stand for.
pub open spec fn value(bits: Seq<bool>) -> nat
    decreases bits.len(),
{
    if bits.len() == 0 {
        0
    } else {
        (if bits[0] {
            1nat
        } else {
            0nat
        }) + 2 * value(bits.drop_first())
    }
}

/// A bit of a byte.
pub open spec fn byte_bit(b: u8, j: u8) -> bool {
    (b >> j) & 1u8 == 1u8
}

/// The first `n` bits of a byte string.
pub open spec fn bits_in(bytes: Seq<u8>, n: nat) -> Seq<bool> {
    Seq::new(n, |i: int| byte_bit(bytes[i / 8], (i % 8) as u8))
}

/// Whether a byte string is just long enough for `n` bits and zero behind them.
pub open spec fn padded(bytes: Seq<u8>, n: nat) -> bool {
    &&& bytes.len() == (n + 7) / 8
    &&& n % 8 != 0 ==> bytes.last() >> ((n % 8) as u8) == 0u8
}

proof fn lemma_bits_len(v: nat, w: nat)
    ensures
        bits_of(v, w).len() == w,
    decreases w,
{
    if w > 0 {
        lemma_bits_len(v / 2, (w - 1) as nat);
    }
}

proof fn lemma_value_bound(bits: Seq<bool>)
    ensures
        value(bits) < pow2(bits.len()),
    decreases bits.len(),
{
    lemma2_to64();
    if bits.len() > 0 {
        lemma_value_bound(bits.drop_first());
        lemma_pow2_unfold(bits.len());
    }
}

/// The bits of a number that fits their width stand for the number.
pub proof fn law_bits_read_back(v: nat, w: nat)
    requires
        v < pow2(w),
    ensures
        bits_of(v, w).len() == w,
        value(bits_of(v, w)) == v,
    decreases w,
{
    lemma2_to64();
    lemma_bits_len(v, w);
    if w > 0 {
        lemma_pow2_unfold(w);
        law_bits_read_back(v / 2, (w - 1) as nat);
        assert(bits_of(v, w).drop_first() =~= bits_of(v / 2, (w - 1) as nat));
    }
}

/// A stream of bits has one byte string only.
pub proof fn law_bytes_are_canonical(a: Seq<u8>, b: Seq<u8>, n: nat)
    requires
        padded(a, n),
        padded(b, n),
        bits_in(a, n) == bits_in(b, n),
    ensures
        a == b,
{
    assert forall|k: int| 0 <= k < a.len() implies a[k] == b[k] by {
        let x = a[k];
        let y = b[k];
        assert forall|j: u8| j < 8 implies byte_bit(x, j) == byte_bit(y, j) by {
            let i = 8 * k + j as int;
            assert(i / 8 == k && i % 8 == j);
            assert((i % 8) as u8 == j);
            if i < n {
                assert(bits_in(a, n)[i] == byte_bit(x, j));
                assert(bits_in(b, n)[i] == byte_bit(y, j));
            } else {
                let r = (n % 8) as u8;
                assert(k == a.len() - 1);
                assert(x >> r == 0u8 && y >> r == 0u8);
                assert((x >> j) & 1u8 == 0u8) by (bit_vector)
                    requires
                        x >> r == 0u8,
                        r <= j < 8,
                ;
                assert((y >> j) & 1u8 == 0u8) by (bit_vector)
                    requires
                        y >> r == 0u8,
                        r <= j < 8,
                ;
            }
        }
        assert(byte_bit(x, 0) == byte_bit(y, 0) && byte_bit(x, 1) == byte_bit(y, 1));
        assert(byte_bit(x, 2) == byte_bit(y, 2) && byte_bit(x, 3) == byte_bit(y, 3));
        assert(byte_bit(x, 4) == byte_bit(y, 4) && byte_bit(x, 5) == byte_bit(y, 5));
        assert(byte_bit(x, 6) == byte_bit(y, 6) && byte_bit(x, 7) == byte_bit(y, 7));
        assert(x == y) by (bit_vector)
            requires
                ((x >> 0u8) & 1u8 == 1u8) == ((y >> 0u8) & 1u8 == 1u8),
                ((x >> 1u8) & 1u8 == 1u8) == ((y >> 1u8) & 1u8 == 1u8),
                ((x >> 2u8) & 1u8 == 1u8) == ((y >> 2u8) & 1u8 == 1u8),
                ((x >> 3u8) & 1u8 == 1u8) == ((y >> 3u8) & 1u8 == 1u8),
                ((x >> 4u8) & 1u8 == 1u8) == ((y >> 4u8) & 1u8 == 1u8),
                ((x >> 5u8) & 1u8 == 1u8) == ((y >> 5u8) & 1u8 == 1u8),
                ((x >> 6u8) & 1u8 == 1u8) == ((y >> 6u8) & 1u8 == 1u8),
                ((x >> 7u8) & 1u8 == 1u8) == ((y >> 7u8) & 1u8 == 1u8),
        ;
    }
    assert(a =~= b);
}

/// Appends one bit.
fn push_bit(bytes: &mut Vec<u8>, n: usize, bit: bool)
    requires
        padded(old(bytes)@, n as nat),
    ensures
        padded(final(bytes)@, n as nat + 1),
        bits_in(final(bytes)@, n as nat + 1) == bits_in(old(bytes)@, n as nat).push(bit),
{
    let k: u8 = (n % 8) as u8;
    let ghost before = bytes@;
    if k == 0 {
        let byte: u8 = if bit {
            1
        } else {
            0
        };
        bytes.push(byte);
        proof {
            assert(0u8 >> 1u8 == 0u8) by (bit_vector);
            assert(1u8 >> 1u8 == 0u8) by (bit_vector);
            assert((1u8 >> 0u8) & 1u8 == 1u8) by (bit_vector);
            assert((0u8 >> 0u8) & 1u8 == 0u8) by (bit_vector);
        }
    } else {
        let at: usize = bytes.len() - 1;
        let b: u8 = bytes[at];
        let byte: u8 = if bit {
            b | (1u8 << k)
        } else {
            b
        };
        bytes.set(at, byte);
        proof {
            assert forall|j: u8| j < k implies byte_bit(byte, j) == byte_bit(b, j) by {
                assert(((b | (1u8 << k)) >> j) & 1u8 == (b >> j) & 1u8) by (bit_vector)
                    requires
                        j < k < 8,
                ;
            }
            assert(((b | (1u8 << k)) >> k) & 1u8 == 1u8) by (bit_vector)
                requires
                    k < 8,
            ;
            assert((b >> k) & 1u8 == 0u8) by (bit_vector)
                requires
                    b >> k == 0u8,
                    k < 8,
            ;
            if k < 7 {
                let k1 = (k + 1) as u8;
                assert((b | (1u8 << k)) >> k1 == 0u8 && b >> k1 == 0u8) by (bit_vector)
                    requires
                        b >> k == 0u8,
                        k < 7,
                        k1 == k + 1,
                ;
            }
        }
    }
    proof {
        let after = bytes@;
        assert forall|i: int| 0 <= i < n + 1 implies bits_in(after, n as nat + 1)[i] == bits_in(
            before,
            n as nat,
        ).push(bit)[i] by {
            if i < n {
                if i / 8 < before.len() - 1 || k == 0 {
                    assert(after[i / 8] == before[i / 8]);
                } else {
                    assert(i / 8 == before.len() - 1);
                    assert(i % 8 < k);
                }
            }
        }
        assert(bits_in(after, n as nat + 1) =~= bits_in(before, n as nat).push(bit));
    }
}

/// Appends a number in a width.
fn push_number(bytes: &mut Vec<u8>, n: usize, v: u32, w: u8)
    requires
        padded(old(bytes)@, n as nat),
        n + w <= usize::MAX,
    ensures
        padded(final(bytes)@, n as nat + w as nat),
        bits_in(final(bytes)@, n as nat + w as nat) == bits_in(old(bytes)@, n as nat) + bits_of(
            v as nat,
            w as nat,
        ),
{
    let ghost start = bits_in(bytes@, n as nat);
    let ghost all = start + bits_of(v as nat, w as nat);
    let mut rest: u32 = v;
    let mut j: u8 = 0;
    while j < w
        invariant
            j <= w,
            n + w <= usize::MAX,
            padded(bytes@, n as nat + j as nat),
            bits_in(bytes@, n as nat + j as nat) + bits_of(rest as nat, (w - j) as nat) == all,
        decreases w - j,
    {
        let ghost so_far = bits_in(bytes@, n as nat + j as nat);
        let bit: bool = rest % 2 == 1;
        push_bit(bytes, n + j as usize, bit);
        proof {
            let tail = bits_of((rest / 2) as nat, (w - j - 1) as nat);
            assert(bits_of(rest as nat, (w - j) as nat) == seq![bit] + tail);
            assert(so_far.push(bit) + tail =~= so_far + (seq![bit] + tail));
        }
        rest = rest / 2;
        j = j + 1;
    }
    proof {
        assert(bits_in(bytes@, n as nat + w as nat) =~= all);
    }
}

/// Reads a number in a width.
fn read_number(bytes: &Vec<u8>, n: usize, position: usize, w: u8) -> (v: u32)
    requires
        bytes@.len() == (n + 7) / 8,
        position + w <= n,
        w <= 32,
    ensures
        v == value(bits_in(bytes@, n as nat).subrange(position as int, position + w)),
{
    let ghost bits = bits_in(bytes@, n as nat);
    let mut v: u64 = 0;
    let mut j: u8 = w;
    proof {
        lemma2_to64();
    }
    while j > 0
        invariant
            j <= w <= 32,
            position + w <= n,
            bytes@.len() == (n + 7) / 8,
            bits == bits_in(bytes@, n as nat),
            v == value(bits.subrange(position + j, position + w)),
        decreases j,
    {
        j = j - 1;
        let i: usize = position + j as usize;
        let bit: bool = (bytes[i / 8] >> ((i % 8) as u8)) & 1u8 == 1u8;
        proof {
            let rest = bits.subrange(position + j + 1, position + w);
            let more = bits.subrange(position + j, position + w);
            assert(more.drop_first() =~= rest);
            assert(more[0] == bits[i as int]);
            lemma_value_bound(rest);
            lemma_pow2_strictly_increases_or_equal(rest.len(), 31);
            lemma2_to64();
        }
        v = 2 * v + (if bit {
            1
        } else {
            0
        });
    }
    proof {
        lemma_value_bound(bits.subrange(position as int, position + w));
        lemma_pow2_strictly_increases_or_equal(w as nat, 32);
        lemma2_to64();
    }
    v as u32
}

proof fn lemma_pow2_strictly_increases_or_equal(a: nat, b: nat)
    requires
        a <= b,
    ensures
        pow2(a) <= pow2(b),
{
    if a < b {
        lemma_pow2_strictly_increases(a, b);
    }
}

// ---------------------------------------------------------------------------
// Positions
// ---------------------------------------------------------------------------

/// The first entry from a position on that has a nonce, or the number of
/// entries.
pub open spec fn next_entry(runs: Seq<GrindingRun>, from: nat) -> nat
    decreases runs.len() - from,
{
    if from >= runs.len() || runs[from as int].nonce_bits > 0 {
        from
    } else {
        next_entry(runs, from + 1)
    }
}

/// The bits before an entry.
pub open spec fn offset(runs: Seq<GrindingRun>, k: int) -> nat {
    grinding::sum_nonce_bits(runs.take(k))
}

/// Entries without a nonce take no bits.
proof fn lemma_next_entry(runs: Seq<GrindingRun>, from: nat)
    requires
        from <= runs.len(),
    ensures
        from <= next_entry(runs, from) <= runs.len(),
        offset(runs, next_entry(runs, from) as int) == offset(runs, from as int),
    decreases runs.len() - from,
{
    if from < runs.len() && runs[from as int].nonce_bits == 0 {
        lemma_next_entry(runs, from + 1);
        lemma_offset_step(runs, from as int);
    }
}

proof fn lemma_offset_step(runs: Seq<GrindingRun>, k: int)
    requires
        0 <= k < runs.len(),
    ensures
        offset(runs, k + 1) == offset(runs, k) + runs[k].nonce_bits,
{
    assert(runs.take(k + 1).drop_last() =~= runs.take(k));
}

proof fn lemma_offset_grows(runs: Seq<GrindingRun>, k: int)
    requires
        0 <= k <= runs.len(),
    ensures
        offset(runs, k) <= grinding::sum_nonce_bits(runs),
    decreases runs.len() - k,
{
    if k < runs.len() {
        lemma_offset_step(runs, k);
        lemma_offset_grows(runs, k + 1);
    } else {
        assert(runs.take(k) =~= runs);
    }
}

/// The first entry from a position on that has a nonce.
fn find_entry(runs: &Vec<GrindingRun>, from: usize) -> (r: usize)
    requires
        from <= runs@.len(),
    ensures
        r == next_entry(runs@, from as nat),
        r <= runs@.len(),
{
    let mut at: usize = from;
    while at < runs.len() && runs[at].nonce_bits == 0
        invariant
            from <= at <= runs@.len(),
            next_entry(runs@, at as nat) == next_entry(runs@, from as nat),
        decreases runs@.len() - at,
    {
        at += 1;
    }
    at
}

/// The bits of nonces in the widths of entries, one after the other.
pub open spec fn stream_bits(runs: Seq<GrindingRun>, nonces: Seq<u32>) -> Seq<bool>
    decreases runs.len(),
{
    if runs.len() == 0 {
        Seq::empty()
    } else {
        stream_bits(runs.drop_last(), nonces.drop_last()) + bits_of(
            nonces.last() as nat,
            runs.last().nonce_bits as nat,
        )
    }
}

proof fn lemma_stream_len(runs: Seq<GrindingRun>, nonces: Seq<u32>)
    ensures
        stream_bits(runs, nonces).len() == grinding::sum_nonce_bits(runs),
    decreases runs.len(),
{
    if runs.len() > 0 {
        lemma_stream_len(runs.drop_last(), nonces.drop_last());
        lemma_bits_len(nonces.last() as nat, runs.last().nonce_bits as nat);
    }
}

/// Whatever stands before and after it, a nonce is read back from where it was
/// written.
pub proof fn law_nonces_read_back(runs: Seq<GrindingRun>, nonces: Seq<u32>, k: int)
    requires
        0 <= k < runs.len(),
        nonces.len() == runs.len(),
        nonces[k] < pow2(runs[k].nonce_bits as nat),
    ensures
        stream_bits(runs, nonces).len() == grinding::sum_nonce_bits(runs),
        offset(runs, k + 1) == offset(runs, k) + runs[k].nonce_bits,
        offset(runs, k + 1) <= grinding::sum_nonce_bits(runs),
        value(
            stream_bits(runs, nonces).subrange(
                offset(runs, k) as int,
                offset(runs, k + 1) as int,
            ),
        ) == nonces[k],
    decreases runs.len(),
{
    lemma_stream_len(runs, nonces);
    lemma_offset_step(runs, k);
    lemma_offset_grows(runs, k + 1);
    let before = stream_bits(runs.drop_last(), nonces.drop_last());
    lemma_stream_len(runs.drop_last(), nonces.drop_last());
    let all = stream_bits(runs, nonces);
    let a = offset(runs, k) as int;
    let b = offset(runs, k + 1) as int;
    if k == runs.len() - 1 {
        let v = nonces[k] as nat;
        let w = runs[k].nonce_bits as nat;
        law_bits_read_back(v, w);
        assert(runs.take(k) =~= runs.drop_last());
        assert(all.subrange(a, b) =~= bits_of(v, w));
    } else {
        law_nonces_read_back(runs.drop_last(), nonces.drop_last(), k);
        assert(runs.drop_last().take(k) =~= runs.take(k));
        assert(runs.drop_last().take(k + 1) =~= runs.take(k + 1));
        assert(all.subrange(a, b) =~= before.subrange(a, b));
    }
}

/// Entries without a nonce add nothing to a stream.
proof fn lemma_stream_skips(runs: Seq<GrindingRun>, nonces: Seq<u32>, from: nat)
    requires
        from <= runs.len(),
        nonces.len() == runs.len(),
    ensures
        ({
            let at = next_entry(runs, from) as int;
            stream_bits(runs.take(at), nonces.take(at)) == stream_bits(
                runs.take(from as int),
                nonces.take(from as int),
            )
        }),
    decreases runs.len() - from,
{
    if from < runs.len() && runs[from as int].nonce_bits == 0 {
        lemma_stream_skips(runs, nonces, from + 1);
        let k = from as int;
        assert(runs.take(k + 1).drop_last() =~= runs.take(k));
        assert(nonces.take(k + 1).drop_last() =~= nonces.take(k));
        let before = stream_bits(runs.take(k), nonces.take(k));
        assert(before + bits_of(nonces[k] as nat, 0) =~= before);
    }
}

/// A writer that appends the nonce of each entry that comes next builds the
/// stream of all nonces: after the entry at `at`, the bits are those of the
/// entries up to it.
pub proof fn law_writes_build_the_stream(runs: Seq<GrindingRun>, nonces: Seq<u32>, from: nat)
    requires
        nonces.len() == runs.len(),
        from <= runs.len(),
        next_entry(runs, from) < runs.len(),
    ensures
        ({
            let at = next_entry(runs, from) as int;
            stream_bits(runs.take(at + 1), nonces.take(at + 1)) == stream_bits(
                runs.take(from as int),
                nonces.take(from as int),
            ) + bits_of(nonces[at] as nat, runs[at].nonce_bits as nat)
        }),
{
    lemma_next_entry(runs, from);
    lemma_stream_skips(runs, nonces, from);
    let at = next_entry(runs, from) as int;
    assert(runs.take(at + 1).drop_last() =~= runs.take(at));
    assert(nonces.take(at + 1).drop_last() =~= nonces.take(at));
}

// ---------------------------------------------------------------------------
// Streams
// ---------------------------------------------------------------------------

/// A packed stream of nonces.
#[derive(Clone, Debug, PartialEq, Eq)]
pub struct TranscriptNonceStream {
    pub bytes: Vec<u8>,
    pub bit_len: usize,
}

impl TranscriptNonceStream {
    /// Whether the bytes are just long enough and zero behind the bits.
    pub open spec fn wf(&self) -> bool {
        padded(self.bytes@, self.bit_len as nat)
    }

    /// The bits.
    pub open spec fn bits(&self) -> Seq<bool> {
        bits_in(self.bytes@, self.bit_len as nat)
    }

    /// A stream of so many bits from bytes. Bytes of another length, and bytes
    /// that are not zero behind the bits, are refused.
    pub fn from_bytes(bytes: Vec<u8>, bit_len: usize) -> (r: Result<Self, AkitaError>)
        ensures
            match r {
                Ok(stream) => stream.wf() && stream.bytes@ == bytes@ && stream.bit_len == bit_len,
                Err(e) => !padded(bytes@, bit_len as nat) && e is InvalidProof,
            },
    {
        let whole: usize = bit_len / 8;
        let part: u8 = (bit_len % 8) as u8;
        let len: usize = if part == 0 {
            whole
        } else {
            whole + 1
        };
        if bytes.len() != len {
            return Err(AkitaError::InvalidProof);
        }
        if part != 0 && (bytes[bytes.len() - 1] >> part) != 0 {
            return Err(AkitaError::InvalidProof);
        }
        Ok(TranscriptNonceStream { bytes, bit_len })
    }

    /// The bytes.
    pub fn as_bytes(&self) -> (r: &Vec<u8>)
        ensures
            r@ == self.bytes@,
    {
        &self.bytes
    }

    /// The number of bits.
    pub fn bit_len(&self) -> (n: usize)
        ensures
            n == self.bit_len,
    {
        self.bit_len
    }

    /// A reader of the nonces of a plan, which must take all bits.
    pub fn reader<'a>(&'a self, plan: &'a GrindingPlan) -> (r: Result<
        TranscriptNonceReader<'a>,
        AkitaError,
    >)
        requires
            self.wf(),
            plan.wf(),
        ensures
            match r {
                Ok(reader) => {
                    &&& plan.total_nonce_bits == self.bit_len
                    &&& reader.wf()
                    &&& reader.next == 0
                    &&& reader.position == 0
                    &&& reader.plan == plan
                    &&& reader.stream == self
                },
                Err(e) => plan.total_nonce_bits != self.bit_len && e is InvalidProof,
            },
    {
        if plan.total_nonce_bits() != self.bit_len {
            return Err(AkitaError::InvalidProof);
        }
        proof {
            assert(plan.runs@.take(0) =~= Seq::<GrindingRun>::empty());
        }
        Ok(TranscriptNonceReader { stream: self, plan, next: 0, position: 0 })
    }
}

/// Writes the nonces of a plan in its order.
pub struct TranscriptNonceWriter<'a> {
    pub plan: &'a GrindingPlan,
    pub next: usize,
    pub bytes: Vec<u8>,
    pub bit_len: usize,
}

impl<'a> TranscriptNonceWriter<'a> {
    /// Whether the bits so far are those of the entries so far.
    pub open spec fn wf(&self) -> bool {
        &&& self.plan.wf()
        &&& self.next <= self.plan.runs@.len()
        &&& padded(self.bytes@, self.bit_len as nat)
        &&& self.bit_len == offset(self.plan.runs@, self.next as int)
    }

    /// The bits so far.
    pub open spec fn bits(&self) -> Seq<bool> {
        bits_in(self.bytes@, self.bit_len as nat)
    }

    /// The entry that comes next.
    pub open spec fn entry(&self) -> nat {
        next_entry(self.plan.runs@, self.next as nat)
    }

    /// Whether a nonce is the one of a site that comes next.
    pub open spec fn takes(&self, site: GrindingSite, nonce: u32) -> bool {
        let at = self.entry();
        &&& at < self.plan.runs@.len()
        &&& self.plan.runs@[at as int].site == site
        &&& nonce < pow2(self.plan.runs@[at as int].nonce_bits as nat)
    }

    /// Nothing written yet.
    pub fn new(plan: &'a GrindingPlan) -> (r: Result<Self, AkitaError>)
        requires
            plan.wf(),
        ensures
            r matches Ok(w) && w.wf() && w.plan == plan && w.next == 0 && w.bits() == Seq::<
                bool,
            >::empty(),
    {
        proof {
            assert(plan.runs@.take(0) =~= Seq::<GrindingRun>::empty());
        }
        let writer = TranscriptNonceWriter { plan, next: 0, bytes: Vec::new(), bit_len: 0 };
        proof {
            assert(writer.bits() =~= Seq::<bool>::empty());
        }
        Ok(writer)
    }

    /// Writes the nonce of a site. Another site than the next one, and a nonce
    /// that is too wide, are refused and nothing is written.
    pub fn write(&mut self, site: GrindingSite, nonce: u32) -> (r: Result<(), AkitaError>)
        requires
            old(self).wf(),
        ensures
            final(self).wf(),
            final(self).plan == old(self).plan,
            match r {
                Ok(()) => {
                    &&& old(self).takes(site, nonce)
                    &&& final(self).next == old(self).entry() + 1
                    &&& final(self).bits() == old(self).bits() + bits_of(
                        nonce as nat,
                        old(self).plan.runs@[old(self).entry() as int].nonce_bits as nat,
                    )
                },
                Err(e) => {
                    &&& !old(self).takes(site, nonce)
                    &&& e is InvalidInput
                    &&& final(self).next == old(self).next
                    &&& final(self).bits() == old(self).bits()
                },
            },
    {
        let at: usize = find_entry(&self.plan.runs, self.next);
        if at >= self.plan.runs.len() {
            return Err(AkitaError::input("grinding plan has no further nonce"));
        }
        let run: GrindingRun = self.plan.runs[at];
        if run.site != site {
            return Err(AkitaError::input("nonce is not the one that comes next"));
        }
        let w: u8 = run.nonce_bits;
        proof {
            lemma2_to64();
            assert(w <= 32);
            lemma_pow2_strictly_increases_or_equal(w as nat, 32);
            vstd::bits::lemma_u64_shl_is_mul(1, w as u64);
        }
        if nonce as u64 >= (1u64 << (w as u64)) {
            return Err(AkitaError::input("nonce is too wide"));
        }
        proof {
            lemma_next_entry(self.plan.runs@, self.next as nat);
            lemma_offset_step(self.plan.runs@, at as int);
            lemma_offset_grows(self.plan.runs@, at + 1);
        }
        push_number(&mut self.bytes, self.bit_len, nonce, w);
        self.bit_len = self.bit_len + w as usize;
        self.next = at + 1;
        Ok(())
    }

    /// Writes the nonce of a fold's response.
    pub fn write_fold_response(&mut self, site: GrindingSite, nonce: u32) -> (r: Result<
        (),
        AkitaError,
    >)
        requires
            old(self).wf(),
        ensures
            final(self).wf(),
            final(self).plan == old(self).plan,
            match r {
                Ok(()) => {
                    &&& site is FoldResponse
                    &&& nonce < FOLD_RESPONSE_ATTEMPTS
                    &&& old(self).takes(site, nonce)
                    &&& final(self).next == old(self).entry() + 1
                    &&& final(self).bits() == old(self).bits() + bits_of(
                        nonce as nat,
                        old(self).plan.runs@[old(self).entry() as int].nonce_bits as nat,
                    )
                },
                Err(e) => {
                    &&& !(site is FoldResponse && nonce < FOLD_RESPONSE_ATTEMPTS && old(self).takes(
                        site,
                        nonce,
                    ))
                    &&& e is InvalidInput
                    &&& final(self).next == old(self).next
                    &&& final(self).bits() == old(self).bits()
                },
            },
    {
        match site {
            GrindingSite::FoldResponse { .. } => {},
            _ => {
                return Err(AkitaError::input("site is not a fold response"));
            },
        }
        if nonce >= FOLD_RESPONSE_ATTEMPTS {
            return Err(AkitaError::input("fold response nonce is out of range"));
        }
        self.write(site, nonce)
    }

    /// The stream, once every entry has been written.
    pub fn finish(self) -> (r: Result<TranscriptNonceStream, AkitaError>)
        requires
            self.wf(),
        ensures
            match r {
                Ok(stream) => {
                    &&& self.entry() == self.plan.runs@.len()
                    &&& stream.wf()
                    &&& stream.bits() == self.bits()
                    &&& stream.bit_len == self.plan.total_nonce_bits
                },
                Err(e) => self.entry() < self.plan.runs@.len() && e is InvalidInput,
            },
    {
        let at: usize = find_entry(&self.plan.runs, self.next);
        if at < self.plan.runs.len() {
            return Err(AkitaError::input("grinding plan has a further nonce"));
        }
        proof {
            lemma_next_entry(self.plan.runs@, self.next as nat);
            assert(self.plan.runs@.take(at as int) =~= self.plan.runs@);
        }
        Ok(TranscriptNonceStream { bytes: self.bytes, bit_len: self.bit_len })
    }
}

/// Reads the nonces of a plan in its order.
pub struct TranscriptNonceReader<'a> {
    pub stream: &'a TranscriptNonceStream,
    pub plan: &'a GrindingPlan,
    pub next: usize,
    pub position: usize,
}

impl<'a> TranscriptNonceReader<'a> {
    /// Whether the position is behind the entries so far.
    pub open spec fn wf(&self) -> bool {
        &&& self.stream.wf()
        &&& self.plan.wf()
        &&& self.stream.bit_len == self.plan.total_nonce_bits
        &&& self.next <= self.plan.runs@.len()
        &&& self.position == offset(self.plan.runs@, self.next as int)
    }

    /// The entry that comes next.
    pub open spec fn entry(&self) -> nat {
        next_entry(self.plan.runs@, self.next as nat)
    }

    /// Whether a site comes next.
    pub open spec fn expects(&self, site: GrindingSite) -> bool {
        self.entry() < self.plan.runs@.len() && self.plan.runs@[self.entry() as int].site == site
    }

    /// The nonce of the entry that comes next.
    pub open spec fn nonce(&self) -> nat {
        value(
            self.stream.bits().subrange(
                self.position as int,
                self.position + self.plan.runs@[self.entry() as int].nonce_bits,
            ),
        )
    }

    /// Reads the nonce of a site, which must be the one that comes next.
    pub fn read(&mut self, site: GrindingSite) -> (r: Result<u32, AkitaError>)
        requires
            old(self).wf(),
        ensures
            final(self).wf(),
            final(self).plan == old(self).plan,
            final(self).stream == old(self).stream,
            match r {
                Ok(nonce) => {
                    &&& old(self).expects(site)
                    &&& nonce == old(self).nonce()
                    &&& final(self).next == old(self).entry() + 1
                },
                Err(e) => {
                    &&& !old(self).expects(site)
                    &&& e is InvalidProof
                    &&& final(self).next == old(self).next
                },
            },
    {
        let at: usize = find_entry(&self.plan.runs, self.next);
        if at >= self.plan.runs.len() {
            return Err(AkitaError::InvalidProof);
        }
        let run: GrindingRun = self.plan.runs[at];
        if run.site != site {
            return Err(AkitaError::InvalidProof);
        }
        proof {
            lemma_next_entry(self.plan.runs@, self.next as nat);
            lemma_offset_step(self.plan.runs@, at as int);
            lemma_offset_grows(self.plan.runs@, at + 1);
        }
        let nonce: u32 = read_number(
            &self.stream.bytes,
            self.stream.bit_len,
            self.position,
            run.nonce_bits,
        );
        self.position = self.position + run.nonce_bits as usize;
        self.next = at + 1;
        Ok(nonce)
    }

    /// Reads the nonce of a fold's response.
    pub fn read_fold_response(&mut self, site: GrindingSite) -> (r: Result<u32, AkitaError>)
        requires
            old(self).wf(),
        ensures
            final(self).wf(),
            final(self).plan == old(self).plan,
            final(self).stream == old(self).stream,
            match r {
                Ok(nonce) => {
                    &&& site is FoldResponse
                    &&& old(self).expects(site)
                    &&& nonce == old(self).nonce()
                    &&& final(self).next == old(self).entry() + 1
                },
                Err(e) => {
                    &&& !(site is FoldResponse && old(self).expects(site))
                    &&& e is InvalidProof
                    &&& final(self).next == old(self).next
                },
            },
    {
        match site {
            GrindingSite::FoldResponse { .. } => self.read(site),
            _ => Err(AkitaError::InvalidProof),
        }
    }

    /// Accepts once every entry has been read.
    pub fn finish(&self) -> (r: Result<(), AkitaError>)
        requires
            self.wf(),
        ensures
            match r {
                Ok(()) => self.entry() == self.plan.runs@.len(),
                Err(e) => self.entry() < self.plan.runs@.len() && e is InvalidProof,
            },
    {
        let at: usize = find_entry(&self.plan.runs, self.next);
        if at < self.plan.runs.len() {
            return Err(AkitaError::InvalidProof);
        }
        Ok(())
    }
}

// ---------------------------------------------------------------------------
// Where bits stand
// ---------------------------------------------------------------------------

/// Bits of an integer and of a byte stand least significant first.
pub proof fn law_bits_stand_least_significant_first(v: nat, w: nat, i: nat, b: u8, j: u8)
    requires
        i < w,
        j < 8,
    ensures
        bits_of(v, w).len() == w,
        bits_of(v, w)[i as int] <==> (v / pow2(i)) % 2 == 1,
        byte_bit(b, j) <==> (b as nat / pow2(j as nat)) % 2 == 1,
    decreases w,
{
    lemma_bits_len(v, w);
    lemma2_to64();
    vstd::bits::lemma_u8_shr_is_div(b, j);
    let high = b >> j;
    assert((high & 1u8 == 1u8) <==> high % 2 == 1) by (bit_vector);
    if i > 0 {
        law_bits_stand_least_significant_first(v / 2, (w - 1) as nat, (i - 1) as nat, b, j);
        lemma_bits_len(v / 2, (w - 1) as nat);
        lemma_pow2_unfold(i);
        lemma_pow2_pos((i - 1) as nat);
        vstd::arithmetic::div_mod::lemma_div_denominator(
            v as int,
            2,
            pow2((i - 1) as nat) as int,
        );
        assert(bits_of(v, w)[i as int] == bits_of(v / 2, (w - 1) as nat)[i - 1]);
    }
}

/// The bits of a nonce stand in the stream behind those of all entries before it,
/// and the stream holds nothing else.
pub proof fn law_nonces_stand_behind_each_other(
    runs: Seq<GrindingRun>,
    nonces: Seq<u32>,
    k: int,
    i: int,
)
    requires
        runs.len() == nonces.len(),
        0 <= k < runs.len(),
        0 <= i < runs[k].nonce_bits,
    ensures
        stream_bits(runs, nonces).len() == grinding::sum_nonce_bits(runs),
        offset(runs, k) + i < stream_bits(runs, nonces).len(),
        stream_bits(runs, nonces)[offset(runs, k) + i] <==> (nonces[k] as nat / pow2(i as nat)) % 2
            == 1,
    decreases runs.len(),
{
    lemma_stream_len(runs, nonces);
    let (before, last) = (runs.drop_last(), runs.last());
    let so_far = stream_bits(before, nonces.drop_last());
    lemma_stream_len(before, nonces.drop_last());
    lemma_bits_len(nonces.last() as nat, last.nonce_bits as nat);
    if k == runs.len() - 1 {
        assert(runs.take(k) =~= before);
        law_bits_stand_least_significant_first(
            nonces[k] as nat,
            last.nonce_bits as nat,
            i as nat,
            0,
            0,
        );
    } else {
        law_nonces_stand_behind_each_other(before, nonces.drop_last(), k, i);
        assert(before.take(k) =~= runs.take(k));
        assert(stream_bits(runs, nonces)[offset(runs, k) + i] == so_far[offset(before, k) + i]);
    }
}

/// The entry that comes next is the first that has a nonce: those that are passed
/// over have none.
pub proof fn law_entries_without_a_nonce_are_passed_over(runs: Seq<GrindingRun>, from: nat)
    requires
        from <= runs.len(),
    ensures
        from <= next_entry(runs, from) <= runs.len(),
        forall|k: int|
            from <= k < next_entry(runs, from) ==> (#[trigger] runs[k]).nonce_bits == 0,
        next_entry(runs, from) < runs.len() ==> runs[next_entry(runs, from) as int].nonce_bits > 0,
    decreases runs.len() - from,
{
    if from < runs.len() && runs[from as int].nonce_bits == 0 {
        law_entries_without_a_nonce_are_passed_over(runs, from + 1);
    }
}

} // verus!
