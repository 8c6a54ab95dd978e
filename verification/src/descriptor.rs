//! The canonical byte string of a group's commitment parameters.
//!
//! Every field is written as one big-endian word of sixteen bytes, in a fixed
//! order, so that distinct parameters have distinct descriptors. The encoding is
//! this library's own: it is not the byte string that commitments or transcripts
//! are bound to, and it is only compared with itself, when rows of a catalog are
//! put in order. Where two keys agree in everything else, the row whose first
//! differing precommitted group has the smaller descriptor comes first, so the
//! order among such rows goes by the words of this encoding.

use crate::params::{
    CommitmentSliceCount, GroupCommitPhaseParams, InnerCommitSecurityRoute, SisMatrixRole,
    SisModulusProfileId, SisSecurityPolicyId, SisTableKey,
};
use vstd::prelude::*;

verus! {

/// The number of words of a descriptor.
pub const DESCRIPTOR_WORDS: usize = 31;

/// The last `n` bytes of an integer, most significant first.
pub open spec fn be_bytes(w: nat, n: nat) -> Seq<u8>
    decreases n,
{
    if n == 0 {
        Seq::empty()
    } else {
        be_bytes(w / 256, (n - 1) as nat).push((w % 256) as u8)
    }
}

/// 256 to the power `n`.
pub open spec fn pow256(n: nat) -> nat
    decreases n,
{
    if n == 0 {
        1
    } else {
        256 * pow256((n - 1) as nat)
    }
}

/// The bytes of a list of words.
pub open spec fn words_bytes(words: Seq<u128>) -> Seq<u8>
    decreases words.len(),
{
    if words.len() == 0 {
        Seq::empty()
    } else {
        words_bytes(words.drop_last()) + be_bytes(words.last() as nat, 16)
    }
}

/// The number of a security policy.
pub open spec fn policy_code(p: SisSecurityPolicyId) -> u128 {
    match p {
        SisSecurityPolicyId::Quantum128BitADPS16 => 0,
    }
}

/// The number of a modulus profile.
pub open spec fn profile_code(p: SisModulusProfileId) -> u128 {
    match p {
        SisModulusProfileId::Q32Offset99 => 0,
        SisModulusProfileId::Q64Offset59 => 1,
        SisModulusProfileId::Q128OffsetA7F7 => 2,
    }
}

/// The number of a matrix role.
pub open spec fn role_code(r: SisMatrixRole) -> u128 {
    match r {
        SisMatrixRole::Inner => 0,
        SisMatrixRole::Outer => 1,
        SisMatrixRole::Open => 2,
    }
}

/// The words of a rank-table key.
pub open spec fn key_words(k: SisTableKey) -> Seq<u128> {
    seq![
        policy_code(k.policy),
        k.table_digest.high,
        k.table_digest.low,
        profile_code(k.modulus_profile),
        role_code(k.role),
        k.ring_dimension as u128,
        k.coeff_linf_bound,
    ]
}

/// The words of a security route, its tag first.
pub open spec fn route_words(r: InnerCommitSecurityRoute) -> Seq<u128> {
    match r {
        InnerCommitSecurityRoute::Linf(key) => seq![0u128] + key_words(key),
        InnerCommitSecurityRoute::L2 { table_key, response_l2_sq_cap } => seq![
            1u128,
            table_key.ring_dimension as u128,
            table_key.collision_l2_sq,
            response_l2_sq_cap,
            0u128,
            0u128,
            0u128,
            0u128,
        ],
    }
}

/// The words before the inner route.
pub open spec fn head_words(p: GroupCommitPhaseParams) -> Seq<u128> {
    seq![
        p.version as u128,
        p.group.num_vars as u128,
        p.group.num_polynomials as u128,
        p.blocks.live_ring_elements_per_claim as u128,
        p.blocks.positions_per_block as u128,
        p.blocks.live_blocks as u128,
        p.outer_slice_count.count() as u128,
        p.inner.digits.log_basis as u128,
        p.inner.digits.num_digits as u128,
        p.inner.matrix.output_rank as u128,
        p.inner.matrix.input_width as u128,
        p.inner.matrix.ring_dimension as u128,
    ]
}

/// The words between the inner route and the outer key.
pub open spec fn outer_words(p: GroupCommitPhaseParams) -> Seq<u128> {
    seq![
        p.outer.digits.log_basis as u128,
        p.outer.digits.num_digits as u128,
        p.outer.matrix.output_rank as u128,
        p.outer.matrix.input_width as u128,
    ]
}

/// All words of a descriptor.
pub open spec fn descriptor_words(p: GroupCommitPhaseParams) -> Seq<u128> {
    head_words(p) + route_words(p.inner.matrix.route) + outer_words(p) + key_words(
        p.outer.matrix.key,
    )
}

/// The descriptor.
pub open spec fn descriptor_bytes(p: GroupCommitPhaseParams) -> Seq<u8> {
    words_bytes(descriptor_words(p))
}

proof fn lemma_be_bytes_len(w: nat, n: nat)
    ensures
        be_bytes(w, n).len() == n,
    decreases n,
{
    if n > 0 {
        lemma_be_bytes_len(w / 256, (n - 1) as nat);
    }
}

/// Integers of at most `n` bytes are told apart by those bytes.
proof fn lemma_be_bytes_injective(a: nat, b: nat, n: nat)
    requires
        a < pow256(n),
        b < pow256(n),
        be_bytes(a, n) == be_bytes(b, n),
    ensures
        a == b,
    decreases n,
{
    if n > 0 {
        let x = be_bytes(a / 256, (n - 1) as nat);
        let y = be_bytes(b / 256, (n - 1) as nat);
        let u = (a % 256) as u8;
        let v = (b % 256) as u8;
        assert(x.push(u).drop_last() =~= x);
        assert(y.push(v).drop_last() =~= y);
        assert(x.push(u).last() == u && y.push(v).last() == v);
        lemma_be_bytes_injective(a / 256, b / 256, (n - 1) as nat);
        assert(a % 256 == b % 256);
    }
}

proof fn lemma_pow256_16()
    ensures
        pow256(16) == 0x1_0000_0000_0000_0000_0000_0000_0000_0000,
{
    reveal_with_fuel(pow256, 17);
}

proof fn lemma_words_bytes_len(words: Seq<u128>)
    ensures
        words_bytes(words).len() == 16 * words.len(),
    decreases words.len(),
{
    if words.len() > 0 {
        lemma_words_bytes_len(words.drop_last());
        lemma_be_bytes_len(words.last() as nat, 16);
    }
}

/// Lists of words are told apart by their bytes.
proof fn lemma_words_bytes_injective(a: Seq<u128>, b: Seq<u128>)
    requires
        words_bytes(a) == words_bytes(b),
    ensures
        a == b,
    decreases a.len(),
{
    lemma_words_bytes_len(a);
    lemma_words_bytes_len(b);
    assert(a.len() == b.len());
    if a.len() > 0 {
        let x = words_bytes(a.drop_last());
        let y = words_bytes(b.drop_last());
        let u = be_bytes(a.last() as nat, 16);
        let v = be_bytes(b.last() as nat, 16);
        lemma_words_bytes_len(a.drop_last());
        lemma_words_bytes_len(b.drop_last());
        lemma_be_bytes_len(a.last() as nat, 16);
        lemma_be_bytes_len(b.last() as nat, 16);
        let n = x.len() as int;
        assert((x + u).subrange(0, n) =~= x);
        assert((y + v).subrange(0, n) =~= y);
        assert((x + u).subrange(n, n + 16) =~= u);
        assert((y + v).subrange(n, n + 16) =~= v);
        lemma_words_bytes_injective(a.drop_last(), b.drop_last());
        lemma_pow256_16();
        lemma_be_bytes_injective(a.last() as nat, b.last() as nat, 16);
        assert(a =~= a.drop_last().push(a.last()));
        assert(b =~= b.drop_last().push(b.last()));
    }
}

proof fn lemma_key_words_injective(a: SisTableKey, b: SisTableKey)
    requires
        key_words(a) == key_words(b),
    ensures
        a == b,
{
    let x = key_words(a);
    let y = key_words(b);
    assert(x[0] == y[0] && x[1] == y[1] && x[2] == y[2] && x[3] == y[3] && x[4] == y[4] && x[5]
        == y[5] && x[6] == y[6]);
}

/// Distinct parameters have distinct descriptors.
pub proof fn law_descriptor_injective(a: GroupCommitPhaseParams, b: GroupCommitPhaseParams)
    requires
        descriptor_bytes(a) == descriptor_bytes(b),
    ensures
        a == b,
{
    lemma_words_bytes_injective(descriptor_words(a), descriptor_words(b));
    let x = descriptor_words(a);
    let y = descriptor_words(b);
    let rx = route_words(a.inner.matrix.route);
    let ry = route_words(b.inner.matrix.route);
    assert(rx.len() == 8 && ry.len() == 8);
    assert(x.subrange(0, 12) =~= head_words(a));
    assert(y.subrange(0, 12) =~= head_words(b));
    assert(x.subrange(12, 20) =~= rx);
    assert(y.subrange(12, 20) =~= ry);
    assert(x.subrange(20, 24) =~= outer_words(a));
    assert(y.subrange(20, 24) =~= outer_words(b));
    assert(x.subrange(24, 31) =~= key_words(a.outer.matrix.key));
    assert(y.subrange(24, 31) =~= key_words(b.outer.matrix.key));
    lemma_key_words_injective(a.outer.matrix.key, b.outer.matrix.key);
    let h = head_words(a);
    let g = head_words(b);
    assert(h[0] == g[0] && h[1] == g[1] && h[2] == g[2] && h[3] == g[3] && h[4] == g[4] && h[5]
        == g[5] && h[6] == g[6] && h[7] == g[7] && h[8] == g[8] && h[9] == g[9] && h[10] == g[10]
        && h[11] == g[11]);
    let o = outer_words(a);
    let q = outer_words(b);
    assert(o[0] == q[0] && o[1] == q[1] && o[2] == q[2] && o[3] == q[3]);
    assert(rx[0] == ry[0]);
    match a.inner.matrix.route {
        InnerCommitSecurityRoute::Linf(ka) => {
            match b.inner.matrix.route {
                InnerCommitSecurityRoute::Linf(kb) => {
                    assert(rx.subrange(1, 8) =~= key_words(ka));
                    assert(ry.subrange(1, 8) =~= key_words(kb));
                    lemma_key_words_injective(ka, kb);
                },
                InnerCommitSecurityRoute::L2 { .. } => {},
            }
        },
        InnerCommitSecurityRoute::L2 { .. } => {
            assert(rx[1] == ry[1] && rx[2] == ry[2] && rx[3] == ry[3]);
        },
    }
}

/// Appends the last `n` bytes of an integer, most significant first.
pub fn push_bytes(out: &mut Vec<u8>, w: u128, n: usize)
    ensures
        final(out)@ == old(out)@ + be_bytes(w as nat, n as nat),
    decreases n,
{
    if n > 0 {
        let ghost before = out@;
        push_bytes(out, w / 256, n - 1);
        out.push((w % 256) as u8);
        proof {
            assert(out@ =~= before + be_bytes(w as nat, n as nat));
        }
    } else {
        proof {
            assert(out@ =~= out@ + be_bytes(w as nat, 0));
        }
    }
}

/// Appends one word to a list and its bytes to a string.
fn push_word(out: &mut Vec<u8>, words: Ghost<Seq<u128>>, w: u128) -> (r: Ghost<Seq<u128>>)
    requires
        old(out)@ == words_bytes(words@),
    ensures
        r@ == words@.push(w),
        final(out)@ == words_bytes(r@),
{
    push_bytes(out, w, 16);
    proof {
        assert(words@.push(w).drop_last() =~= words@);
    }
    Ghost(words@.push(w))
}

fn push_key(out: &mut Vec<u8>, words: Ghost<Seq<u128>>, key: &SisTableKey) -> (r: Ghost<
    Seq<u128>,
>)
    requires
        old(out)@ == words_bytes(words@),
    ensures
        r@ == words@ + key_words(*key),
        final(out)@ == words_bytes(r@),
{
    let policy: u128 = match key.policy {
        SisSecurityPolicyId::Quantum128BitADPS16 => 0,
    };
    let profile: u128 = match key.modulus_profile {
        SisModulusProfileId::Q32Offset99 => 0,
        SisModulusProfileId::Q64Offset59 => 1,
        SisModulusProfileId::Q128OffsetA7F7 => 2,
    };
    let role: u128 = match key.role {
        SisMatrixRole::Inner => 0,
        SisMatrixRole::Outer => 1,
        SisMatrixRole::Open => 2,
    };
    let ghost before = words@;
    let words = push_word(out, words, policy);
    let words = push_word(out, words, key.table_digest.high);
    let words = push_word(out, words, key.table_digest.low);
    let words = push_word(out, words, profile);
    let words = push_word(out, words, role);
    let words = push_word(out, words, key.ring_dimension as u128);
    let words = push_word(out, words, key.coeff_linf_bound);
    proof {
        assert(words@ =~= before + key_words(*key));
    }
    words
}

fn push_route(out: &mut Vec<u8>, words: Ghost<Seq<u128>>, route: &InnerCommitSecurityRoute) -> (r:
    Ghost<Seq<u128>>)
    requires
        old(out)@ == words_bytes(words@),
    ensures
        r@ == words@ + route_words(*route),
        final(out)@ == words_bytes(r@),
{
    let ghost before = words@;
    match route {
        InnerCommitSecurityRoute::Linf(key) => {
            let words = push_word(out, words, 0);
            let words = push_key(out, words, key);
            proof {
                assert(words@ =~= before + route_words(*route));
            }
            words
        },
        InnerCommitSecurityRoute::L2 { table_key, response_l2_sq_cap } => {
            let words = push_word(out, words, 1);
            let words = push_word(out, words, table_key.ring_dimension as u128);
            let words = push_word(out, words, table_key.collision_l2_sq);
            let words = push_word(out, words, *response_l2_sq_cap);
            let words = push_word(out, words, 0);
            let words = push_word(out, words, 0);
            let words = push_word(out, words, 0);
            let words = push_word(out, words, 0);
            proof {
                assert(words@ =~= before + route_words(*route));
            }
            words
        },
    }
}

impl GroupCommitPhaseParams {
    /// The canonical byte string of the parameters, in this library's own
    /// encoding. Precommitted groups are ordered by it.
    pub fn canonical_descriptor_bytes(&self) -> (r: Vec<u8>)
        ensures
            r@ == descriptor_bytes(*self),
    {
        let mut out: Vec<u8> = Vec::new();
        let words: Ghost<Seq<u128>> = Ghost(Seq::empty());
        let slices: usize = self.outer_slice_count.get();
        let words = push_word(&mut out, words, self.version as u128);
        let words = push_word(&mut out, words, self.group.num_vars as u128);
        let words = push_word(&mut out, words, self.group.num_polynomials as u128);
        let words = push_word(&mut out, words, self.blocks.live_ring_elements_per_claim as u128);
        let words = push_word(&mut out, words, self.blocks.positions_per_block as u128);
        let words = push_word(&mut out, words, self.blocks.live_blocks as u128);
        let words = push_word(&mut out, words, slices as u128);
        let words = push_word(&mut out, words, self.inner.digits.log_basis as u128);
        let words = push_word(&mut out, words, self.inner.digits.num_digits as u128);
        let words = push_word(&mut out, words, self.inner.matrix.output_rank as u128);
        let words = push_word(&mut out, words, self.inner.matrix.input_width as u128);
        let words = push_word(&mut out, words, self.inner.matrix.ring_dimension as u128);
        proof {
            assert(words@ =~= head_words(*self));
        }
        let words = push_route(&mut out, words, &self.inner.matrix.route);
        let ghost middle = words@;
        let words = push_word(&mut out, words, self.outer.digits.log_basis as u128);
        let words = push_word(&mut out, words, self.outer.digits.num_digits as u128);
        let words = push_word(&mut out, words, self.outer.matrix.output_rank as u128);
        let words = push_word(&mut out, words, self.outer.matrix.input_width as u128);
        proof {
            assert(words@ =~= middle + outer_words(*self));
        }
        let words = push_key(&mut out, words, &self.outer.matrix.key);
        proof {
            assert(words@ =~= descriptor_words(*self));
        }
        out
    }
}

/// The words of a descriptor stand one behind the other, sixteen bytes each, the most
/// significant byte first.
pub proof fn law_words_stand_most_significant_first(words: Seq<u128>, i: int, j: int)
    requires
        0 <= i < words.len(),
        0 <= j < 16,
    ensures
        words_bytes(words).len() == 16 * words.len(),
        words_bytes(words)[16 * i + j] as nat == (words[i] as nat / pow256((15 - j) as nat)) % 256,
    decreases words.len(),
{
    lemma_words_bytes_len(words);
    lemma_words_bytes_len(words.drop_last());
    lemma_be_bytes_len(words.last() as nat, 16);
    if i == words.len() - 1 {
        lemma_be_byte(words.last() as nat, 16, j);
    } else {
        law_words_stand_most_significant_first(words.drop_last(), i, j);
    }
}

proof fn lemma_be_byte(w: nat, n: nat, j: int)
    requires
        0 <= j < n,
    ensures
        be_bytes(w, n).len() == n,
        be_bytes(w, n)[j] as nat == (w / pow256((n - 1 - j) as nat)) % 256,
    decreases n,
{
    lemma_be_bytes_len(w, n);
    lemma_be_bytes_len(w / 256, (n - 1) as nat);
    if j < n - 1 {
        lemma_be_byte(w / 256, (n - 1) as nat, j);
        let p = pow256((n - 2 - j) as nat);
        lemma_pow256_positive((n - 2 - j) as nat);
        vstd::arithmetic::div_mod::lemma_div_denominator(w as int, 256, p as int);
        assert(pow256((n - 1 - j) as nat) == 256 * p);
        assert(be_bytes(w, n)[j] == be_bytes(w / 256, (n - 1) as nat)[j]);
        assert((w / 256) / p == w / (256 * p));
    } else {
        assert(pow256(0) == 1);
        assert(w / 1 == w);
        assert(be_bytes(w, n)[j] == (w % 256) as u8);
    }
}

proof fn lemma_pow256_positive(n: nat)
    ensures
        pow256(n) > 0,
    decreases n,
{
    if n > 0 {
        lemma_pow256_positive((n - 1) as nat);
    }
}

} // verus!
