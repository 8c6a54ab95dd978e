//! The public plan of a proof's grinding: which transcript queries are ground,
//! what each costs, and in which order their nonces come.

use crate::error::AkitaError;
use crate::params::OpeningMethod;
use vstd::arithmetic::power2::*;
use vstd::prelude::*;

verus! {

/// The number of candidates of a bounded fold-response search.
pub const FOLD_RESPONSE_ATTEMPTS: u32 = 4096;

/// The width of a fold-response nonce.
pub const FOLD_RESPONSE_NONCE_BITS: u8 = 12;

/// The bits that a nonce has beyond the work it is ground for.
pub const GRINDING_NONCE_SLACK_BITS: u8 = 7;

/// The most bits of work that one query may ask for.
pub const MAX_GRINDING_BITS: u8 = 25;

/// The number of expanded queries that a plan has to stay below.
pub const TRANSCRIPT_GRINDING_QUERY_LIMIT: u64 = 1048576;

/// The security level that grinding restores.
pub const TARGET_SECURITY_BITS: u32 = 128;

/// The sumcheck that a round belongs to.
#[derive(Clone, Copy, Debug, PartialEq, Eq, Structural)]
pub enum SumcheckProtocol {
    ExtensionOpeningReduction,
    Stage1,
    PhysicalL2,
    Stage2,
    Stage3,
}

/// A place in the protocol where a nonce may be asked for.
#[derive(Clone, Copy, Debug, PartialEq, Eq, Structural)]
pub enum GrindingSite {
    EvaluationBatch { level: u32 },
    ExtensionOpeningPoint { level: u32 },
    ExtensionOpeningClaimBatch { level: u32 },
    SumcheckRound { protocol: SumcheckProtocol, level: u32, stage: u32, round: u32 },
    /// The bounded search for an admissible folded response.
    FoldResponse { level: u32 },
    RingSwitchAlpha { level: u32 },
    Tau0Point { level: u32 },
    Tau1Point { level: u32 },
    Stage1InterstageBatch { level: u32, stage: u32 },
    L2SubclaimBatch { level: u32 },
    L2NormMerge { level: u32 },
    L2VirtualBatch { level: u32 },
    CompressionBinary { level: u32 },
    Stage2Batch { level: u32 },
    /// The sparse challenges of one commitment group.
    FoldChallengeGroup { level: u32, group: u32 },
}

impl GrindingSite {
    /// The fold level of a site.
    pub open spec fn level_spec(self) -> u32 {
        match self {
            GrindingSite::EvaluationBatch { level } => level,
            GrindingSite::ExtensionOpeningPoint { level } => level,
            GrindingSite::ExtensionOpeningClaimBatch { level } => level,
            GrindingSite::SumcheckRound { level, .. } => level,
            GrindingSite::FoldResponse { level } => level,
            GrindingSite::RingSwitchAlpha { level } => level,
            GrindingSite::Tau0Point { level } => level,
            GrindingSite::Tau1Point { level } => level,
            GrindingSite::Stage1InterstageBatch { level, .. } => level,
            GrindingSite::L2SubclaimBatch { level } => level,
            GrindingSite::L2NormMerge { level } => level,
            GrindingSite::L2VirtualBatch { level } => level,
            GrindingSite::CompressionBinary { level } => level,
            GrindingSite::Stage2Batch { level } => level,
            GrindingSite::FoldChallengeGroup { level, .. } => level,
        }
    }

    /// The fold level of a site.
    pub fn level(&self) -> (r: u32)
        ensures
            r == self.level_spec(),
    {
        match *self {
            GrindingSite::EvaluationBatch { level } => level,
            GrindingSite::ExtensionOpeningPoint { level } => level,
            GrindingSite::ExtensionOpeningClaimBatch { level } => level,
            GrindingSite::SumcheckRound { level, .. } => level,
            GrindingSite::FoldResponse { level } => level,
            GrindingSite::RingSwitchAlpha { level } => level,
            GrindingSite::Tau0Point { level } => level,
            GrindingSite::Tau1Point { level } => level,
            GrindingSite::Stage1InterstageBatch { level, .. } => level,
            GrindingSite::L2SubclaimBatch { level } => level,
            GrindingSite::L2NormMerge { level } => level,
            GrindingSite::L2VirtualBatch { level } => level,
            GrindingSite::CompressionBinary { level } => level,
            GrindingSite::Stage2Batch { level } => level,
            GrindingSite::FoldChallengeGroup { level, .. } => level,
        }
    }

    /// The number of a site's kind.
    pub open spec fn tag(self) -> u8 {
        match self {
            GrindingSite::EvaluationBatch { .. } => 0,
            GrindingSite::ExtensionOpeningPoint { .. } => 1,
            GrindingSite::ExtensionOpeningClaimBatch { .. } => 2,
            GrindingSite::SumcheckRound { .. } => 3,
            GrindingSite::FoldResponse { .. } => 4,
            GrindingSite::RingSwitchAlpha { .. } => 5,
            GrindingSite::Tau0Point { .. } => 6,
            GrindingSite::Tau1Point { .. } => 7,
            GrindingSite::Stage1InterstageBatch { .. } => 8,
            GrindingSite::L2SubclaimBatch { .. } => 9,
            GrindingSite::L2NormMerge { .. } => 10,
            GrindingSite::L2VirtualBatch { .. } => 11,
            GrindingSite::CompressionBinary { .. } => 12,
            GrindingSite::Stage2Batch { .. } => 13,
            GrindingSite::FoldChallengeGroup { .. } => 14,
        }
    }

    /// What tells sites of one kind and level apart.
    pub open spec fn detail(self) -> Seq<u8> {
        match self {
            GrindingSite::SumcheckRound { protocol, stage, round, .. } => seq![
                protocol_tag(protocol),
            ] + le_bytes(stage as nat, 4) + le_bytes(round as nat, 4),
            GrindingSite::Stage1InterstageBatch { stage, .. } => le_bytes(stage as nat, 4),
            GrindingSite::FoldChallengeGroup { group, .. } => le_bytes(group as nat, 4),
            _ => Seq::empty(),
        }
    }

    /// The canonical bytes of a site: its kind, its level and its detail.
    pub open spec fn bytes(self) -> Seq<u8> {
        seq![self.tag()] + le_bytes(self.level_spec() as nat, 4) + self.detail()
    }
}

/// The number of a sumcheck.
pub open spec fn protocol_tag(p: SumcheckProtocol) -> u8 {
    match p {
        SumcheckProtocol::ExtensionOpeningReduction => 0,
        SumcheckProtocol::Stage1 => 1,
        SumcheckProtocol::PhysicalL2 => 2,
        SumcheckProtocol::Stage2 => 3,
        SumcheckProtocol::Stage3 => 4,
    }
}

/// The first `n` bytes of an integer, least significant first.
pub open spec fn le_bytes(w: nat, n: nat) -> Seq<u8>
    decreases n,
{
    if n == 0 {
        Seq::empty()
    } else {
        seq![(w % 256) as u8] + le_bytes(w / 256, (n - 1) as nat)
    }
}

proof fn lemma_le_bytes_injective(a: nat, b: nat, n: nat)
    requires
        a < vstd::arithmetic::power::pow(256, n),
        b < vstd::arithmetic::power::pow(256, n),
        le_bytes(a, n) == le_bytes(b, n),
    ensures
        a == b,
    decreases n,
{
    if n == 0 {
        vstd::arithmetic::power::lemma_pow0(256);
    } else {
        let m = (n - 1) as nat;
        let x = seq![(a % 256) as u8] + le_bytes(a / 256, m);
        let y = seq![(b % 256) as u8] + le_bytes(b / 256, m);
        assert(x[0] == y[0]);
        assert(x.drop_first() =~= le_bytes(a / 256, m));
        assert(y.drop_first() =~= le_bytes(b / 256, m));
        reveal_with_fuel(vstd::arithmetic::power::pow, 2);
        vstd::arithmetic::power::lemma_pow_positive(256, m);
        lemma_le_bytes_injective(a / 256, b / 256, m);
    }
}

proof fn lemma_le_bytes_len(w: nat, n: nat)
    ensures
        le_bytes(w, n).len() == n,
    decreases n,
{
    if n > 0 {
        lemma_le_bytes_len(w / 256, (n - 1) as nat);
    }
}

proof fn lemma_word_injective(a: u32, b: u32)
    requires
        le_bytes(a as nat, 4) == le_bytes(b as nat, 4),
    ensures
        a == b,
{
    reveal_with_fuel(vstd::arithmetic::power::pow, 5);
    assert(vstd::arithmetic::power::pow(256, 4) == 4294967296);
    lemma_le_bytes_injective(a as nat, b as nat, 4);
}

/// Distinct sites have distinct canonical bytes.
pub proof fn law_site_bytes_identify(a: GrindingSite, b: GrindingSite)
    requires
        a.bytes() == b.bytes(),
    ensures
        a == b,
{
    let la = le_bytes(a.level_spec() as nat, 4);
    let lb = le_bytes(b.level_spec() as nat, 4);
    lemma_le_bytes_len(a.level_spec() as nat, 4);
    lemma_le_bytes_len(b.level_spec() as nat, 4);
    let x = a.bytes();
    let y = b.bytes();
    assert(x[0] == a.tag() && y[0] == b.tag());
    assert(x.subrange(1, 5) =~= la);
    assert(y.subrange(1, 5) =~= lb);
    lemma_word_injective(a.level_spec(), b.level_spec());
    assert(x.subrange(5, x.len() as int) =~= a.detail());
    assert(y.subrange(5, y.len() as int) =~= b.detail());
    assert(a.detail() == b.detail());
    match (a, b) {
        (
            GrindingSite::SumcheckRound { protocol: p, stage: s, round: r, .. },
            GrindingSite::SumcheckRound { protocol: q, stage: t, round: u, .. },
        ) => {
            lemma_le_bytes_len(s as nat, 4);
            lemma_le_bytes_len(t as nat, 4);
            lemma_le_bytes_len(r as nat, 4);
            lemma_le_bytes_len(u as nat, 4);
            assert(a.detail()[0] == protocol_tag(p) && b.detail()[0] == protocol_tag(q));
            assert(a.detail().subrange(1, 5) =~= le_bytes(s as nat, 4));
            assert(b.detail().subrange(1, 5) =~= le_bytes(t as nat, 4));
            assert(a.detail().subrange(5, 9) =~= le_bytes(r as nat, 4));
            assert(b.detail().subrange(5, 9) =~= le_bytes(u as nat, 4));
            lemma_word_injective(s, t);
            lemma_word_injective(r, u);
        },
        (
            GrindingSite::Stage1InterstageBatch { stage: s, .. },
            GrindingSite::Stage1InterstageBatch { stage: t, .. },
        ) => {
            lemma_word_injective(s, t);
        },
        (
            GrindingSite::FoldChallengeGroup { group: s, .. },
            GrindingSite::FoldChallengeGroup { group: t, .. },
        ) => {
            lemma_word_injective(s, t);
        },
        _ => {},
    }
}

fn push_le(out: &mut Vec<u8>, w: u32, n: usize)
    ensures
        final(out)@ == old(out)@ + le_bytes(w as nat, n as nat),
    decreases n,
{
    let ghost before = out@;
    if n > 0 {
        out.push((w % 256) as u8);
        push_le(out, w / 256, n - 1);
    }
    proof {
        assert(out@ =~= before + le_bytes(w as nat, n as nat));
    }
}

impl GrindingSite {
    /// The canonical bytes of a site.
    pub fn canonical_bytes(&self) -> (r: Vec<u8>)
        ensures
            r@ == self.bytes(),
    {
        let tag: u8 = match self {
            GrindingSite::EvaluationBatch { .. } => 0,
            GrindingSite::ExtensionOpeningPoint { .. } => 1,
            GrindingSite::ExtensionOpeningClaimBatch { .. } => 2,
            GrindingSite::SumcheckRound { .. } => 3,
            GrindingSite::FoldResponse { .. } => 4,
            GrindingSite::RingSwitchAlpha { .. } => 5,
            GrindingSite::Tau0Point { .. } => 6,
            GrindingSite::Tau1Point { .. } => 7,
            GrindingSite::Stage1InterstageBatch { .. } => 8,
            GrindingSite::L2SubclaimBatch { .. } => 9,
            GrindingSite::L2NormMerge { .. } => 10,
            GrindingSite::L2VirtualBatch { .. } => 11,
            GrindingSite::CompressionBinary { .. } => 12,
            GrindingSite::Stage2Batch { .. } => 13,
            GrindingSite::FoldChallengeGroup { .. } => 14,
        };
        let mut out: Vec<u8> = Vec::new();
        out.push(tag);
        push_le(&mut out, self.level(), 4);
        match *self {
            GrindingSite::SumcheckRound { protocol, stage, round, .. } => {
                let kind: u8 = match protocol {
                    SumcheckProtocol::ExtensionOpeningReduction => 0,
                    SumcheckProtocol::Stage1 => 1,
                    SumcheckProtocol::PhysicalL2 => 2,
                    SumcheckProtocol::Stage2 => 3,
                    SumcheckProtocol::Stage3 => 4,
                };
                out.push(kind);
                push_le(&mut out, stage, 4);
                push_le(&mut out, round, 4);
            },
            GrindingSite::Stage1InterstageBatch { stage, .. } => {
                push_le(&mut out, stage, 4);
            },
            GrindingSite::FoldChallengeGroup { group, .. } => {
                push_le(&mut out, group, 4);
            },
            _ => {},
        }
        proof {
            assert(out@ =~= self.bytes());
        }
        out
    }

    /// Whether a proof of work may be asked for at a site.
    pub open spec fn takes_work(self) -> bool {
        !(self is FoldResponse) && !(self is FoldChallengeGroup)
    }

    fn may_take_work(&self) -> (b: bool)
        ensures
            b == self.takes_work(),
    {
        match self {
            GrindingSite::FoldResponse { .. } => false,
            GrindingSite::FoldChallengeGroup { .. } => false,
            _ => true,
        }
    }
}

// ---------------------------------------------------------------------------
// Prices
// ---------------------------------------------------------------------------

/// The number of bits that a challenge field falls short of the target by.
pub open spec fn deficit(capacity: u32) -> nat {
    if capacity < TARGET_SECURITY_BITS {
        (TARGET_SECURITY_BITS - capacity) as nat
    } else {
        0
    }
}

/// The least number of bits whose power of two is at least `n`.
pub open spec fn log2_ceil(n: nat) -> nat
    decreases n,
{
    if n <= 1 {
        0
    } else {
        1 + log2_ceil((n + 1) / 2)
    }
}

/// The work that a query needs which loses a factor: enough that its loss is at
/// most a power of two, and what the field falls short of the target.
pub open spec fn work_bits(loss: u64, capacity: u32) -> nat {
    log2_ceil(loss as nat) + deficit(capacity)
}

/// The logarithm rounds up: the loss is at most its power of two, and no smaller
/// power holds it.
pub proof fn law_work_covers_the_loss(n: nat)
    ensures
        n <= pow2(log2_ceil(n)),
        n > 1 ==> pow2((log2_ceil(n) - 1) as nat) < n,
    decreases n,
{
    lemma2_to64();
    if n > 1 {
        let h = (n + 1) / 2;
        law_work_covers_the_loss(h);
        lemma_pow2_unfold(log2_ceil(n));
        if h > 1 {
            lemma_pow2_unfold(log2_ceil(h));
        }
    }
}

/// The work that a query needs. Too much of it is refused, and so is a query
/// that loses everything.
pub fn grind_bits_for_loss(loss: u64, capacity: u32) -> (r: Result<u8, AkitaError>)
    ensures
        match r {
            Ok(bits) => loss > 0 && bits == work_bits(loss, capacity) && bits <= MAX_GRINDING_BITS,
            Err(e) => (loss == 0 || work_bits(loss, capacity) > MAX_GRINDING_BITS)
                && e is InvalidSetup,
        },
{
    if loss == 0 {
        return Err(AkitaError::setup("grinding loss must be nonzero"));
    }
    let short: u32 = if capacity < TARGET_SECURITY_BITS {
        TARGET_SECURITY_BITS - capacity
    } else {
        0
    };
    let mut rest: u64 = loss;
    let mut bits: u32 = 0;
    proof {
        lemma2_to64();
    }
    while rest > 1
        invariant
            bits + log2_ceil(rest as nat) == log2_ceil(loss as nat),
            rest <= loss,
            bits <= 64,
            rest > 1 ==> bits < 64,
            rest as nat <= pow2((64 - bits) as nat),
        decreases rest,
    {
        let ghost before = rest;
        rest = rest / 2 + rest % 2;
        bits = bits + 1;
        proof {
            assert(rest as nat == (before as nat + 1) / 2);
            lemma_pow2_unfold((64 - bits + 1) as nat);
            lemma2_to64();
            if bits == 64 {
                assert(pow2(0) == 1);
            }
        }
    }
    let total: u32 = bits + short;
    if total > MAX_GRINDING_BITS as u32 {
        return Err(AkitaError::setup("grinding target is too large"));
    }
    Ok(total as u8)
}

/// The loss of the ring-switch challenge: twice the degree of the polynomial
/// that is opened, less one.
pub open spec fn alpha_degree(method: OpeningMethod, ring_dimension: usize) -> usize {
    match method {
        OpeningMethod::EvaluationTrace => ring_dimension,
        OpeningMethod::SubringCoefficientPacking { challenge_subring_dimension } =>
            challenge_subring_dimension,
    }
}

/// The loss of the ring-switch challenge.
pub fn ring_switch_alpha_loss_factor(method: OpeningMethod, ring_dimension: usize) -> (r: Result<
    u64,
    AkitaError,
>)
    ensures
        ({
            let loss = 2 * alpha_degree(method, ring_dimension) - 1;
            match r {
                Ok(factor) => factor == loss,
                Err(e) => (loss < 0 || loss > u64::MAX) && e is InvalidSetup,
            }
        }),
{
    let degree: usize = match method {
        OpeningMethod::EvaluationTrace => ring_dimension,
        OpeningMethod::SubringCoefficientPacking { challenge_subring_dimension } =>
            challenge_subring_dimension,
    };
    if degree == 0 {
        return Err(AkitaError::setup("ring-switch polynomial dimension must be nonzero"));
    }
    let wide: u128 = 2 * (degree as u128) - 1;
    if wide > u64::MAX as u128 {
        return Err(AkitaError::setup("ring-switch loss does not fit"));
    }
    Ok(wide as u64)
}

// ---------------------------------------------------------------------------
// Runs
// ---------------------------------------------------------------------------

/// One entry of a plan: a site, the factor that it loses, the work that it asks
/// for, the width of its nonce and the queries that it stands for.
#[derive(Clone, Copy, Debug, PartialEq, Eq, Structural)]
pub struct GrindingRun {
    pub site: GrindingSite,
    pub loss: u64,
    pub grind_bits: u8,
    pub nonce_bits: u8,
    pub queries: u64,
}

/// The width of the nonce of so much work. No work has no nonce.
pub open spec fn nonce_width(grind_bits: u8) -> int {
    if grind_bits == 0 {
        0
    } else {
        grind_bits + GRINDING_NONCE_SLACK_BITS
    }
}

impl GrindingRun {
    /// A ground query that loses a factor.
    pub fn proof_of_work(site: GrindingSite, loss: u64, capacity: u32) -> (r: Result<
        Self,
        AkitaError,
    >)
        ensures
            match r {
                Ok(run) => {
                    &&& site.takes_work()
                    &&& loss > 0
                    &&& work_bits(loss, capacity) <= MAX_GRINDING_BITS
                    &&& run.site == site
                    &&& run.loss == loss
                    &&& run.grind_bits == work_bits(loss, capacity)
                    &&& run.nonce_bits == nonce_width(run.grind_bits)
                    &&& run.queries == 1
                },
                Err(e) => e is InvalidSetup && (!site.takes_work() || loss == 0 || work_bits(
                    loss,
                    capacity,
                ) > MAX_GRINDING_BITS),
            },
    {
        if !site.may_take_work() {
            return Err(AkitaError::setup("site takes no proof of work"));
        }
        let grind_bits: u8 = match grind_bits_for_loss(loss, capacity) {
            Ok(bits) => bits,
            Err(e) => return Err(e),
        };
        let nonce_bits: u8 = if grind_bits == 0 {
            0
        } else {
            grind_bits + GRINDING_NONCE_SLACK_BITS
        };
        Ok(GrindingRun { site, loss, grind_bits, nonce_bits, queries: 1 })
    }

    /// The bounded search of a fold's response.
    pub fn fold_response(level: u32) -> (run: Self)
        ensures
            run == (GrindingRun {
                site: GrindingSite::FoldResponse { level },
                loss: 1,
                grind_bits: 0,
                nonce_bits: FOLD_RESPONSE_NONCE_BITS,
                queries: 1,
            }),
    {
        GrindingRun {
            site: GrindingSite::FoldResponse { level },
            loss: 1,
            grind_bits: 0,
            nonce_bits: FOLD_RESPONSE_NONCE_BITS,
            queries: 1,
        }
    }

    /// The sparse challenges of a commitment group: one query for its root and
    /// one for each coordinate.
    pub fn fold_challenge_group(level: u32, group: u32, count: u64) -> (r: Result<
        Self,
        AkitaError,
    >)
        ensures
            match r {
                Ok(run) => count < u64::MAX && run == (GrindingRun {
                    site: GrindingSite::FoldChallengeGroup { level, group },
                    loss: 1,
                    grind_bits: 0,
                    nonce_bits: 0,
                    queries: (count + 1) as u64,
                }),
                Err(e) => count == u64::MAX && e is InvalidSetup,
            },
    {
        if count == u64::MAX {
            return Err(AkitaError::setup("fold challenge count does not fit"));
        }
        Ok(
            GrindingRun {
                site: GrindingSite::FoldChallengeGroup { level, group },
                loss: 1,
                grind_bits: 0,
                nonce_bits: 0,
                queries: count + 1,
            },
        )
    }

    /// The work.
    pub fn grind_bits(&self) -> (n: u8)
        ensures
            n == self.grind_bits,
    {
        self.grind_bits
    }

    /// The width of the nonce.
    pub fn nonce_bits(&self) -> (n: u8)
        ensures
            n == self.nonce_bits,
    {
        self.nonce_bits
    }

    /// Whether an entry stands at a level that exists and is priced as its site
    /// asks for.
    pub open spec fn valid(self, capacity: u32) -> bool {
        &&& self.site.level_spec() != u32::MAX
        &&& match self.site {
            GrindingSite::FoldResponse { .. } => self.loss == 1 && self.grind_bits == 0
                && self.nonce_bits == FOLD_RESPONSE_NONCE_BITS && self.queries == 1,
            GrindingSite::FoldChallengeGroup { .. } => self.loss == 1 && self.grind_bits == 0
                && self.nonce_bits == 0 && self.queries > 0,
            _ => self.loss > 0 && self.grind_bits == work_bits(self.loss, capacity)
                && self.grind_bits <= MAX_GRINDING_BITS && self.nonce_bits == nonce_width(
                self.grind_bits,
            ) && self.queries == 1,
        }
    }

    fn check(&self, capacity: u32) -> (b: bool)
        ensures
            b == self.valid(capacity),
    {
        if self.site.level() == u32::MAX {
            return false;
        }
        match self.site {
            GrindingSite::FoldResponse { .. } => self.loss == 1 && self.grind_bits == 0
                && self.nonce_bits == FOLD_RESPONSE_NONCE_BITS && self.queries == 1,
            GrindingSite::FoldChallengeGroup { .. } => self.loss == 1 && self.grind_bits == 0
                && self.nonce_bits == 0 && self.queries > 0,
            _ => match grind_bits_for_loss(self.loss, capacity) {
                Ok(bits) => {
                    let width: u8 = if bits == 0 {
                        0
                    } else {
                        bits + GRINDING_NONCE_SLACK_BITS
                    };
                    self.grind_bits == bits && self.nonce_bits == width && self.queries == 1
                },
                Err(_) => false,
            },
        }
    }
}

/// A ground query is as hard as the target asks for: the factor that it loses,
/// together with what the field falls short by, is at most the work it takes.
pub proof fn law_work_meets_the_target(run: GrindingRun, capacity: u32)
    requires
        run.valid(capacity),
        run.site.takes_work(),
    ensures
        run.loss * pow2(deficit(capacity)) <= pow2(run.grind_bits as nat),
{
    law_work_covers_the_loss(run.loss as nat);
    lemma_pow2_adds(log2_ceil(run.loss as nat), deficit(capacity));
    let p = pow2(log2_ceil(run.loss as nat)) as int;
    let q = pow2(deficit(capacity)) as int;
    let l = run.loss as int;
    assert(l * q <= p * q) by (nonlinear_arith)
        requires
            l <= p,
            0 <= q,
    ;
}

/// The nonce of a ground query provides the same number of trials for each
/// expected one, whatever its work.
pub proof fn law_nonces_have_slack(run: GrindingRun, capacity: u32)
    requires
        run.valid(capacity),
        run.grind_bits > 0,
    ensures
        run.site.takes_work(),
        pow2(run.nonce_bits as nat) == 128 * pow2(run.grind_bits as nat),
        run.nonce_bits <= 32,
{
    lemma2_to64();
    lemma_pow2_adds(run.grind_bits as nat, GRINDING_NONCE_SLACK_BITS as nat);
    assert(pow2(7) == 128);
    let p = pow2(run.grind_bits as nat) as int;
    assert(p * 128 == 128 * p);
}

/// The nonce bits of entries.
pub open spec fn sum_nonce_bits(runs: Seq<GrindingRun>) -> nat
    decreases runs.len(),
{
    if runs.len() == 0 {
        0
    } else {
        sum_nonce_bits(runs.drop_last()) + runs.last().nonce_bits as nat
    }
}

/// The queries of entries.
pub open spec fn sum_queries(runs: Seq<GrindingRun>) -> nat
    decreases runs.len(),
{
    if runs.len() == 0 {
        0
    } else {
        sum_queries(runs.drop_last()) + runs.last().queries as nat
    }
}

/// What grinding costs a proof.
#[derive(Clone, Copy, Debug, PartialEq, Eq, Structural)]
pub struct TranscriptGrindingCost {
    pub total_nonce_bits: usize,
    pub expanded_query_count: u64,
}

/// Prices entries one by one, whether or not they would make a plan.
#[derive(Clone, Copy, Debug, PartialEq, Eq, Structural)]
pub struct GrindingPlanAccumulator {
    pub capacity: u32,
    pub total_nonce_bits: usize,
    pub expanded_query_count: u64,
}

impl GrindingPlanAccumulator {
    /// No entries yet. A field that grinding cannot make up for is refused.
    pub fn new(capacity: u32) -> (r: Result<Self, AkitaError>)
        ensures
            match r {
                Ok(a) => deficit(capacity) <= MAX_GRINDING_BITS && a == (GrindingPlanAccumulator {
                    capacity,
                    total_nonce_bits: 0,
                    expanded_query_count: 0,
                }),
                Err(e) => deficit(capacity) > MAX_GRINDING_BITS && e is InvalidSetup,
            },
    {
        if capacity < TARGET_SECURITY_BITS && TARGET_SECURITY_BITS - capacity
            > MAX_GRINDING_BITS as u32 {
            return Err(AkitaError::setup("challenge capacity is too small to grind"));
        }
        Ok(GrindingPlanAccumulator { capacity, total_nonce_bits: 0, expanded_query_count: 0 })
    }

    /// Adds the price of an entry. One that is not priced as its site asks for,
    /// or whose price no longer fits, is refused and leaves nothing behind.
    pub fn push(&mut self, run: GrindingRun) -> (r: Result<(), AkitaError>)
        ensures
            match r {
                Ok(()) => {
                    &&& run.valid(old(self).capacity)
                    &&& final(self).capacity == old(self).capacity
                    &&& final(self).total_nonce_bits == old(self).total_nonce_bits
                        + run.nonce_bits
                    &&& final(self).expanded_query_count == old(self).expanded_query_count
                        + run.queries
                },
                Err(e) => {
                    &&& e is InvalidSetup
                    &&& *final(self) == *old(self)
                    &&& !run.valid(old(self).capacity) || old(self).total_nonce_bits
                        + run.nonce_bits > usize::MAX || old(self).expanded_query_count
                        + run.queries > u64::MAX
                },
            },
    {
        if !run.check(self.capacity) {
            return Err(AkitaError::setup("grinding run is not priced for its site"));
        }
        let bits: Option<usize> = self.total_nonce_bits.checked_add(run.nonce_bits as usize);
        let queries: Option<u64> = self.expanded_query_count.checked_add(run.queries);
        match (bits, queries) {
            (Some(total_nonce_bits), Some(expanded_query_count)) => {
                self.total_nonce_bits = total_nonce_bits;
                self.expanded_query_count = expanded_query_count;
                Ok(())
            },
            _ => Err(AkitaError::setup("grinding cost does not fit")),
        }
    }

    /// The price so far.
    pub fn cost(&self) -> (r: TranscriptGrindingCost)
        ensures
            r.total_nonce_bits == self.total_nonce_bits,
            r.expanded_query_count == self.expanded_query_count,
    {
        TranscriptGrindingCost {
            total_nonce_bits: self.total_nonce_bits,
            expanded_query_count: self.expanded_query_count,
        }
    }
}

/// The order and the widths of all nonces of a proof.
#[derive(Clone, Debug, PartialEq, Eq)]
pub struct GrindingPlan {
    pub runs: Vec<GrindingRun>,
    pub total_nonce_bits: usize,
    pub expanded_query_count: u64,
}

/// Whether entries make a plan.
pub open spec fn plan_allowed(runs: Seq<GrindingRun>, capacity: u32) -> bool {
    &&& deficit(capacity) <= MAX_GRINDING_BITS
    &&& forall|i: int| 0 <= i < runs.len() ==> (#[trigger] runs[i]).valid(capacity)
    &&& sum_nonce_bits(runs) <= usize::MAX
    &&& sum_queries(runs) < TRANSCRIPT_GRINDING_QUERY_LIMIT
}

proof fn lemma_sums_grow(runs: Seq<GrindingRun>, k: int)
    requires
        0 <= k <= runs.len(),
    ensures
        sum_nonce_bits(runs.take(k)) <= sum_nonce_bits(runs),
        sum_queries(runs.take(k)) <= sum_queries(runs),
    decreases runs.len() - k,
{
    if k < runs.len() {
        lemma_sums_grow(runs, k + 1);
        assert(runs.take(k + 1).drop_last() =~= runs.take(k));
    } else {
        assert(runs.take(k) =~= runs);
    }
}

impl GrindingPlan {
    /// Whether totals are those of the entries.
    pub open spec fn wf(&self) -> bool {
        &&& self.total_nonce_bits == sum_nonce_bits(self.runs@)
        &&& self.expanded_query_count == sum_queries(self.runs@)
        &&& forall|i: int| 0 <= i < self.runs@.len() ==> (#[trigger] self.runs@[i]).nonce_bits <= 32
    }

    /// A plan of entries that are all priced for the field and stay below the
    /// query limit together.
    pub fn new(runs: Vec<GrindingRun>, capacity: u32) -> (r: Result<Self, AkitaError>)
        ensures
            match r {
                Ok(plan) => plan_allowed(runs@, capacity) && plan.wf() && plan.runs@ == runs@,
                Err(e) => !plan_allowed(runs@, capacity) && e is InvalidSetup,
            },
    {
        let mut total: GrindingPlanAccumulator = match GrindingPlanAccumulator::new(capacity) {
            Ok(total) => total,
            Err(e) => return Err(e),
        };
        let mut k: usize = 0;
        while k < runs.len()
            invariant
                k <= runs@.len(),
                total.capacity == capacity,
                total.total_nonce_bits == sum_nonce_bits(runs@.take(k as int)),
                total.expanded_query_count == sum_queries(runs@.take(k as int)),
                forall|i: int| 0 <= i < k ==> (#[trigger] runs@[i]).valid(capacity),
            decreases runs@.len() - k,
        {
            proof {
                assert(runs@.take(k + 1).drop_last() =~= runs@.take(k as int));
                lemma_sums_grow(runs@, k + 1);
            }
            match total.push(runs[k]) {
                Ok(()) => {},
                Err(e) => {
                    proof {
                        if runs@[k as int].valid(capacity) {
                            assert(sum_nonce_bits(runs@.take(k + 1)) > usize::MAX || sum_queries(
                                runs@.take(k + 1),
                            ) > u64::MAX);
                        }
                    }
                    return Err(e);
                },
            }
            k += 1;
        }
        proof {
            assert(runs@.take(k as int) =~= runs@);
        }
        if total.expanded_query_count >= TRANSCRIPT_GRINDING_QUERY_LIMIT {
            return Err(AkitaError::setup("grinding plan exceeds the query limit"));
        }
        Ok(
            GrindingPlan {
                runs,
                total_nonce_bits: total.total_nonce_bits,
                expanded_query_count: total.expanded_query_count,
            },
        )
    }

    /// The entries.
    pub fn runs(&self) -> (r: &Vec<GrindingRun>)
        ensures
            r@ == self.runs@,
    {
        &self.runs
    }

    /// The nonce bits.
    pub fn total_nonce_bits(&self) -> (n: usize)
        ensures
            n == self.total_nonce_bits,
    {
        self.total_nonce_bits
    }

    /// The queries.
    pub fn expanded_query_count(&self) -> (n: u64)
        ensures
            n == self.expanded_query_count,
    {
        self.expanded_query_count
    }
}

// ---------------------------------------------------------------------------
// What sites and entries hold
// ---------------------------------------------------------------------------

/// Four bytes read as an integer, least significant first.
pub open spec fn four_bytes_at(bytes: Seq<u8>, i: int) -> int {
    bytes[i] + 0x100 * bytes[i + 1] + 0x1_0000 * bytes[i + 2] + 0x100_0000 * bytes[i + 3]
}

proof fn lemma_four_bytes(w: u32)
    ensures
        le_bytes(w as nat, 4).len() == 4,
        four_bytes_at(le_bytes(w as nat, 4), 0) == w,
{
    reveal_with_fuel(le_bytes, 5);
    let v = w as nat;
    let (a, b, c) = (v / 256, v / 256 / 256, v / 256 / 256 / 256);
    let bytes = le_bytes(v, 4);
    assert(le_bytes(c / 256, 0) =~= Seq::empty());
    assert(bytes.len() == 4);
    assert(bytes[0] == (v % 256) as u8);
    assert(bytes[1] == (a % 256) as u8);
    assert(bytes[2] == (b % 256) as u8);
    assert(bytes[3] == (c % 256) as u8);
    assert(c < 256);
}

/// The bytes of a site are its kind, its level and what tells sites of one kind
/// and level apart, every number least significant byte first.
pub proof fn law_sites_are_written_by_kind_and_level(site: GrindingSite)
    ensures
        site.bytes()[0] == match site {
            GrindingSite::EvaluationBatch { .. } => 0u8,
            GrindingSite::ExtensionOpeningPoint { .. } => 1u8,
            GrindingSite::ExtensionOpeningClaimBatch { .. } => 2u8,
            GrindingSite::SumcheckRound { .. } => 3u8,
            GrindingSite::FoldResponse { .. } => 4u8,
            GrindingSite::RingSwitchAlpha { .. } => 5u8,
            GrindingSite::Tau0Point { .. } => 6u8,
            GrindingSite::Tau1Point { .. } => 7u8,
            GrindingSite::Stage1InterstageBatch { .. } => 8u8,
            GrindingSite::L2SubclaimBatch { .. } => 9u8,
            GrindingSite::L2NormMerge { .. } => 10u8,
            GrindingSite::L2VirtualBatch { .. } => 11u8,
            GrindingSite::CompressionBinary { .. } => 12u8,
            GrindingSite::Stage2Batch { .. } => 13u8,
            GrindingSite::FoldChallengeGroup { .. } => 14u8,
        },
        four_bytes_at(site.bytes(), 1) == site.level_spec(),
        site matches GrindingSite::SumcheckRound { protocol, stage, round, .. } ==> {
            &&& site.bytes().len() == 14
            &&& site.bytes()[5] == match protocol {
                SumcheckProtocol::ExtensionOpeningReduction => 0u8,
                SumcheckProtocol::Stage1 => 1u8,
                SumcheckProtocol::PhysicalL2 => 2u8,
                SumcheckProtocol::Stage2 => 3u8,
                SumcheckProtocol::Stage3 => 4u8,
            }
            &&& four_bytes_at(site.bytes(), 6) == stage
            &&& four_bytes_at(site.bytes(), 10) == round
        },
        site matches GrindingSite::Stage1InterstageBatch { stage, .. } ==> site.bytes().len() == 9
            && four_bytes_at(site.bytes(), 5) == stage,
        site matches GrindingSite::FoldChallengeGroup { group, .. } ==> site.bytes().len() == 9
            && four_bytes_at(site.bytes(), 5) == group,
        !(site is SumcheckRound) && !(site is Stage1InterstageBatch) && !(site
            is FoldChallengeGroup) ==> site.bytes().len() == 5,
{
    let head = le_bytes(site.level_spec() as nat, 4);
    lemma_four_bytes(site.level_spec());
    let bytes = site.bytes();
    assert(bytes[1] == head[0] && bytes[2] == head[1] && bytes[3] == head[2] && bytes[4]
        == head[3]);
    match site {
        GrindingSite::SumcheckRound { protocol, stage, round, .. } => {
            lemma_four_bytes(stage);
            lemma_four_bytes(round);
            let (x, y) = (le_bytes(stage as nat, 4), le_bytes(round as nat, 4));
            assert(bytes[6] == x[0] && bytes[7] == x[1] && bytes[8] == x[2] && bytes[9] == x[3]);
            assert(bytes[10] == y[0] && bytes[11] == y[1] && bytes[12] == y[2] && bytes[13]
                == y[3]);
        },
        GrindingSite::Stage1InterstageBatch { stage, .. } => {
            lemma_four_bytes(stage);
            let x = le_bytes(stage as nat, 4);
            assert(bytes[5] == x[0] && bytes[6] == x[1] && bytes[7] == x[2] && bytes[8] == x[3]);
        },
        GrindingSite::FoldChallengeGroup { group, .. } => {
            lemma_four_bytes(group);
            let x = le_bytes(group as nat, 4);
            assert(bytes[5] == x[0] && bytes[6] == x[1] && bytes[7] == x[2] && bytes[8] == x[3]);
        },
        _ => {},
    }
}

/// Entries one behind the other take the nonce bits and the queries of both, and
/// a single one takes its own.
pub proof fn law_entries_add_up(a: Seq<GrindingRun>, b: Seq<GrindingRun>, run: GrindingRun)
    ensures
        sum_nonce_bits(a + b) == sum_nonce_bits(a) + sum_nonce_bits(b),
        sum_queries(a + b) == sum_queries(a) + sum_queries(b),
        sum_nonce_bits(seq![run]) == run.nonce_bits,
        sum_queries(seq![run]) == run.queries,
    decreases b.len(),
{
    reveal_with_fuel(sum_nonce_bits, 2);
    reveal_with_fuel(sum_queries, 2);
    assert(seq![run].drop_last() =~= Seq::empty());
    assert(seq![run].last() == run);
    if b.len() == 0 {
        assert(a + b =~= a);
    } else {
        law_entries_add_up(a, b.drop_last(), run);
        assert((a + b).drop_last() =~= a + b.drop_last());
        assert((a + b).last() == b.last());
    }
}

/// What an entry that is priced for a field holds. A query that is ground has a
/// loss that its work covers together with what the field falls short of the
/// target, and a nonce that is wider than the work where there is any; fold
/// responses and fold challenges are not ground.
pub proof fn law_priced_entries(run: GrindingRun, capacity: u32)
    requires
        run.valid(capacity),
    ensures
        run.site.level_spec() < u32::MAX,
        run.site is FoldResponse ==> run.loss == 1 && run.grind_bits == 0 && run.queries == 1
            && run.nonce_bits == FOLD_RESPONSE_NONCE_BITS,
        run.site is FoldChallengeGroup ==> run.loss == 1 && run.grind_bits == 0 && run.queries > 0
            && run.nonce_bits == 0,
        !(run.site is FoldResponse) && !(run.site is FoldChallengeGroup) ==> {
            &&& run.queries == 1
            &&& run.loss > 0
            &&& run.grind_bits <= MAX_GRINDING_BITS
            &&& run.grind_bits + capacity >= TARGET_SECURITY_BITS
            &&& capacity >= TARGET_SECURITY_BITS ==> run.loss <= pow2(run.grind_bits as nat)
            &&& capacity < TARGET_SECURITY_BITS ==> run.loss <= pow2(
                (run.grind_bits + capacity - TARGET_SECURITY_BITS) as nat,
            )
            &&& run.nonce_bits == 0 <==> run.grind_bits == 0
            &&& run.grind_bits > 0 ==> run.nonce_bits - run.grind_bits == GRINDING_NONCE_SLACK_BITS
        },
{
    law_work_covers_the_loss(run.loss as nat);
}

/// The ring switch loses by the degree that its challenge ranges over: of the ring
/// where evaluations are traced, and of the subring where coefficients are packed.
pub proof fn law_ring_switches_lose_by_their_degree(subring: usize, ring_dimension: usize)
    ensures
        alpha_degree(OpeningMethod::EvaluationTrace, ring_dimension) == ring_dimension,
        alpha_degree(
            OpeningMethod::SubringCoefficientPacking { challenge_subring_dimension: subring },
            ring_dimension,
        ) == subring,
{
}

} // verus!
