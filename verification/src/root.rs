//! The replay of a root fold.
//!
//! A root proof is checked for its shape, its public values are absorbed in a
//! fixed order, and what the fold verifier needs is put together: the payloads
//! of the groups in the order of the relation's rows, the length of the next
//! witness, and how that witness is bound. What the layout of the parameters
//! gives or refuses comes with the proof, and a refusal is passed on.

use crate::assignments::copy_list;
use crate::error;
use crate::error::{message, AkitaError, ErrorModel};
use crate::field::Field;
use crate::params::{OpeningMethod, PolynomialGroupLayout};
use crate::text::push_text;
use crate::transcript::{TranscriptEntry, VerifierTranscript};
use vstd::prelude::*;

verus! {

// ---------------------------------------------------------------------------
// Proofs
// ---------------------------------------------------------------------------

/// How the setup of a fold is accounted for.
#[derive(Clone, Copy, Debug, PartialEq, Eq, Structural)]
pub enum SetupContributionMode {
    /// By the verifier itself.
    Direct,
    /// By a sumcheck of its own.
    Recursive,
}

/// The fold after the root.
pub struct NextFold {
    /// How the root's setup is accounted for.
    pub predecessor_setup: SetupContributionMode,
    /// The ring degree that its payload is absorbed over.
    pub transcript_ring_dimension: Result<usize, AkitaError>,
}

/// How the next witness is bound.
#[derive(Clone, Copy, Debug, PartialEq, Eq)]
pub enum PreparedNextWitness<'a, E> {
    /// By a commitment, absorbed over a ring of some degree.
    Commitment { commitment: &'a Vec<E>, ring_dim: usize },
    /// By the state of the terminal response.
    TerminalT(&'a Vec<u8>),
}

/// What a binding of the next witness holds.
pub enum NextWitnessModel<E> {
    Commitment { commitment: Seq<E>, ring_dim: usize },
    TerminalT(Seq<u8>),
}

impl<'a, E> PreparedNextWitness<'a, E> {
    pub open spec fn model(self) -> NextWitnessModel<E> {
        match self {
            PreparedNextWitness::Commitment { commitment, ring_dim } =>
                NextWitnessModel::Commitment { commitment: commitment@, ring_dim },
            PreparedNextWitness::TerminalT(state) => NextWitnessModel::TerminalT(state@),
        }
    }
}

/// The basis that claimed evaluations are over.
#[derive(Clone, Copy, Debug, PartialEq, Eq, Structural)]
pub enum BasisMode {
    Lagrange,
    Monomial,
}

/// One opened group: its part of the batch, how it is opened, its commitment,
/// its point and its claims.
pub struct RootGroupClaim<E> {
    pub layout: PolynomialGroupLayout,
    pub opening_method: OpeningMethod,
    /// The coefficients of the commitment.
    pub commitment: Vec<E>,
    /// The number of coefficients that the compression plan ends with.
    pub terminal_coefficients: usize,
    /// The ring degrees of the maps of the compression plan.
    pub map_dimensions: Vec<usize>,
    pub point: Vec<E>,
    pub evaluations: Vec<E>,
}

/// A root proof with what it is checked against.
pub struct RootProof<E> {
    pub has_extension_reduction: bool,
    /// Whether the source is encoded as a canonical coefficient table.
    pub canonical_source: bool,
    /// Why the parameters refuse the batch of openings.
    pub batch_refusal: Option<AkitaError>,
    pub groups: Vec<RootGroupClaim<E>>,
    pub basis: BasisMode,
    /// The payload of the opening.
    pub opening_payload: Vec<E>,
    /// The messages of the first and of the second stage.
    pub stage1: Vec<E>,
    pub stage2: Vec<E>,
    /// The sumcheck that accounts for the setup, where the proof has one.
    pub stage3: Option<Vec<E>>,
    pub next_fold: Option<NextFold>,
    /// The commitment to the next witness, where another fold follows.
    pub next_payload: Option<Vec<E>>,
    /// The terminal state, where the root is the last fold.
    pub terminal_state: Option<Vec<u8>>,
    /// Why the relation has no layout.
    pub relation_refusal: Option<AkitaError>,
    /// Why the claims do not fit the packed openings.
    pub claim_refusal: Option<AkitaError>,
    /// The groups in the order of the relation's rows.
    pub group_order: Result<Vec<usize>, AkitaError>,
    /// The length of the next witness.
    pub witness_len: Result<usize, AkitaError>,
    /// The length that the next witness is committed over.
    pub committed_witness_len: Result<usize, AkitaError>,
    pub next_witness_ring_dim: usize,
}

/// What the fold verifier is handed.
pub struct PreparedRoot<'a, E> {
    pub opening_payload: &'a Vec<E>,
    /// The shape of the batch of openings.
    pub opening_shape: Vec<PolynomialGroupLayout>,
    /// The commitments of the groups in the order of the relation's rows.
    pub commitment_payloads: Vec<Vec<E>>,
    pub w_len: usize,
    pub stage1: &'a Vec<E>,
    pub stage2: &'a Vec<E>,
    pub next_witness: PreparedNextWitness<'a, E>,
    pub next_witness_ring_dim: usize,
    pub next_opening_source_len: usize,
    /// The sumcheck that accounts for the setup, before another fold.
    pub stage3: Option<&'a Vec<E>>,
    pub basis: BasisMode,
}

/// What a prepared root holds.
pub struct PreparedModel<E> {
    pub opening_payload: Seq<E>,
    pub opening_shape: Seq<PolynomialGroupLayout>,
    pub payloads: Seq<Seq<E>>,
    pub w_len: usize,
    pub stage1: Seq<E>,
    pub stage2: Seq<E>,
    pub next_witness: NextWitnessModel<E>,
    pub next_witness_ring_dim: usize,
    pub next_opening_source_len: usize,
    pub stage3: Option<Seq<E>>,
    pub basis: BasisMode,
}

impl<'a, E> PreparedRoot<'a, E> {
    pub open spec fn model(self) -> PreparedModel<E> {
        PreparedModel {
            opening_payload: self.opening_payload@,
            opening_shape: self.opening_shape@,
            payloads: self.commitment_payloads@.map_values(|payload: Vec<E>| payload@),
            w_len: self.w_len,
            stage1: self.stage1@,
            stage2: self.stage2@,
            next_witness: self.next_witness.model(),
            next_witness_ring_dim: self.next_witness_ring_dim,
            next_opening_source_len: self.next_opening_source_len,
            stage3: match self.stage3 {
                Some(messages) => Some(messages@),
                None => None,
            },
            basis: self.basis,
        }
    }
}

/// The setup of a verifier: it binds the payload of an opening and checks
/// prepared folds. What it does depends on nothing but what the transcript has
/// exchanged.
pub trait FoldVerifier<E: Field>: Sized {
    /// The log after the payload of the opening is bound, unless it is refused.
    spec fn bound(&self, log: Seq<TranscriptEntry<E>>, opening_payload: Seq<E>) -> Option<
        Seq<TranscriptEntry<E>>,
    >;

    /// Why the payload of an opening is refused that is not bound.
    spec fn bind_refusal(&self, log: Seq<TranscriptEntry<E>>, opening_payload: Seq<E>) -> Option<
        ErrorModel,
    >;

    fn bind_opening_payload<T: VerifierTranscript<E>>(
        &self,
        opening_payload: &Vec<E>,
        transcript: &mut T,
    ) -> (r: Result<(), AkitaError>)
        ensures
            match r {
                Ok(()) => self.bound(old(transcript).log(), opening_payload@) == Some(
                    final(transcript).log(),
                ),
                Err(e) => self.bound(old(transcript).log(), opening_payload@) is None
                    && self.bind_refusal(old(transcript).log(), opening_payload@) == Some(e@),
            },
    ;

    /// Whether a prepared fold verifies after an exchange.
    spec fn verifies(&self, log: Seq<TranscriptEntry<E>>, prepared: PreparedModel<E>) -> bool;

    /// Why a prepared fold is refused that does not verify.
    spec fn fold_refusal(
        &self,
        log: Seq<TranscriptEntry<E>>,
        prepared: PreparedModel<E>,
    ) -> Option<ErrorModel>;

    /// What a prepared fold that verifies hands to the next.
    spec fn output_of(&self, log: Seq<TranscriptEntry<E>>, prepared: PreparedModel<E>) -> Seq<E>;

    /// The log after a prepared fold has verified.
    spec fn log_after(&self, log: Seq<TranscriptEntry<E>>, prepared: PreparedModel<E>) -> Seq<
        TranscriptEntry<E>,
    >;

    fn verify_fold<T: VerifierTranscript<E>>(
        &self,
        transcript: &mut T,
        prepared: &PreparedRoot<'_, E>,
    ) -> (r: Result<Vec<E>, AkitaError>)
        ensures
            match r {
                Ok(output) => self.verifies(old(transcript).log(), prepared.model()) && output@
                    == self.output_of(old(transcript).log(), prepared.model())
                    && final(transcript).log() == self.log_after(
                    old(transcript).log(),
                    prepared.model(),
                ),
                Err(e) => !self.verifies(old(transcript).log(), prepared.model())
                    && self.fold_refusal(old(transcript).log(), prepared.model()) == Some(e@),
            },
    ;
}

// ---------------------------------------------------------------------------
// What a root is held to
// ---------------------------------------------------------------------------

/// The claimed openings of the first `n` groups, in order.
pub open spec fn openings<E>(groups: Seq<RootGroupClaim<E>>, n: nat) -> Seq<E>
    decreases n,
{
    if n == 0 {
        Seq::empty()
    } else {
        openings(groups, (n - 1) as nat) + groups[n - 1].evaluations@
    }
}

/// The coordinates of the points of the first `n` groups, in order.
pub open spec fn coordinates<E>(groups: Seq<RootGroupClaim<E>>, n: nat) -> Seq<E>
    decreases n,
{
    if n == 0 {
        Seq::empty()
    } else {
        coordinates(groups, (n - 1) as nat) + groups[n - 1].point@
    }
}

/// The number of polynomials of the first `n` groups.
pub open spec fn polynomials<E>(groups: Seq<RootGroupClaim<E>>, n: nat) -> int
    decreases n,
{
    if n == 0 {
        0
    } else {
        polynomials(groups, (n - 1) as nat) + groups[n - 1].layout.num_polynomials
    }
}

/// Whether a group's commitment is what its compression plan ends with.
pub open spec fn commitment_fits<E>(group: RootGroupClaim<E>) -> bool {
    group.commitment@.len() == group.terminal_coefficients && group.map_dimensions@.len() > 0
}

/// The first group from `g` on whose commitment does not fit, or the number of
/// groups.
pub open spec fn first_misfit<E>(groups: Seq<RootGroupClaim<E>>, g: nat) -> nat
    decreases groups.len() - g,
{
    if g >= groups.len() {
        groups.len()
    } else if !commitment_fits(groups[g as int]) {
        g
    } else {
        first_misfit(groups, g + 1)
    }
}

/// The shape of the batch of openings.
pub open spec fn batch_shape<E>(groups: Seq<RootGroupClaim<E>>) -> Seq<PolynomialGroupLayout> {
    groups.map_values(|group: RootGroupClaim<E>| group.layout)
}

impl<E> RootProof<E> {
    pub open spec fn setup_mode(self) -> SetupContributionMode {
        match self.next_fold {
            Some(next) => next.predecessor_setup,
            None => SetupContributionMode::Direct,
        }
    }

    /// How the next witness is bound: by a commitment before another fold, by
    /// the terminal state before the end.
    pub open spec fn binding(self) -> Result<NextWitnessModel<E>, AkitaError> {
        match (self.next_payload, self.terminal_state) {
            (Some(commitment), None) => match self.next_fold {
                Some(next) => match next.transcript_ring_dimension {
                    Ok(ring_dim) => Ok(
                        NextWitnessModel::Commitment { commitment: commitment@, ring_dim },
                    ),
                    Err(e) => Err(e),
                },
                None => Err(AkitaError::InvalidProof),
            },
            (None, Some(state)) => if state@.len() > 0 {
                Ok(NextWitnessModel::TerminalT(state@))
            } else {
                Err(AkitaError::InvalidProof)
            },
            _ => Err(AkitaError::InvalidProof),
        }
    }

    /// Why the shape of the proof is not that of a root.
    pub open spec fn shape_refusal(self) -> Option<AkitaError> {
        let count = self.groups@.len();
        if self.has_extension_reduction || !self.canonical_source {
            Some(AkitaError::InvalidProof)
        } else if self.batch_refusal is Some {
            self.batch_refusal
        } else if exists|g: int|
            0 <= g < count && (#[trigger] self.groups@[g]).opening_method is EvaluationTrace {
            Some(AkitaError::InvalidProof)
        } else if self.stage3 is Some != (self.setup_mode() is Recursive) {
            Some(AkitaError::InvalidProof)
        } else if self.binding() is Err {
            Some(self.binding()->Err_0)
        } else if openings(self.groups@, count).len() != polynomials(self.groups@, count) {
            Some(AkitaError::InvalidProof)
        } else {
            None
        }
    }

    /// Why a proof is refused before its public values are absorbed in full.
    pub open spec fn replay_refusal(self) -> Option<AkitaError> {
        if self.shape_refusal() is Some {
            self.shape_refusal()
        } else if self.relation_refusal is Some {
            self.relation_refusal
        } else if first_misfit(self.groups@, 0) < self.groups@.len() {
            Some(AkitaError::InvalidProof)
        } else {
            None
        }
    }

    /// What the replay of a root absorbs, up to where it is refused: the shape
    /// of the batch, the commitments, the points and the claimed openings.
    pub open spec fn absorbed(self) -> Seq<TranscriptEntry<E>> {
        let head = seq![TranscriptEntry::BatchShape(batch_shape(self.groups@))];
        let fitting = first_misfit(self.groups@, 0);
        if self.shape_refusal() is Some {
            Seq::empty()
        } else if self.relation_refusal is Some {
            head
        } else if fitting < self.groups@.len() {
            head + commitment_entries(self.groups@, fitting)
        } else {
            head + commitment_entries(self.groups@, fitting) + coordinate_entries(
                coordinates(self.groups@, fitting),
            ) + opening_entries(openings(self.groups@, fitting))
        }
    }

    /// Why no fold can be prepared once the public values are absorbed.
    pub open spec fn layout_refusal(self) -> Option<AkitaError> {
        if self.claim_refusal is Some {
            self.claim_refusal
        } else {
            match self.group_order {
                Err(e) => Some(e),
                Ok(order) => if exists|i: int|
                    0 <= i < order@.len() && #[trigger] order@[i] >= self.groups@.len() {
                    Some(AkitaError::InvalidProof)
                } else {
                    match self.witness_len {
                        Err(e) => Some(e),
                        Ok(_) => None,
                    }
                },
            }
        }
    }

    /// Why the next witness has no commitment domain.
    pub open spec fn domain_refusal(self) -> Option<AkitaError> {
        match self.committed_witness_len {
            Err(e) => Some(e),
            Ok(_) => None,
        }
    }

    /// The fold that a proof calls for.
    pub open spec fn prepared(self) -> PreparedModel<E> {
        let order = (self.group_order->Ok_0)@;
        PreparedModel {
            opening_payload: self.opening_payload@,
            opening_shape: batch_shape(self.groups@),
            payloads: order.map_values(|g: usize| self.groups@[g as int].commitment@),
            w_len: self.witness_len->Ok_0,
            stage1: self.stage1@,
            stage2: self.stage2@,
            next_witness: self.binding()->Ok_0,
            next_witness_ring_dim: self.next_witness_ring_dim,
            next_opening_source_len: (self.committed_witness_len->Ok_0 as int
                / self.next_witness_ring_dim as int) as usize,
            stage3: match (self.stage3, self.next_fold) {
                (Some(messages), Some(_)) => Some(messages@),
                _ => None,
            },
            basis: self.basis,
        }
    }

    /// Whether the ring of the next witness divides a commitment domain.
    pub open spec fn divisible(self) -> bool {
        self.committed_witness_len is Ok ==> self.next_witness_ring_dim > 0
    }
}

/// The commitments of the first `n` groups, each over the ring that its plan
/// ends in.
pub open spec fn commitment_entries<E>(groups: Seq<RootGroupClaim<E>>, n: nat) -> Seq<
    TranscriptEntry<E>,
> {
    Seq::new(
        n,
        |g: int|
            TranscriptEntry::Commitment {
                coefficients: groups[g].commitment@,
                ring_dimension: groups[g].map_dimensions@.last(),
            },
    )
}

pub open spec fn coordinate_entries<E>(values: Seq<E>) -> Seq<TranscriptEntry<E>> {
    values.map_values(|v: E| TranscriptEntry::Coordinate(v))
}

pub open spec fn opening_entries<E>(values: Seq<E>) -> Seq<TranscriptEntry<E>> {
    values.map_values(|v: E| TranscriptEntry::Opening(v))
}

// ---------------------------------------------------------------------------
// The shape
// ---------------------------------------------------------------------------

/// The binding of the next witness.
fn bind_next_witness<E>(proof: &RootProof<E>) -> (r: Result<
    PreparedNextWitness<'_, E>,
    AkitaError,
>)
    ensures
        match r {
            Ok(binding) => proof.binding() == Ok::<NextWitnessModel<E>, AkitaError>(
                binding.model(),
            ),
            Err(e) => proof.binding() is Err && e.alike(proof.binding()->Err_0),
        },
{
    match (&proof.next_payload, &proof.terminal_state) {
        (Some(commitment), None) => match &proof.next_fold {
            Some(next) => match &next.transcript_ring_dimension {
                Ok(ring_dim) => Ok(
                    PreparedNextWitness::Commitment { commitment, ring_dim: *ring_dim },
                ),
                Err(e) => Err(e.repeat()),
            },
            None => Err(AkitaError::InvalidProof),
        },
        (None, Some(state)) => if state.len() > 0 {
            Ok(PreparedNextWitness::TerminalT(state))
        } else {
            Err(AkitaError::InvalidProof)
        },
        _ => Err(AkitaError::InvalidProof),
    }
}

/// Whether some group is opened by a trace.
fn has_trace_opening<E>(groups: &Vec<RootGroupClaim<E>>) -> (b: bool)
    ensures
        b == exists|g: int|
            0 <= g < groups@.len() && (#[trigger] groups@[g]).opening_method is EvaluationTrace,
{
    let mut g: usize = 0;
    while g < groups.len()
        invariant
            g <= groups@.len(),
            forall|i: int|
                0 <= i < g ==> !((#[trigger] groups@[i]).opening_method is EvaluationTrace),
        decreases groups@.len() - g,
    {
        match groups[g].opening_method {
            OpeningMethod::EvaluationTrace => {
                assert(groups@[g as int].opening_method is EvaluationTrace);
                return true;
            },
            OpeningMethod::SubringCoefficientPacking { .. } => {},
        }
        g += 1;
    }
    false
}

/// Whether there is one claimed opening for every polynomial.
fn claims_every_polynomial<E>(groups: &Vec<RootGroupClaim<E>>) -> (b: bool)
    ensures
        b == (openings(groups@, groups@.len()).len() == polynomials(groups@, groups@.len())),
{
    let mut claimed: u128 = 0;
    let mut called_for: u128 = 0;
    let mut g: usize = 0;
    while g < groups.len()
        invariant
            g <= groups@.len(),
            claimed == openings(groups@, g as nat).len(),
            called_for == polynomials(groups@, g as nat),
            claimed <= g * 0xffff_ffff_ffff_ffff,
            called_for <= g * 0xffff_ffff_ffff_ffff,
        decreases groups@.len() - g,
    {
        let group = &groups[g];
        assert(*group == groups@[g as int]);
        assert(g * 0xffff_ffff_ffff_ffff <= 0xffff_ffff_ffff_fffe * 0xffff_ffff_ffff_ffff);
        claimed = claimed + group.evaluations.len() as u128;
        called_for = called_for + group.layout.num_polynomials as u128;
        g += 1;
    }
    claimed == called_for
}

/// Refuses a proof whose shape is not that of a root.
fn check_root_shape<E>(proof: &RootProof<E>) -> (r: Result<PreparedNextWitness<'_, E>, AkitaError>)
    ensures
        match r {
            Ok(binding) => proof.shape_refusal() is None && proof.binding() == Ok::<
                NextWitnessModel<E>,
                AkitaError,
            >(binding.model()),
            Err(e) => proof.shape_refusal() matches Some(refusal) && e.alike(refusal),
        },
{
    if proof.has_extension_reduction || !proof.canonical_source {
        return Err(AkitaError::InvalidProof);
    }
    if let Some(e) = &proof.batch_refusal {
        return Err(e.repeat());
    }
    if has_trace_opening(&proof.groups) {
        return Err(AkitaError::InvalidProof);
    }
    let mode = match &proof.next_fold {
        Some(next) => next.predecessor_setup,
        None => SetupContributionMode::Direct,
    };
    let called_for: bool = match mode {
        SetupContributionMode::Direct => false,
        SetupContributionMode::Recursive => true,
    };
    if proof.stage3.is_some() != called_for {
        return Err(AkitaError::InvalidProof);
    }
    let binding = match bind_next_witness(proof) {
        Ok(binding) => binding,
        Err(e) => {
            return Err(e);
        },
    };
    if !claims_every_polynomial(&proof.groups) {
        return Err(AkitaError::InvalidProof);
    }
    Ok(binding)
}

// ---------------------------------------------------------------------------
// The transcript
// ---------------------------------------------------------------------------

/// The shape of a batch.
fn shape_of<E>(groups: &Vec<RootGroupClaim<E>>) -> (shape: Vec<PolynomialGroupLayout>)
    ensures
        shape@ == batch_shape(groups@),
{
    let mut shape: Vec<PolynomialGroupLayout> = Vec::new();
    let mut g: usize = 0;
    while g < groups.len()
        invariant
            g <= groups@.len(),
            shape@.len() == g,
            forall|i: int| 0 <= i < g ==> #[trigger] shape@[i] == groups@[i].layout,
        decreases groups@.len() - g,
    {
        shape.push(groups[g].layout);
        g += 1;
    }
    assert(shape@ =~= batch_shape(groups@));
    shape
}

/// Absorbs the commitments up to the first that does not fit.
fn absorb_commitments<E: Field, T: VerifierTranscript<E>>(
    groups: &Vec<RootGroupClaim<E>>,
    transcript: &mut T,
) -> (fit: bool)
    ensures
        fit == (first_misfit(groups@, 0) == groups@.len()),
        first_misfit(groups@, 0) <= groups@.len(),
        final(transcript).log() == old(transcript).log() + commitment_entries(
            groups@,
            first_misfit(groups@, 0),
        ),
{
    let ghost before = transcript.log();
    let mut g: usize = 0;
    assert(transcript.log() =~= before + commitment_entries(groups@, 0));
    while g < groups.len()
        invariant
            g <= groups@.len(),
            first_misfit(groups@, 0) == first_misfit(groups@, g as nat),
            transcript.log() == before + commitment_entries(groups@, g as nat),
            before == old(transcript).log(),
        decreases groups@.len() - g,
    {
        let group = &groups[g];
        assert(*group == groups@[g as int]);
        if group.commitment.len() != group.terminal_coefficients || group.map_dimensions.len()
            == 0 {
            assert(!commitment_fits(groups@[g as int]));
            return false;
        }
        let last: usize = group.map_dimensions[group.map_dimensions.len() - 1];
        transcript.absorb_commitment(&group.commitment, last);
        proof {
            assert(before + commitment_entries(groups@, (g + 1) as nat) =~= (before
                + commitment_entries(groups@, g as nat)).push(
                TranscriptEntry::Commitment {
                    coefficients: group.commitment@,
                    ring_dimension: last,
                },
            ));
        }
        g += 1;
    }
    true
}

/// Absorbs the points of the groups, in order.
fn absorb_points<E: Field, T: VerifierTranscript<E>>(
    groups: &Vec<RootGroupClaim<E>>,
    transcript: &mut T,
)
    ensures
        final(transcript).log() == old(transcript).log() + coordinate_entries(
            coordinates(groups@, groups@.len()),
        ),
{
    let ghost before = transcript.log();
    assert(transcript.log() =~= before + coordinate_entries(coordinates(groups@, 0)));
    let mut g: usize = 0;
    while g < groups.len()
        invariant
            g <= groups@.len(),
            transcript.log() == before + coordinate_entries(coordinates(groups@, g as nat)),
        decreases groups@.len() - g,
    {
        let point = &groups[g].point;
        let ghost so_far = coordinates(groups@, g as nat);
        let mut k: usize = 0;
        assert(so_far + point@.take(0) =~= so_far);
        while k < point.len()
            invariant
                k <= point@.len(),
                transcript.log() == before + coordinate_entries(so_far + point@.take(k as int)),
            decreases point@.len() - k,
        {
            transcript.absorb_coordinate(point[k]);
            proof {
                assert(point@.take(k + 1) =~= point@.take(k as int).push(point@[k as int]));
                assert(coordinate_entries(so_far + point@.take(k + 1)) =~= coordinate_entries(
                    so_far + point@.take(k as int),
                ).push(TranscriptEntry::Coordinate(point@[k as int])));
                assert(transcript.log() =~= before + coordinate_entries(
                    so_far + point@.take(k + 1),
                ));
            }
            k += 1;
        }
        assert(point@.take(k as int) =~= point@);
        g += 1;
    }
}

/// Absorbs the claimed openings of the groups, in order.
fn absorb_openings<E: Field, T: VerifierTranscript<E>>(
    groups: &Vec<RootGroupClaim<E>>,
    transcript: &mut T,
)
    ensures
        final(transcript).log() == old(transcript).log() + opening_entries(
            openings(groups@, groups@.len()),
        ),
{
    let ghost before = transcript.log();
    assert(transcript.log() =~= before + opening_entries(openings(groups@, 0)));
    let mut g: usize = 0;
    while g < groups.len()
        invariant
            g <= groups@.len(),
            transcript.log() == before + opening_entries(openings(groups@, g as nat)),
        decreases groups@.len() - g,
    {
        let values = &groups[g].evaluations;
        let ghost so_far = openings(groups@, g as nat);
        let mut k: usize = 0;
        assert(so_far + values@.take(0) =~= so_far);
        while k < values.len()
            invariant
                k <= values@.len(),
                transcript.log() == before + opening_entries(so_far + values@.take(k as int)),
            decreases values@.len() - k,
        {
            transcript.absorb_opening(values[k]);
            proof {
                assert(values@.take(k + 1) =~= values@.take(k as int).push(values@[k as int]));
                assert(opening_entries(so_far + values@.take(k + 1)) =~= opening_entries(
                    so_far + values@.take(k as int),
                ).push(TranscriptEntry::Opening(values@[k as int])));
                assert(transcript.log() =~= before + opening_entries(
                    so_far + values@.take(k + 1),
                ));
            }
            k += 1;
        }
        assert(values@.take(k as int) =~= values@);
        g += 1;
    }
}

/// Checks a root and absorbs its public values.
pub fn replay_root<'a, E: Field, T: VerifierTranscript<E>>(
    proof: &'a RootProof<E>,
    transcript: &mut T,
) -> (r: Result<PreparedNextWitness<'a, E>, AkitaError>)
    ensures
        final(transcript).log() == old(transcript).log() + proof.absorbed(),
        match r {
            Ok(binding) => proof.replay_refusal() is None && proof.binding() == Ok::<
                NextWitnessModel<E>,
                AkitaError,
            >(binding.model()),
            Err(e) => proof.replay_refusal() matches Some(refusal) && e.alike(refusal),
        },
{
    let ghost before = transcript.log();
    let next_witness = match check_root_shape(proof) {
        Ok(binding) => binding,
        Err(e) => {
            assert(before + proof.absorbed() =~= before);
            return Err(e);
        },
    };
    transcript.absorb_batch_shape(&shape_of(&proof.groups));
    let ghost head = seq![TranscriptEntry::<E>::BatchShape(batch_shape(proof.groups@))];
    assert(transcript.log() =~= before + head);
    if let Some(e) = &proof.relation_refusal {
        return Err(e.repeat());
    }
    let fit: bool = absorb_commitments(&proof.groups, transcript);
    let ghost committed = commitment_entries(proof.groups@, first_misfit(proof.groups@, 0));
    assert(transcript.log() =~= before + (head + committed));
    if !fit {
        return Err(AkitaError::InvalidProof);
    }
    absorb_points(&proof.groups, transcript);
    absorb_openings(&proof.groups, transcript);
    assert(transcript.log() =~= before + proof.absorbed());
    Ok(next_witness)
}

// ---------------------------------------------------------------------------
// The fold
// ---------------------------------------------------------------------------

/// The commitments of the groups in some order.
fn ordered_payloads<E: Copy>(groups: &Vec<RootGroupClaim<E>>, order: &Vec<usize>) -> (r: Result<
    Vec<Vec<E>>,
    AkitaError,
>)
    ensures
        match r {
            Ok(payloads) => {
                &&& forall|i: int| 0 <= i < order@.len() ==> #[trigger] order@[i] < groups@.len()
                &&& payloads@.map_values(|payload: Vec<E>| payload@) == order@.map_values(
                    |g: usize| groups@[g as int].commitment@,
                )
            },
            Err(e) => e is InvalidProof && exists|i: int|
                0 <= i < order@.len() && #[trigger] order@[i] >= groups@.len(),
        },
{
    let mut payloads: Vec<Vec<E>> = Vec::new();
    let mut i: usize = 0;
    while i < order.len()
        invariant
            i <= order@.len(),
            payloads@.len() == i,
            forall|k: int|
                0 <= k < i ==> #[trigger] order@[k] < groups@.len() && payloads@[k]@
                    == groups@[order@[k] as int].commitment@,
        decreases order@.len() - i,
    {
        let group: usize = order[i];
        if group >= groups.len() {
            assert(order@[i as int] >= groups@.len());
            return Err(AkitaError::InvalidProof);
        }
        payloads.push(copy_list(&groups[group].commitment));
        i += 1;
    }
    assert(payloads@.map_values(|payload: Vec<E>| payload@) =~= order@.map_values(
        |g: usize| groups@[g as int].commitment@,
    ));
    Ok(payloads)
}

/// What a root is refused with whose fold fails with an error.
pub open spec fn fold_failure_text(e: ErrorModel) -> Seq<char> {
    "compressed root fold failed: "@ + error::error_text(e)
}

fn fold_failure(error: &AkitaError) -> (e: AkitaError)
    ensures
        e.is_input(fold_failure_text(error@)),
{
    let mut out = message("compressed root fold failed: ");
    push_text(&mut out, error.describe());
    AkitaError::InvalidInput(out)
}

/// Puts a fold together, binds the payload of the opening and hands the fold to
/// the verifier; a fold that fails is reported as invalid input, with the error
/// that it failed with.
pub fn verify_root_inner<E: Field, V: FoldVerifier<E>, T: VerifierTranscript<E>>(
    proof: &RootProof<E>,
    next_witness: PreparedNextWitness<'_, E>,
    verifier: &V,
    transcript: &mut T,
) -> (r: Result<Vec<E>, AkitaError>)
    requires
        proof.divisible(),
        proof.binding() == Ok::<NextWitnessModel<E>, AkitaError>(next_witness.model()),
    ensures
        ({
            let bound = verifier.bound(old(transcript).log(), proof.opening_payload@);
            match r {
                Ok(output) => {
                    &&& proof.layout_refusal() is None
                    &&& proof.domain_refusal() is None
                    &&& bound is Some
                    &&& verifier.verifies(bound->0, proof.prepared())
                    &&& output@ == verifier.output_of(bound->0, proof.prepared())
                    &&& final(transcript).log() == verifier.log_after(bound->0, proof.prepared())
                },
                Err(e) => if proof.layout_refusal() is Some {
                    e.alike(proof.layout_refusal()->0)
                } else if bound is None {
                    verifier.bind_refusal(old(transcript).log(), proof.opening_payload@) == Some(e@)
                } else if proof.domain_refusal() is Some {
                    e.alike(proof.domain_refusal()->0)
                } else {
                    &&& !verifier.verifies(bound->0, proof.prepared())
                    &&& verifier.fold_refusal(bound->0, proof.prepared()) matches Some(inner)
                        && e.is_input(fold_failure_text(inner))
                },
            }
        }),
        proof.layout_refusal() is Some ==> final(transcript).log() == old(transcript).log(),
{
    if let Some(e) = &proof.claim_refusal {
        return Err(e.repeat());
    }
    let order = match &proof.group_order {
        Ok(order) => order,
        Err(e) => {
            return Err(e.repeat());
        },
    };
    let commitment_payloads = match ordered_payloads(&proof.groups, order) {
        Ok(payloads) => payloads,
        Err(e) => {
            return Err(e);
        },
    };
    let w_len: usize = match &proof.witness_len {
        Ok(len) => *len,
        Err(e) => {
            return Err(e.repeat());
        },
    };
    match verifier.bind_opening_payload(&proof.opening_payload, transcript) {
        Ok(()) => {},
        Err(e) => {
            return Err(e);
        },
    }
    let committed: usize = match &proof.committed_witness_len {
        Ok(len) => *len,
        Err(e) => {
            return Err(e.repeat());
        },
    };
    let stage3 = match (&proof.stage3, &proof.next_fold) {
        (Some(messages), Some(_)) => Some(messages),
        _ => None,
    };
    let prepared = PreparedRoot {
        opening_payload: &proof.opening_payload,
        opening_shape: shape_of(&proof.groups),
        commitment_payloads,
        w_len,
        stage1: &proof.stage1,
        stage2: &proof.stage2,
        next_witness,
        next_witness_ring_dim: proof.next_witness_ring_dim,
        next_opening_source_len: committed / proof.next_witness_ring_dim,
        stage3,
        basis: proof.basis,
    };
    assert(prepared.model() == proof.prepared());
    match verifier.verify_fold(transcript, &prepared) {
        Ok(output) => Ok(output),
        Err(error) => Err(fold_failure(&error)),
    }
}

/// Replays a root fold.
pub fn verify_root<E: Field, V: FoldVerifier<E>, T: VerifierTranscript<E>>(
    proof: &RootProof<E>,
    verifier: &V,
    transcript: &mut T,
) -> (r: Result<Vec<E>, AkitaError>)
    requires
        proof.divisible(),
    ensures
        ({
            let exchanged = old(transcript).log() + proof.absorbed();
            let bound = verifier.bound(exchanged, proof.opening_payload@);
            match r {
                Ok(output) => {
                    &&& proof.replay_refusal() is None
                    &&& proof.layout_refusal() is None
                    &&& proof.domain_refusal() is None
                    &&& bound is Some
                    &&& verifier.verifies(bound->0, proof.prepared())
                    &&& output@ == verifier.output_of(bound->0, proof.prepared())
                    &&& final(transcript).log() == verifier.log_after(bound->0, proof.prepared())
                },
                Err(e) => if proof.replay_refusal() is Some {
                    e.alike(proof.replay_refusal()->0)
                } else if proof.layout_refusal() is Some {
                    e.alike(proof.layout_refusal()->0)
                } else if bound is None {
                    verifier.bind_refusal(exchanged, proof.opening_payload@) == Some(e@)
                } else if proof.domain_refusal() is Some {
                    e.alike(proof.domain_refusal()->0)
                } else {
                    &&& !verifier.verifies(bound->0, proof.prepared())
                    &&& verifier.fold_refusal(bound->0, proof.prepared()) matches Some(inner)
                        && e.is_input(fold_failure_text(inner))
                },
            }
        }),
        proof.replay_refusal() is Some || proof.layout_refusal() is Some
            ==> final(transcript).log() == old(transcript).log() + proof.absorbed(),
{
    let next_witness = match replay_root(proof, transcript) {
        Ok(binding) => binding,
        Err(e) => {
            return Err(e);
        },
    };
    verify_root_inner(proof, next_witness, verifier, transcript)
}

/// A verifier that absorbs the payload of an opening value by value and accepts
/// every fold or none. What it hands out are the commitments of a fold, one
/// after the other.
#[derive(Clone, Copy, Debug, PartialEq, Eq, Structural)]
pub struct FixedVerdict {
    pub accepts: bool,
}

/// Lists, one after the other.
pub open spec fn concatenated<E>(lists: Seq<Seq<E>>, n: nat) -> Seq<E>
    decreases n,
{
    if n == 0 {
        Seq::empty()
    } else {
        concatenated(lists, (n - 1) as nat) + lists[n - 1]
    }
}

impl<E: Field> FoldVerifier<E> for FixedVerdict {
    open spec fn bound(&self, log: Seq<TranscriptEntry<E>>, opening_payload: Seq<E>) -> Option<
        Seq<TranscriptEntry<E>>,
    > {
        Some(log + opening_entries(opening_payload))
    }

    open spec fn bind_refusal(
        &self,
        log: Seq<TranscriptEntry<E>>,
        opening_payload: Seq<E>,
    ) -> Option<ErrorModel> {
        None
    }

    fn bind_opening_payload<T: VerifierTranscript<E>>(
        &self,
        opening_payload: &Vec<E>,
        transcript: &mut T,
    ) -> (r: Result<(), AkitaError>) {
        let ghost before = transcript.log();
        let ghost entries = opening_entries(opening_payload@);
        let mut k: usize = 0;
        assert(before + entries.take(0) =~= before);
        while k < opening_payload.len()
            invariant
                k <= opening_payload@.len(),
                entries == opening_entries(opening_payload@),
                transcript.log() == before + entries.take(k as int),
            decreases opening_payload@.len() - k,
        {
            transcript.absorb_opening(opening_payload[k]);
            proof {
                assert(entries.take(k + 1) =~= entries.take(k as int).push(entries[k as int]));
                assert(transcript.log() =~= before + entries.take(k + 1));
            }
            k += 1;
        }
        assert(entries.take(k as int) =~= entries);
        Ok(())
    }

    open spec fn verifies(
        &self,
        log: Seq<TranscriptEntry<E>>,
        prepared: PreparedModel<E>,
    ) -> bool {
        self.accepts
    }

    open spec fn fold_refusal(
        &self,
        log: Seq<TranscriptEntry<E>>,
        prepared: PreparedModel<E>,
    ) -> Option<ErrorModel> {
        Some(ErrorModel::InvalidProof)
    }

    open spec fn output_of(
        &self,
        log: Seq<TranscriptEntry<E>>,
        prepared: PreparedModel<E>,
    ) -> Seq<E> {
        concatenated(prepared.payloads, prepared.payloads.len())
    }

    open spec fn log_after(
        &self,
        log: Seq<TranscriptEntry<E>>,
        prepared: PreparedModel<E>,
    ) -> Seq<TranscriptEntry<E>> {
        log
    }

    fn verify_fold<T: VerifierTranscript<E>>(
        &self,
        transcript: &mut T,
        prepared: &PreparedRoot<'_, E>,
    ) -> (r: Result<Vec<E>, AkitaError>) {
        if self.accepts {
            let ghost lists = prepared.model().payloads;
            let mut output: Vec<E> = Vec::new();
            let mut i: usize = 0;
            assert(output@ =~= concatenated(lists, 0));
            while i < prepared.commitment_payloads.len()
                invariant
                    i <= lists.len(),
                    lists == prepared.commitment_payloads@.map_values(
                        |payload: Vec<E>| payload@,
                    ),
                    output@ == concatenated(lists, i as nat),
                decreases prepared.commitment_payloads@.len() - i,
            {
                let mut payload = copy_list(&prepared.commitment_payloads[i]);
                output.append(&mut payload);
                i += 1;
            }
            Ok(output)
        } else {
            Err(AkitaError::InvalidProof)
        }
    }
}

// ---------------------------------------------------------------------------
// What a replayed root has bound
// ---------------------------------------------------------------------------

/// The sum of the first `g` of some lengths.
pub open spec fn lengths_before(lengths: Seq<nat>, g: nat) -> nat
    decreases g,
{
    if g == 0 {
        0
    } else {
        lengths_before(lengths, (g - 1) as nat) + lengths[g - 1]
    }
}

/// The number of coordinates of each group.
pub open spec fn point_lengths<E>(groups: Seq<RootGroupClaim<E>>) -> Seq<nat> {
    Seq::new(groups.len(), |g: int| groups[g].point@.len())
}

/// The number of claimed openings of each group.
pub open spec fn opening_lengths<E>(groups: Seq<RootGroupClaim<E>>) -> Seq<nat> {
    Seq::new(groups.len(), |g: int| groups[g].evaluations@.len())
}

/// The number of polynomials of each group.
pub open spec fn polynomial_counts<E>(groups: Seq<RootGroupClaim<E>>) -> Seq<nat> {
    Seq::new(groups.len(), |g: int| groups[g].layout.num_polynomials as nat)
}

/// What a replay that is not refused absorbs: the layout of every group, then the
/// commitment of every group over the last ring of its plan, then every
/// coordinate of every point, then every claimed opening of every group. Those
/// of a group stand behind those of all groups before it, and nothing else is
/// absorbed.
pub proof fn law_replays_absorb_every_public_value<E>(proof: RootProof<E>)
    requires
        proof.replay_refusal() is None,
    ensures
        ({
            let groups = proof.groups@;
            let n = groups.len();
            let log = proof.absorbed();
            let points = 1 + n;
            let claims = points + lengths_before(point_lengths(groups), n);
            &&& log.len() == claims + lengths_before(opening_lengths(groups), n)
            &&& log[0] matches TranscriptEntry::BatchShape(shape) && {
                &&& shape.len() == n
                &&& forall|g: int| 0 <= g < n ==> #[trigger] shape[g] == groups[g].layout
            }
            &&& forall|g: int|
                0 <= g < n ==> #[trigger] log[1 + g] == (TranscriptEntry::Commitment {
                    coefficients: groups[g].commitment@,
                    ring_dimension: groups[g].map_dimensions@[groups[g].map_dimensions@.len() - 1],
                })
            &&& forall|g: int, k: int|
                0 <= g < n && 0 <= k < groups[g].point@.len() ==> #[trigger] log[points
                    + lengths_before(point_lengths(groups), g as nat) + k]
                    == TranscriptEntry::Coordinate(groups[g].point@[k])
            &&& forall|g: int, k: int|
                0 <= g < n && 0 <= k < groups[g].evaluations@.len() ==> #[trigger] log[claims
                    + lengths_before(opening_lengths(groups), g as nat) + k]
                    == TranscriptEntry::Opening(groups[g].evaluations@[k])
        }),
{
    let groups = proof.groups@;
    let n = groups.len();
    let log = proof.absorbed();
    law_misfits_end_a_replay(groups, 0);
    let points = 1 + n;
    let claims = points + lengths_before(point_lengths(groups), n);
    lemma_coordinates(groups, n);
    lemma_openings(groups, n);
    let flat = coordinates(groups, n);
    let claimed = openings(groups, n);
    assert forall|g: int, k: int| 0 <= g < n && 0 <= k < groups[g].point@.len() implies #[trigger] log[
    points + lengths_before(point_lengths(groups), g as nat) + k] == TranscriptEntry::Coordinate(
        groups[g].point@[k],
    ) by {
        let at = lengths_before(point_lengths(groups), g as nat) + k;
        assert(flat[at] == groups[g].point@[k]);
        lemma_lengths(point_lengths(groups), (g + 1) as nat, n);
        assert(log[points + at] == coordinate_entries(flat)[at]);
    }
    assert forall|g: int, k: int|
        0 <= g < n && 0 <= k < groups[g].evaluations@.len() implies #[trigger] log[claims
        + lengths_before(opening_lengths(groups), g as nat) + k] == TranscriptEntry::Opening(
        groups[g].evaluations@[k],
    ) by {
        let at = lengths_before(opening_lengths(groups), g as nat) + k;
        assert(claimed[at] == groups[g].evaluations@[k]);
        lemma_lengths(opening_lengths(groups), (g + 1) as nat, n);
        assert(log[claims + at] == opening_entries(claimed)[at]);
    }
}

/// A replay that is refused has absorbed nothing where the shape of the proof is
/// wrong, the layouts alone where the relation has no layout, and the layouts and
/// the commitments before the first that does not fit otherwise.
pub proof fn law_refused_replays_stop_early<E>(proof: RootProof<E>)
    requires
        proof.replay_refusal() is Some,
    ensures
        ({
            let groups = proof.groups@;
            let log = proof.absorbed();
            if proof.shape_refusal() is Some {
                log.len() == 0 && proof.replay_refusal() == proof.shape_refusal()
            } else {
                &&& log[0] matches TranscriptEntry::BatchShape(shape) && {
                    &&& shape.len() == groups.len()
                    &&& forall|g: int|
                        0 <= g < groups.len() ==> #[trigger] shape[g] == groups[g].layout
                }
                &&& if proof.relation_refusal is Some {
                    log.len() == 1 && proof.replay_refusal() == proof.relation_refusal
                } else {
                    let fitting = log.len() - 1;
                    &&& 0 <= fitting < groups.len()
                    &&& proof.replay_refusal()->0 is InvalidProof
                    &&& groups[fitting].map_dimensions@.len() == 0
                        || groups[fitting].commitment@.len()
                        != groups[fitting].terminal_coefficients
                    &&& forall|g: int|
                        0 <= g < fitting ==> #[trigger] log[1 + g] == (TranscriptEntry::Commitment {
                            coefficients: groups[g].commitment@,
                            ring_dimension: groups[g].map_dimensions@[groups[g].map_dimensions@.len()
                                - 1],
                        }) && groups[g].commitment@.len() == groups[g].terminal_coefficients
                            && groups[g].map_dimensions@.len() > 0
                }
            }
        }),
{
    let groups = proof.groups@;
    let log = proof.absorbed();
    law_misfits_end_a_replay(groups, 0);
    if proof.shape_refusal() is None && proof.relation_refusal is None {
        let fitting = first_misfit(groups, 0);
        assert(log.len() == 1 + fitting);
        assert forall|g: int| 0 <= g < fitting implies #[trigger] log[1 + g] == (
        TranscriptEntry::Commitment {
            coefficients: groups[g].commitment@,
            ring_dimension: groups[g].map_dimensions@[groups[g].map_dimensions@.len() - 1],
        }) && groups[g].commitment@.len() == groups[g].terminal_coefficients
            && groups[g].map_dimensions@.len() > 0 by {
            assert(commitment_fits(groups[g]));
        }
    }
}

/// The first misfit from a group on: the groups before it fit, and it does not,
/// unless all fit. A commitment fits that has the coefficients its plan ends
/// with, where the plan has a map.
pub proof fn law_misfits_end_a_replay<E>(groups: Seq<RootGroupClaim<E>>, g: nat)
    requires
        g <= groups.len(),
    ensures
        g <= first_misfit(groups, g) <= groups.len(),
        forall|h: int|
            g <= h < first_misfit(groups, g) ==> #[trigger] commitment_fits(groups[h]),
        forall|h: int|
            g <= h < first_misfit(groups, g) ==> (#[trigger] groups[h]).commitment@.len()
                == groups[h].terminal_coefficients && groups[h].map_dimensions@.len() > 0,
        first_misfit(groups, g) < groups.len() ==> {
            let misfit = groups[first_misfit(groups, g) as int];
            misfit.commitment@.len() != misfit.terminal_coefficients
                || misfit.map_dimensions@.len() == 0
        },
    decreases groups.len() - g,
{
    if g < groups.len() && commitment_fits(groups[g as int]) {
        law_misfits_end_a_replay(groups, g + 1);
    }
}

/// A proof has the shape of a root exactly when it has no extension reduction and
/// a canonical source, its batch is not refused, no group is opened by a trace,
/// it accounts for the setup by a sumcheck exactly where the next fold asks for
/// one, either commits to the next witness before a fold or ends in a state, and
/// claims as many openings as there are polynomials.
pub proof fn law_shapes_of_roots<E>(proof: RootProof<E>)
    ensures
        proof.shape_refusal() is None <==> {
            let groups = proof.groups@;
            &&& !proof.has_extension_reduction
            &&& proof.canonical_source
            &&& proof.batch_refusal is None
            &&& forall|g: int|
                0 <= g < groups.len() ==> !((#[trigger] groups[g]).opening_method
                    is EvaluationTrace)
            &&& proof.stage3 is Some <==> (proof.next_fold is Some
                && proof.next_fold->0.predecessor_setup is Recursive)
            &&& {
                ||| proof.next_payload is Some && proof.terminal_state is None && proof.next_fold
                    is Some && proof.next_fold->0.transcript_ring_dimension is Ok
                ||| proof.next_payload is None && proof.terminal_state is Some
                    && proof.terminal_state->0@.len() > 0
            }
            &&& lengths_before(opening_lengths(groups), groups.len()) == lengths_before(
                polynomial_counts(groups),
                groups.len(),
            )
        },
        proof.shape_refusal() is None ==> match proof.binding() {
            Ok(NextWitnessModel::Commitment { commitment, ring_dim }) => proof.next_payload
                is Some && commitment == proof.next_payload->0@ && Ok::<usize, AkitaError>(ring_dim)
                == proof.next_fold->0.transcript_ring_dimension,
            Ok(NextWitnessModel::TerminalT(state)) => proof.terminal_state is Some && state
                == proof.terminal_state->0@,
            Err(_) => false,
        },
{
    let groups = proof.groups@;
    lemma_openings(groups, groups.len());
    lemma_polynomials(groups, groups.len());
    if forall|g: int|
        0 <= g < groups.len() ==> !((#[trigger] groups[g]).opening_method is EvaluationTrace) {
        assert(!(exists|g: int|
            0 <= g < groups.len() && (#[trigger] proof.groups@[g]).opening_method
                is EvaluationTrace));
    }
}

/// What a fold is prepared with: the commitments by the order of the relation's
/// rows, the layouts by the order of the groups, the proof's own messages, and
/// the number of ring elements of the domain that the next witness is committed
/// over.
pub proof fn law_folds_are_prepared_from_the_proof<E>(proof: RootProof<E>)
    requires
        proof.layout_refusal() is None,
        proof.domain_refusal() is None,
        proof.next_witness_ring_dim > 0,
    ensures
        ({
            let fold = proof.prepared();
            let order = proof.group_order->Ok_0@;
            &&& fold.opening_payload == proof.opening_payload@
            &&& fold.opening_shape.len() == proof.groups@.len()
            &&& forall|g: int|
                0 <= g < proof.groups@.len() ==> #[trigger] fold.opening_shape[g]
                    == proof.groups@[g].layout
            &&& fold.payloads.len() == order.len()
            &&& forall|i: int|
                0 <= i < order.len() ==> order[i] < proof.groups@.len()
                    && #[trigger] fold.payloads[i] == proof.groups@[order[i] as int].commitment@
            &&& Ok::<usize, AkitaError>(fold.w_len) == proof.witness_len
            &&& fold.stage1 == proof.stage1@
            &&& fold.stage2 == proof.stage2@
            &&& fold.stage3 is Some <==> (proof.stage3 is Some && proof.next_fold is Some)
            &&& fold.stage3 is Some ==> fold.stage3->0 == proof.stage3->0@
            &&& fold.basis == proof.basis
            &&& fold.next_witness_ring_dim == proof.next_witness_ring_dim
            &&& fold.next_opening_source_len * fold.next_witness_ring_dim
                <= proof.committed_witness_len->Ok_0
                < (fold.next_opening_source_len + 1) * fold.next_witness_ring_dim
        }),
{
    let fold = proof.prepared();
    let order = proof.group_order->Ok_0@;
    assert forall|i: int| 0 <= i < order.len() implies order[i] < proof.groups@.len()
        && #[trigger] fold.payloads[i] == proof.groups@[order[i] as int].commitment@ by {
        assert(!(order[i] >= proof.groups@.len()));
    }
    let (a, d) = (proof.committed_witness_len->Ok_0 as int, proof.next_witness_ring_dim as int);
    vstd::arithmetic::div_mod::lemma_fundamental_div_mod(a, d);
    vstd::arithmetic::div_mod::lemma_div_is_ordered_by_denominator(a, 1, d);
    let q = a / d;
    assert(a % d == a - d * q);
    assert(q * d <= a < (q + 1) * d) by (nonlinear_arith)
        requires
            0 <= a - d * q < d,
    ;
    assert(0 <= q <= a) by (nonlinear_arith)
        requires
            q * d <= a < (q + 1) * d,
            d >= 1,
            a >= 0,
    ;
}

proof fn lemma_lengths(lengths: Seq<nat>, g: nat, n: nat)
    requires
        g <= n,
    ensures
        lengths_before(lengths, g) <= lengths_before(lengths, n),
    decreases n,
{
    if g < n {
        lemma_lengths(lengths, g, (n - 1) as nat);
    }
}

proof fn lemma_coordinates<E>(groups: Seq<RootGroupClaim<E>>, n: nat)
    requires
        n <= groups.len(),
    ensures
        coordinates(groups, n).len() == lengths_before(point_lengths(groups), n),
        forall|g: int, k: int|
            0 <= g < n && 0 <= k < groups[g].point@.len() ==> #[trigger] coordinates(
                groups,
                n,
            )[lengths_before(point_lengths(groups), g as nat) + k] == groups[g].point@[k],
    decreases n,
{
    if n > 0 {
        lemma_coordinates(groups, (n - 1) as nat);
        let before = coordinates(groups, (n - 1) as nat);
        assert forall|g: int, k: int|
            0 <= g < n && 0 <= k < groups[g].point@.len() implies #[trigger] coordinates(
            groups,
            n,
        )[lengths_before(point_lengths(groups), g as nat) + k] == groups[g].point@[k] by {
            if g < n - 1 {
                lemma_lengths(point_lengths(groups), (g + 1) as nat, (n - 1) as nat);
                assert(before[lengths_before(point_lengths(groups), g as nat) + k]
                    == groups[g].point@[k]);
            }
        }
    }
}

proof fn lemma_openings<E>(groups: Seq<RootGroupClaim<E>>, n: nat)
    requires
        n <= groups.len(),
    ensures
        openings(groups, n).len() == lengths_before(opening_lengths(groups), n),
        forall|g: int, k: int|
            0 <= g < n && 0 <= k < groups[g].evaluations@.len() ==> #[trigger] openings(
                groups,
                n,
            )[lengths_before(opening_lengths(groups), g as nat) + k] == groups[g].evaluations@[k],
    decreases n,
{
    if n > 0 {
        lemma_openings(groups, (n - 1) as nat);
        let before = openings(groups, (n - 1) as nat);
        assert forall|g: int, k: int|
            0 <= g < n && 0 <= k < groups[g].evaluations@.len() implies #[trigger] openings(
            groups,
            n,
        )[lengths_before(opening_lengths(groups), g as nat) + k] == groups[g].evaluations@[k] by {
            if g < n - 1 {
                lemma_lengths(opening_lengths(groups), (g + 1) as nat, (n - 1) as nat);
                assert(before[lengths_before(opening_lengths(groups), g as nat) + k]
                    == groups[g].evaluations@[k]);
            }
        }
    }
}

proof fn lemma_polynomials<E>(groups: Seq<RootGroupClaim<E>>, n: nat)
    requires
        n <= groups.len(),
    ensures
        polynomials(groups, n) == lengths_before(polynomial_counts(groups), n),
    decreases n,
{
    if n > 0 {
        lemma_polynomials(groups, (n - 1) as nat);
    }
}

/// A replay is refused exactly where the shape of the proof is not that of a root,
/// where the relation has no layout, or where some commitment does not have the
/// coefficients that its plan ends with or its plan has no map.
pub proof fn law_replays_succeed<E>(proof: RootProof<E>)
    ensures
        proof.replay_refusal() is None <==> {
            &&& proof.shape_refusal() is None
            &&& proof.relation_refusal is None
            &&& forall|g: int|
                0 <= g < proof.groups@.len() ==> (#[trigger] proof.groups@[g]).commitment@.len()
                    == proof.groups@[g].terminal_coefficients
                    && proof.groups@[g].map_dimensions@.len() > 0
        },
{
    law_misfits_end_a_replay(proof.groups@, 0);
}

/// A fold is laid out exactly where the claims fit the packed openings, the groups
/// have an order that names groups of the proof only, and the next witness has a
/// length.
pub proof fn law_layouts_succeed<E>(proof: RootProof<E>)
    ensures
        proof.layout_refusal() is None <==> {
            &&& proof.claim_refusal is None
            &&& proof.group_order is Ok
            &&& forall|i: int|
                0 <= i < proof.group_order->Ok_0@.len()
                    ==> #[trigger] proof.group_order->Ok_0@[i] < proof.groups@.len()
            &&& proof.witness_len is Ok
        },
{
    if proof.group_order is Ok {
        let order = proof.group_order->Ok_0;
        if proof.layout_refusal() is None {
            assert forall|i: int| 0 <= i < order@.len() implies #[trigger] order@[i]
                < proof.groups@.len() by {
                assert(!(order@[i] >= proof.groups@.len()));
            }
        }
        if exists|i: int| 0 <= i < order@.len() && #[trigger] order@[i] >= proof.groups@.len() {
            let i = choose|i: int|
                0 <= i < order@.len() && #[trigger] order@[i] >= proof.groups@.len();
            assert(!(order@[i] < proof.groups@.len()));
        }
    }
}

} // verus!
