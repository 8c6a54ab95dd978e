//! What a verifier exchanges with its transcript.
//!
//! A transcript takes in values and hands out challenges. What it took in and
//! handed out, in order, is its log; a verifier's contract says which entries
//! it adds.

use crate::assignments::copy_list;
use crate::error::{AkitaError, ErrorModel};
use crate::field::Field;
use crate::params::PolynomialGroupLayout;
use vstd::prelude::*;

verus! {

/// A place where a challenge is drawn.
#[derive(Clone, Copy, Debug, PartialEq, Eq, Structural)]
pub enum ChallengeSite {
    L2SubclaimBatch { level: u32 },
    L2NormMerge { level: u32 },
}

/// One entry of a log.
pub enum TranscriptEntry<E> {
    /// The claimed norm.
    Integer(u128),
    /// A claimed inner product.
    Subclaim(E),
    /// A value at the point of a reduction.
    VirtualEvaluation(E),
    /// A challenge.
    Challenge { site: ChallengeSite, value: E },
    /// A sumcheck: what it started from and what it was reduced to.
    Reduction { level: u32, rounds: usize, degree: usize, claim: E, point: Seq<E>, output: E },
    /// The shape of a batch of openings.
    BatchShape(Seq<PolynomialGroupLayout>),
    /// The coefficients of a commitment, seen over a ring of some degree.
    Commitment { coefficients: Seq<E>, ring_dimension: usize },
    /// A coordinate of an opening point.
    Coordinate(E),
    /// A claimed opening.
    Opening(E),
}

/// What a sumcheck was reduced to.
pub struct Reduction<E> {
    pub point: Vec<E>,
    pub output: E,
}

impl<E> Reduction<E> {
    pub open spec fn model(self) -> (Seq<E>, E) {
        (self.point@, self.output)
    }
}

/// What a transcript answers, by what was exchanged before.
#[verifier::reject_recursive_types(E)]
pub struct Replies<E> {
    /// The challenge at a site, unless the proof fails to pay for it.
    pub challenge: spec_fn(Seq<TranscriptEntry<E>>, ChallengeSite) -> Result<E, ErrorModel>,
    /// The point and the output of a sumcheck of some level, number of rounds,
    /// degree and claim, unless one of its rounds fails.
    pub reduction: spec_fn(Seq<TranscriptEntry<E>>, u32, usize, usize, E) -> Result<
        (Seq<E>, E),
        ErrorModel,
    >,
}

/// A transcript as a verifier sees it. Its replies depend on nothing but what
/// was exchanged before.
pub trait VerifierTranscript<E: Field>: Sized {
    /// What was exchanged so far.
    spec fn log(&self) -> Seq<TranscriptEntry<E>>;

    /// How it answers.
    spec fn replies(&self) -> Replies<E>;

    fn absorb_integer(&mut self, value: u128)
        ensures
            final(self).log() == old(self).log().push(TranscriptEntry::Integer(value)),
            final(self).replies() == old(self).replies(),
    ;

    fn absorb_subclaim(&mut self, value: E)
        ensures
            final(self).log() == old(self).log().push(TranscriptEntry::Subclaim(value)),
            final(self).replies() == old(self).replies(),
    ;

    fn absorb_virtual_evaluation(&mut self, value: E)
        ensures
            final(self).log() == old(self).log().push(TranscriptEntry::VirtualEvaluation(value)),
            final(self).replies() == old(self).replies(),
    ;

    fn absorb_batch_shape(&mut self, shape: &Vec<PolynomialGroupLayout>)
        ensures
            final(self).log() == old(self).log().push(TranscriptEntry::BatchShape(shape@)),
            final(self).replies() == old(self).replies(),
    ;

    fn absorb_commitment(&mut self, coefficients: &Vec<E>, ring_dimension: usize)
        ensures
            final(self).log() == old(self).log().push(
                TranscriptEntry::Commitment { coefficients: coefficients@, ring_dimension },
            ),
            final(self).replies() == old(self).replies(),
    ;

    fn absorb_coordinate(&mut self, value: E)
        ensures
            final(self).log() == old(self).log().push(TranscriptEntry::Coordinate(value)),
            final(self).replies() == old(self).replies(),
    ;

    fn absorb_opening(&mut self, value: E)
        ensures
            final(self).log() == old(self).log().push(TranscriptEntry::Opening(value)),
            final(self).replies() == old(self).replies(),
    ;

    /// Draws a challenge, unless the proof fails to pay for it.
    fn challenge(&mut self, site: ChallengeSite) -> (r: Result<E, AkitaError>)
        ensures
            final(self).replies() == old(self).replies(),
            match r {
                Ok(value) => (old(self).replies().challenge)(old(self).log(), site) == Ok::<
                    E,
                    ErrorModel,
                >(value) && final(self).log() == old(self).log().push(
                    TranscriptEntry::Challenge { site, value },
                ),
                Err(e) => (old(self).replies().challenge)(old(self).log(), site) == Err::<
                    E,
                    ErrorModel,
                >(e@),
            },
    ;

    /// Runs the rounds of a sumcheck, unless one of them fails.
    fn reduce(&mut self, level: u32, rounds: usize, degree: usize, claim: E) -> (r: Result<
        Reduction<E>,
        AkitaError,
    >)
        ensures
            final(self).replies() == old(self).replies(),
            match r {
                Ok(reduction) => (old(self).replies().reduction)(
                    old(self).log(),
                    level,
                    rounds,
                    degree,
                    claim,
                ) == Ok::<(Seq<E>, E), ErrorModel>(reduction.model()) && final(self).log() == old(self).log().push(
                    TranscriptEntry::Reduction {
                        level,
                        rounds,
                        degree,
                        claim,
                        point: reduction.point@,
                        output: reduction.output,
                    },
                ),
                Err(e) => (old(self).replies().reduction)(
                    old(self).log(),
                    level,
                    rounds,
                    degree,
                    claim,
                ) == Err::<(Seq<E>, E), ErrorModel>(e@),
            },
    ;
}

// ---------------------------------------------------------------------------
// Scripts
// ---------------------------------------------------------------------------

/// The number of challenges in a log.
pub open spec fn draws<E>(log: Seq<TranscriptEntry<E>>) -> nat
    decreases log.len(),
{
    if log.len() == 0 {
        0
    } else if log.last() is Challenge {
        draws(log.drop_last()) + 1
    } else {
        draws(log.drop_last())
    }
}

/// The number of sumchecks in a log.
pub open spec fn reductions<E>(log: Seq<TranscriptEntry<E>>) -> nat
    decreases log.len(),
{
    if log.len() == 0 {
        0
    } else if log.last() is Reduction {
        reductions(log.drop_last()) + 1
    } else {
        reductions(log.drop_last())
    }
}

proof fn lemma_push<E>(log: Seq<TranscriptEntry<E>>, entry: TranscriptEntry<E>)
    ensures
        draws(log.push(entry)) == draws(log) + if entry is Challenge {
            1nat
        } else {
            0nat
        },
        reductions(log.push(entry)) == reductions(log) + if entry is Reduction {
            1nat
        } else {
            0nat
        },
{
    assert(log.push(entry).drop_last() =~= log);
}

/// Challenges handed out one after the other.
pub open spec fn scripted_challenges<E>(challenges: Seq<E>) -> spec_fn(
    Seq<TranscriptEntry<E>>,
    ChallengeSite,
) -> Result<E, ErrorModel> {
    |log: Seq<TranscriptEntry<E>>, site: ChallengeSite|
        if draws(log) < challenges.len() {
            Ok(challenges[draws(log) as int])
        } else {
            Err(ErrorModel::InvalidProof)
        }
}

/// Reductions handed out one after the other.
pub open spec fn scripted_reductions<E>(script: Seq<Reduction<E>>) -> spec_fn(
    Seq<TranscriptEntry<E>>,
    u32,
    usize,
    usize,
    E,
) -> Result<(Seq<E>, E), ErrorModel> {
    |log: Seq<TranscriptEntry<E>>, level: u32, rounds: usize, degree: usize, claim: E|
        if reductions(log) < script.len() {
            Ok(script[reductions(log) as int].model())
        } else {
            Err(ErrorModel::InvalidProof)
        }
}

/// How far a script has been played.
struct Progress<E> {
    drawn: usize,
    reduced: usize,
    entries: Ghost<Seq<TranscriptEntry<E>>>,
}

/// A transcript with prepared replies, for replaying an exchange.
pub struct ScriptedTranscript<E> {
    challenges: Vec<E>,
    reductions: Vec<Reduction<E>>,
    progress: Progress<E>,
}

impl<E> ScriptedTranscript<E> {
    #[verifier::type_invariant]
    spec fn consistent(self) -> bool {
        &&& self.progress.drawn == draws(self.progress.entries@)
        &&& self.progress.reduced == reductions(self.progress.entries@)
    }
}

impl<E: Field> ScriptedTranscript<E> {
    /// A transcript that hands out the given challenges and the given
    /// reductions in order.
    pub fn new(challenges: Vec<E>, reductions: Vec<Reduction<E>>) -> (t: Self)
        ensures
            t.log() == Seq::<TranscriptEntry<E>>::empty(),
            t.replies() == (Replies {
                challenge: scripted_challenges(challenges@),
                reduction: scripted_reductions(reductions@),
            }),
    {
        ScriptedTranscript {
            challenges,
            reductions,
            progress: Progress { drawn: 0, reduced: 0, entries: Ghost(Seq::empty()) },
        }
    }

    /// Records an entry that is no reply.
    fn record(&mut self, entry: Ghost<TranscriptEntry<E>>)
        requires
            !(entry@ is Challenge),
            !(entry@ is Reduction),
        ensures
            final(self).log() == old(self).log().push(entry@),
            final(self).replies() == old(self).replies(),
    {
        let drawn: usize = self.progress.drawn;
        let reduced: usize = self.progress.reduced;
        proof {
            use_type_invariant(&*self);
            lemma_push(self.progress.entries@, entry@);
        }
        self.progress =
        Progress { drawn, reduced, entries: Ghost(self.progress.entries@.push(entry@)) };
    }
}

impl<E: Field> VerifierTranscript<E> for ScriptedTranscript<E> {
    closed spec fn log(&self) -> Seq<TranscriptEntry<E>> {
        self.progress.entries@
    }

    closed spec fn replies(&self) -> Replies<E> {
        Replies {
            challenge: scripted_challenges(self.challenges@),
            reduction: scripted_reductions(self.reductions@),
        }
    }

    fn absorb_integer(&mut self, value: u128) {
        self.record(Ghost(TranscriptEntry::Integer(value)));
    }

    fn absorb_subclaim(&mut self, value: E) {
        self.record(Ghost(TranscriptEntry::Subclaim(value)));
    }

    fn absorb_virtual_evaluation(&mut self, value: E) {
        self.record(Ghost(TranscriptEntry::VirtualEvaluation(value)));
    }

    fn absorb_batch_shape(&mut self, shape: &Vec<PolynomialGroupLayout>) {
        self.record(Ghost(TranscriptEntry::BatchShape(shape@)));
    }

    fn absorb_commitment(&mut self, coefficients: &Vec<E>, ring_dimension: usize) {
        self.record(
            Ghost(TranscriptEntry::Commitment { coefficients: coefficients@, ring_dimension }),
        );
    }

    fn absorb_coordinate(&mut self, value: E) {
        self.record(Ghost(TranscriptEntry::Coordinate(value)));
    }

    fn absorb_opening(&mut self, value: E) {
        self.record(Ghost(TranscriptEntry::Opening(value)));
    }

    fn challenge(&mut self, site: ChallengeSite) -> (r: Result<E, AkitaError>) {
        let drawn: usize = self.progress.drawn;
        let reduced: usize = self.progress.reduced;
        proof {
            use_type_invariant(&*self);
        }
        if drawn >= self.challenges.len() {
            return Err(AkitaError::InvalidProof);
        }
        let value = self.challenges[drawn];
        let ghost entry = TranscriptEntry::Challenge { site, value };
        proof {
            lemma_push(self.progress.entries@, entry);
        }
        self.progress =
        Progress {
            drawn: drawn + 1,
            reduced,
            entries: Ghost(self.progress.entries@.push(entry)),
        };
        Ok(value)
    }

    fn reduce(&mut self, level: u32, rounds: usize, degree: usize, claim: E) -> (r: Result<
        Reduction<E>,
        AkitaError,
    >) {
        let drawn: usize = self.progress.drawn;
        let reduced: usize = self.progress.reduced;
        proof {
            use_type_invariant(&*self);
        }
        if reduced >= self.reductions.len() {
            return Err(AkitaError::InvalidProof);
        }
        let scripted = &self.reductions[reduced];
        let reduction = Reduction { point: copy_list(&scripted.point), output: scripted.output };
        let ghost entry = TranscriptEntry::Reduction {
            level,
            rounds,
            degree,
            claim,
            point: reduction.point@,
            output: reduction.output,
        };
        proof {
            lemma_push(self.progress.entries@, entry);
        }
        self.progress =
        Progress {
            drawn,
            reduced: reduced + 1,
            entries: Ghost(self.progress.entries@.push(entry)),
        };
        Ok(reduction)
    }
}

} // verus!
