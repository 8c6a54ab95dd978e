//! Producers of precommitted groups and requests for grouped schedules.

use crate::error::AkitaError;
use crate::params::{
    AkitaScheduleLookupKey, GroupCommitPhaseParams, HonestFoldPolicySpec, PolynomialGroupLayout,
};
use crate::walk::PlannedFoldSchedule;
use vstd::prelude::*;
use vstd::string::*;

verus! {

/// What kind of values a committed source holds, and how large they are.
#[derive(Clone, Copy, Debug, PartialEq, Eq, Structural)]
pub struct CommittedSourceClass {
    pub kind: u32,
    pub bound: u128,
}

/// What a producer declares of its committed sources.
#[derive(Clone, Copy, Debug, PartialEq, Eq, Structural)]
pub struct CommittedSourceContract {
    pub class: CommittedSourceClass,
}

impl CommittedSourceContract {
    /// The class of the sources.
    pub fn class(&self) -> (r: CommittedSourceClass)
        ensures
            r == self.class,
    {
        self.class
    }
}

/// What the materialization of rows reports while it runs.
#[derive(Clone, Copy, Debug)]
pub struct MaterializationDiagnostics {
    pub row_progress: bool,
}

impl Default for MaterializationDiagnostics {
    /// Nothing is reported.
    fn default() -> (r: Self)
        ensures
            !r.row_progress,
    {
        MaterializationDiagnostics { row_progress: false }
    }
}

/// A frozen profile with what its producer declares.
#[derive(Clone, Copy, Debug, PartialEq, Eq, Structural)]
pub struct PrecommittedProducer {
    pub descriptor: GroupCommitPhaseParams,
    pub contract: CommittedSourceContract,
    pub fold_policy: HonestFoldPolicySpec,
}

impl PrecommittedProducer {
    /// The producer of a profile under a configuration, given the source
    /// contract and the fold policy that the configuration answers with.
    pub fn from_config(
        descriptor: GroupCommitPhaseParams,
        contract: Result<CommittedSourceContract, AkitaError>,
        fold_policy: HonestFoldPolicySpec,
    ) -> (r: Result<Self, AkitaError>)
        ensures
            match contract {
                Ok(contract) => r == Ok::<PrecommittedProducer, AkitaError>(
                    PrecommittedProducer { descriptor, contract, fold_policy },
                ),
                Err(e) => r == Err::<PrecommittedProducer, AkitaError>(e),
            },
    {
        match contract {
            Ok(contract) => Ok(PrecommittedProducer { descriptor, contract, fold_policy }),
            Err(e) => Err(e),
        }
    }

    /// The profile.
    pub fn descriptor(&self) -> (r: GroupCommitPhaseParams)
        ensures
            r == self.descriptor,
    {
        self.descriptor
    }

    /// The source contract.
    pub fn contract(&self) -> (r: CommittedSourceContract)
        ensures
            r == self.contract,
    {
        self.contract
    }

    /// The declaration that tells grouped layouts apart which are otherwise
    /// the same.
    pub fn source_contract(&self) -> (r: CommittedSourceContract)
        ensures
            r == self.contract,
    {
        self.contract
    }

    /// The fold policy.
    pub fn fold_policy(&self) -> (r: HonestFoldPolicySpec)
        ensures
            r == self.fold_policy,
    {
        self.fold_policy
    }
}

/// The profiles of producers.
pub open spec fn descriptors(producers: Seq<PrecommittedProducer>) -> Seq<GroupCommitPhaseParams> {
    producers.map_values(|p: PrecommittedProducer| p.descriptor)
}

/// The fold policies of producers.
pub open spec fn policies(producers: Seq<PrecommittedProducer>) -> Seq<HonestFoldPolicySpec> {
    producers.map_values(|p: PrecommittedProducer| p.fold_policy)
}

/// A request for a grouped schedule; its key follows from its producers.
#[derive(Clone, Debug, PartialEq, Eq)]
pub struct GroupedGenerationRequest {
    pub final_group: PolynomialGroupLayout,
    pub precommitted_producers: Vec<PrecommittedProducer>,
}

impl GroupedGenerationRequest {
    /// A request.
    pub fn new(
        final_group: PolynomialGroupLayout,
        precommitted_producers: Vec<PrecommittedProducer>,
    ) -> (r: Self)
        ensures
            r.final_group == final_group,
            r.precommitted_producers@ == precommitted_producers@,
    {
        GroupedGenerationRequest { final_group, precommitted_producers }
    }

    /// The key: the final group and the profiles of the producers, in order.
    pub fn key(&self) -> (r: AkitaScheduleLookupKey)
        ensures
            r.final_group == self.final_group,
            r.precommitteds@ == descriptors(self.precommitted_producers@),
    {
        let producers = &self.precommitted_producers;
        let mut precommitteds: Vec<GroupCommitPhaseParams> = Vec::new();
        let mut k: usize = 0;
        while k < producers.len()
            invariant
                k <= producers@.len(),
                precommitteds@ == descriptors(producers@.take(k as int)),
            decreases producers@.len() - k,
        {
            precommitteds.push(producers[k].descriptor());
            proof {
                assert(descriptors(producers@.take(k + 1)) =~= descriptors(
                    producers@.take(k as int),
                ).push(producers@[k as int].descriptor));
            }
            k += 1;
        }
        proof {
            assert(producers@.take(k as int) =~= producers@);
        }
        AkitaScheduleLookupKey { final_group: self.final_group, precommitteds }
    }

    /// The producers.
    pub fn precommitted_producers(&self) -> (r: &Vec<PrecommittedProducer>)
        ensures
            r@ == self.precommitted_producers@,
    {
        &self.precommitted_producers
    }

    /// The fold policies of the producers, in order.
    pub fn fold_policies(&self) -> (r: Vec<HonestFoldPolicySpec>)
        ensures
            r@ == policies(self.precommitted_producers@),
    {
        let producers = &self.precommitted_producers;
        let mut out: Vec<HonestFoldPolicySpec> = Vec::new();
        let mut k: usize = 0;
        while k < producers.len()
            invariant
                k <= producers@.len(),
                out@ == policies(producers@.take(k as int)),
            decreases producers@.len() - k,
        {
            out.push(producers[k].fold_policy());
            proof {
                assert(policies(producers@.take(k + 1)) =~= policies(
                    producers@.take(k as int),
                ).push(producers@[k as int].fold_policy));
            }
            k += 1;
        }
        proof {
            assert(producers@.take(k as int) =~= producers@);
        }
        out
    }
}

/// A planned schedule with its key and the producers of its precommitted
/// groups.
#[derive(Clone, Debug)]
pub struct MaterializedEntry {
    pub key: AkitaScheduleLookupKey,
    pub schedule: PlannedFoldSchedule,
    pub precommitted_producers: Vec<PrecommittedProducer>,
}

/// The remarks that stand beside emitted rows.
pub trait SourceAnnotations: Sized {
    /// The remark at the head of a catalog whose producer declares a contract.
    spec fn banner_of(&self, contract: CommittedSourceContract) -> Seq<char>;

    fn bounded_source_banner(&self, contract: CommittedSourceContract) -> (r: String)
        ensures
            r@ == self.banner_of(contract),
    ;

    /// The remark before a precommitted group of sources of a class, committed
    /// in so many digits of a basis.
    spec fn note_of(
        &self,
        log_basis: u32,
        num_digits: usize,
        class: CommittedSourceClass,
    ) -> Seq<char>;

    fn precommitted_source_note(
        &self,
        log_basis: u32,
        num_digits: usize,
        class: CommittedSourceClass,
    ) -> (r: String)
        ensures
            r@ == self.note_of(log_basis, num_digits, class),
    ;
}

/// The same remarks whatever they stand beside.
#[derive(Clone, Debug, PartialEq, Eq)]
pub struct FixedRemarks {
    pub banner: String,
    pub note: String,
}

impl FixedRemarks {
    /// No remarks.
    pub fn none() -> (r: Self)
        ensures
            r.banner@ == Seq::<char>::empty(),
            r.note@ == Seq::<char>::empty(),
    {
        FixedRemarks { banner: String::new(), note: String::new() }
    }
}

impl SourceAnnotations for FixedRemarks {
    open spec fn banner_of(&self, contract: CommittedSourceContract) -> Seq<char> {
        self.banner@
    }

    fn bounded_source_banner(&self, contract: CommittedSourceContract) -> (r: String) {
        String::from_str(self.banner.as_str())
    }

    open spec fn note_of(
        &self,
        log_basis: u32,
        num_digits: usize,
        class: CommittedSourceClass,
    ) -> Seq<char> {
        self.note@
    }

    fn precommitted_source_note(
        &self,
        log_basis: u32,
        num_digits: usize,
        class: CommittedSourceClass,
    ) -> (r: String) {
        String::from_str(self.note.as_str())
    }
}

/// The key of a request has the profile of each of its producers at its place,
/// and the fold policies stand in the same order.
pub proof fn law_producers_keep_their_order(producers: Seq<PrecommittedProducer>, i: int)
    requires
        0 <= i < producers.len(),
    ensures
        descriptors(producers).len() == producers.len(),
        policies(producers).len() == producers.len(),
        descriptors(producers)[i] == producers[i].descriptor,
        policies(producers)[i] == producers[i].fold_policy,
{
}

} // verus!
