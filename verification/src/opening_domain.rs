//! The openings that a level of the search tries.
//!
//! A level is opened either by traces of evaluations or, at the first two
//! levels, by packed coefficients. At the root every precommitted group is
//! opened along with the final group, and the packed openings of the groups
//! are crossed with each other.

use crate::assignments;
use crate::assignments::{
    copy_list, cross, nondecreasing_opening_assignments, precommitted_group_equivalence_classes,
};
use crate::error;
use crate::error::{AkitaError, ErrorModel};
use crate::params::{
    AkitaScheduleLookupKey, CommitmentRingDims, GroupCommitPhaseParams, HonestFoldPolicySpec,
    OpeningMethod, PlannerPolicy, PolynomialGroupLayout, SparseChallengeConfig,
};
use crate::walk::{ScheduleQuestion, ScheduleRules};
use vstd::prelude::*;

verus! {

// ---------------------------------------------------------------------------
// Purposes
// ---------------------------------------------------------------------------

/// What an opening is tried for.
#[derive(Clone, Copy, Debug, PartialEq, Eq, Structural)]
pub enum OpeningPurpose {
    TerminalOnly,
    FoldOnly,
    TerminalAndFold,
}

impl OpeningPurpose {
    pub open spec fn terminal(self) -> bool {
        self is TerminalOnly || self is TerminalAndFold
    }

    pub open spec fn fold(self) -> bool {
        self is FoldOnly || self is TerminalAndFold
    }

    /// Whether the opening may seed a terminal fold.
    pub fn allows_terminal(self) -> (b: bool)
        ensures
            b == self.terminal(),
    {
        match self {
            OpeningPurpose::TerminalOnly => true,
            OpeningPurpose::FoldOnly => false,
            OpeningPurpose::TerminalAndFold => true,
        }
    }

    /// Whether the opening may belong to a fold.
    pub fn allows_fold(self) -> (b: bool)
        ensures
            b == self.fold(),
    {
        match self {
            OpeningPurpose::TerminalOnly => false,
            OpeningPurpose::FoldOnly => true,
            OpeningPurpose::TerminalAndFold => true,
        }
    }
}

/// What a trace opening is for, if it is tried at all.
pub open spec fn trace_purpose(early: bool, seed: bool) -> Option<OpeningPurpose> {
    if early && seed {
        Some(OpeningPurpose::TerminalOnly)
    } else if early {
        None
    } else if seed {
        Some(OpeningPurpose::TerminalAndFold)
    } else {
        Some(OpeningPurpose::FoldOnly)
    }
}

/// What a trace opening is for. At an early level folds are left to packed
/// openings; elsewhere traces serve folds, and terminals where one may start.
pub fn trace_opening_purpose(early_packing_level: bool, terminal_seed_is_relevant: bool) -> (r:
    Option<OpeningPurpose>)
    ensures
        r == trace_purpose(early_packing_level, terminal_seed_is_relevant),
        r is Some && r->0.fold() <==> !early_packing_level,
        r is Some && r->0.terminal() <==> terminal_seed_is_relevant,
{
    match (early_packing_level, terminal_seed_is_relevant) {
        (true, true) => Some(OpeningPurpose::TerminalOnly),
        (true, false) => None,
        (false, true) => Some(OpeningPurpose::TerminalAndFold),
        (false, false) => Some(OpeningPurpose::FoldOnly),
    }
}

/// Whether a terminal fold may start here: below the root, and not where a
/// setup prefix comes in.
pub fn state_allows_terminal_seed(is_root_level: bool, has_incoming_setup_prefix: bool) -> (b: bool)
    ensures
        b == (!is_root_level && !has_incoming_setup_prefix),
{
    !is_root_level && !has_incoming_setup_prefix
}

// ---------------------------------------------------------------------------
// Openings
// ---------------------------------------------------------------------------

/// An opening that the search tries: its method and its challenges.
#[derive(Clone, Copy, Debug, PartialEq, Eq, Structural)]
pub struct PlannerOpeningCandidate {
    pub method: OpeningMethod,
    pub fold_challenge_config: SparseChallengeConfig,
}

impl PlannerOpeningCandidate {
    pub open spec fn trace(config: SparseChallengeConfig) -> Self {
        PlannerOpeningCandidate {
            method: OpeningMethod::EvaluationTrace,
            fold_challenge_config: config,
        }
    }

    /// The opening by traces under a challenge family.
    pub fn evaluation_trace(config: SparseChallengeConfig) -> (r: Self)
        ensures
            r == Self::trace(config),
    {
        PlannerOpeningCandidate {
            method: OpeningMethod::EvaluationTrace,
            fold_challenge_config: config,
        }
    }

    /// How the opening is made.
    pub fn method(&self) -> (r: OpeningMethod)
        ensures
            r == self.method,
    {
        self.method
    }
}

/// One opening to try.
#[derive(Clone, Debug, PartialEq, Eq)]
pub struct OpeningWork {
    pub dimensions: CommitmentRingDims,
    pub opening: PlannerOpeningCandidate,
    pub precommitted_openings: Vec<PlannerOpeningCandidate>,
    pub opening_reduction_bytes: usize,
    pub purpose: OpeningPurpose,
}

/// The contents of [`OpeningWork`].
pub struct WorkModel {
    pub dimensions: CommitmentRingDims,
    pub opening: PlannerOpeningCandidate,
    pub precommitted_openings: Seq<PlannerOpeningCandidate>,
    pub opening_reduction_bytes: usize,
    pub purpose: OpeningPurpose,
}

impl OpeningWork {
    /// The contents.
    pub open spec fn view(self) -> WorkModel {
        WorkModel {
            dimensions: self.dimensions,
            opening: self.opening,
            precommitted_openings: self.precommitted_openings@,
            opening_reduction_bytes: self.opening_reduction_bytes,
            purpose: self.purpose,
        }
    }
}

/// The contents of a list of openings.
pub open spec fn work_models(work: Seq<OpeningWork>) -> Seq<WorkModel> {
    work.map_values(|w: OpeningWork| w@)
}

/// The questions of the enumeration of openings that a parameter family may
/// refuse with an error of its own.
pub enum ListingQuestion {
    Dimensions { policy: PlannerPolicy, level: usize, ceiling: Option<CommitmentRingDims> },
    Packing { level: usize, claim_ext_degree: usize, dims: CommitmentRingDims },
    Reduction { challenge_bits: u32, claim_ext_degree: usize, shape: PolynomialGroupLayout },
}

/// What the enumeration of openings asks of a parameter family.
pub trait OpeningRules: ScheduleRules {
    /// The error that a question is refused with, if it is refused.
    spec fn listing_refusal_of(&self, question: ListingQuestion) -> Option<ErrorModel>;

    /// The ring degrees that a level may use, below a ceiling.
    spec fn dimensions_of(
        &self,
        policy: PlannerPolicy,
        level: usize,
        ceiling: Option<CommitmentRingDims>,
    ) -> Option<Seq<CommitmentRingDims>>;

    fn dimensions(
        &self,
        policy: &PlannerPolicy,
        level: usize,
        ceiling: Option<CommitmentRingDims>,
    ) -> (r: Result<Vec<CommitmentRingDims>, AkitaError>)
        ensures
            match r {
                Ok(dims) => self.dimensions_of(*policy, level, ceiling) == Some(dims@),
                Err(e) => self.dimensions_of(*policy, level, ceiling) is None
                    && self.listing_refusal_of(
                    ListingQuestion::Dimensions { policy: *policy, level, ceiling },
                ) == Some(e@),
            },
    ;

    /// Whether precommitted groups can be opened over a ring of some degree.
    spec fn dimension_supported(
        &self,
        precommitteds: Seq<GroupCommitPhaseParams>,
        d_d: usize,
    ) -> bool;

    fn supports_dimension(&self, precommitteds: &Vec<GroupCommitPhaseParams>, d_d: usize) -> (b:
        bool)
        ensures
            b == self.dimension_supported(precommitteds@, d_d),
    ;

    /// The packed openings of a group at a level.
    spec fn packing_domain_of(
        &self,
        level: usize,
        claim_ext_degree: usize,
        dims: CommitmentRingDims,
    ) -> Option<Seq<PlannerOpeningCandidate>>;

    fn packing_domain(&self, level: usize, claim_ext_degree: usize, dims: CommitmentRingDims) -> (r:
        Result<Vec<PlannerOpeningCandidate>, AkitaError>)
        ensures
            match r {
                Ok(domain) => self.packing_domain_of(level, claim_ext_degree, dims) == Some(
                    domain@,
                ),
                Err(e) => self.packing_domain_of(level, claim_ext_degree, dims) is None
                    && self.listing_refusal_of(
                    ListingQuestion::Packing { level, claim_ext_degree, dims },
                ) == Some(e@),
            },
    ;

    /// The bytes of the reduction that traces over a layout call for: none
    /// where the layout cannot be reduced; a malformed layout is refused.
    spec fn opening_reduction_of(
        &self,
        challenge_bits: u32,
        claim_ext_degree: usize,
        shape: PolynomialGroupLayout,
    ) -> Option<Option<usize>>;

    fn opening_reduction(
        &self,
        challenge_bits: u32,
        claim_ext_degree: usize,
        shape: PolynomialGroupLayout,
    ) -> (r: Result<Option<usize>, AkitaError>)
        ensures
            error::answers(
                r,
                self.opening_reduction_of(challenge_bits, claim_ext_degree, shape),
                self.listing_refusal_of(
                    ListingQuestion::Reduction { challenge_bits, claim_ext_degree, shape },
                ),
            ),
    ;
}

// ---------------------------------------------------------------------------
// Packed openings of the precommitted groups
// ---------------------------------------------------------------------------

/// The ring degrees over which a class of precommitted groups is packed.
pub open spec fn class_dims(profile: GroupCommitPhaseParams, d_d: usize) -> CommitmentRingDims {
    CommitmentRingDims {
        inner: profile.inner.matrix.ring_dimension as usize,
        outer: profile.outer.matrix.key.ring_dimension as usize,
        opening: d_d,
    }
}

/// The packed openings of one class of precommitted groups.
pub open spec fn class_domain<R: OpeningRules>(
    rules: R,
    claim_ext_degree: usize,
    d_d: usize,
    profile: GroupCommitPhaseParams,
) -> Option<Seq<PlannerOpeningCandidate>> {
    rules.packing_domain_of(0, claim_ext_degree, class_dims(profile, d_d))
}

/// Partial assignments grown by the classes from `c` on. A class without a
/// packed opening leaves no assignment at all.
pub open spec fn grown<R: OpeningRules>(
    rules: R,
    claim_ext_degree: usize,
    d_d: usize,
    profiles: Seq<GroupCommitPhaseParams>,
    classes: Seq<Seq<usize>>,
    c: nat,
    products: Seq<Seq<Option<PlannerOpeningCandidate>>>,
) -> Option<Seq<Seq<Option<PlannerOpeningCandidate>>>>
    decreases classes.len() - c,
{
    if c >= classes.len() {
        Some(products)
    } else {
        let indices = classes[c as int];
        match class_domain(rules, claim_ext_degree, d_d, profiles[indices[0] as int]) {
            None => None,
            Some(domain) => if domain.len() == 0 {
                Some(Seq::empty())
            } else {
                let choices = assignments::nondecreasing(domain, indices.len(), 0);
                if products.len() * choices.len() > usize::MAX {
                    None
                } else {
                    grown(
                        rules,
                        claim_ext_degree,
                        d_d,
                        profiles,
                        classes,
                        c + 1,
                        assignments::crossed(products, indices, choices, products.len()),
                    )
                }
            },
        }
    }
}

/// Why partial assignments cannot be grown by the classes from `c` on: the
/// packed openings of a class are refused, or the assignments are too many.
pub open spec fn growth_refusal<R: OpeningRules>(
    rules: R,
    claim_ext_degree: usize,
    d_d: usize,
    profiles: Seq<GroupCommitPhaseParams>,
    classes: Seq<Seq<usize>>,
    c: nat,
    products: Seq<Seq<Option<PlannerOpeningCandidate>>>,
) -> Option<ErrorModel>
    decreases classes.len() - c,
{
    if c >= classes.len() {
        None
    } else {
        let indices = classes[c as int];
        let profile = profiles[indices[0] as int];
        match class_domain(rules, claim_ext_degree, d_d, profile) {
            None => rules.listing_refusal_of(
                ListingQuestion::Packing {
                    level: 0,
                    claim_ext_degree,
                    dims: class_dims(profile, d_d),
                },
            ),
            Some(domain) => {
                let choices = assignments::nondecreasing(domain, indices.len(), 0);
                if products.len() * choices.len() > usize::MAX {
                    error::setup_refusal("root precommit opening search domain overflow"@)
                } else {
                    growth_refusal(
                        rules,
                        claim_ext_degree,
                        d_d,
                        profiles,
                        classes,
                        c + 1,
                        assignments::crossed(products, indices, choices, products.len()),
                    )
                }
            },
        }
    }
}

/// Why there is no list of the packed openings of all precommitted groups.
pub open spec fn products_refusal<R: OpeningRules>(
    rules: R,
    claim_ext_degree: usize,
    d_d: usize,
    profiles: Seq<GroupCommitPhaseParams>,
    policies: Seq<HonestFoldPolicySpec>,
) -> Option<ErrorModel> {
    if profiles.len() != policies.len() {
        error::setup_refusal("root precommit opening products require one policy per profile"@)
    } else {
        growth_refusal(
            rules,
            claim_ext_degree,
            d_d,
            profiles,
            assignments::classes(profiles, policies, profiles.len()),
            0,
            seq![unassigned(profiles.len())],
        )
    }
}

/// No group assigned.
pub open spec fn unassigned(n: nat) -> Seq<Option<PlannerOpeningCandidate>> {
    Seq::new(n, |i: int| None)
}

/// The packed openings of all precommitted groups together, up to permutations
/// of interchangeable groups.
pub open spec fn packing_products<R: OpeningRules>(
    rules: R,
    claim_ext_degree: usize,
    d_d: usize,
    profiles: Seq<GroupCommitPhaseParams>,
    policies: Seq<HonestFoldPolicySpec>,
) -> Option<Seq<Seq<PlannerOpeningCandidate>>> {
    if profiles.len() != policies.len() {
        None
    } else if !rules.dimension_supported(profiles, d_d) {
        Some(Seq::empty())
    } else {
        match grown(
            rules,
            claim_ext_degree,
            d_d,
            profiles,
            assignments::classes(profiles, policies, profiles.len()),
            0,
            seq![unassigned(profiles.len())],
        ) {
            Some(products) => Some(assignments::complete(products)),
            None => None,
        }
    }
}

/// Assignments with every group present, without the options round them.
fn unwrap_products(products: &Vec<Vec<Option<PlannerOpeningCandidate>>>) -> (r: Vec<
    Vec<PlannerOpeningCandidate>,
>)
    requires
        forall|p: int, i: int|
            0 <= p < products@.len() && 0 <= i < products@[p]@.len()
                ==> #[trigger] products@[p]@[i] is Some,
    ensures
        assignments::views(r@) == assignments::complete(assignments::views(products@)),
{
    let mut all: Vec<Vec<PlannerOpeningCandidate>> = Vec::new();
    let ghost wanted = assignments::complete(assignments::views(products@));
    assert(assignments::views(all@) =~= wanted.take(0));
    let mut p: usize = 0;
    while p < products.len()
        invariant
            p <= products@.len(),
            wanted == assignments::complete(assignments::views(products@)),
            assignments::views(all@) == wanted.take(p as int),
            forall|p: int, i: int|
                0 <= p < products@.len() && 0 <= i < products@[p]@.len()
                    ==> #[trigger] products@[p]@[i] is Some,
        decreases products@.len() - p,
    {
        let product = &products[p];
        let mut openings: Vec<PlannerOpeningCandidate> = Vec::new();
        let mut i: usize = 0;
        while i < product.len()
            invariant
                p < products@.len(),
                product@ == products@[p as int]@,
                wanted == assignments::complete(assignments::views(products@)),
                i <= product@.len(),
                openings@ == wanted[p as int].take(i as int),
                forall|i: int| 0 <= i < product@.len() ==> #[trigger] product@[i] is Some,
            decreases product@.len() - i,
        {
            assert(product@[i as int] is Some);
            if let Some(opening) = product[i] {
                openings.push(opening);
            }
            proof {
                assert(wanted[p as int].take(i + 1) =~= wanted[p as int].take(i as int).push(
                    product@[i as int]->0,
                ));
            }
            i += 1;
        }
        let ghost before = all@;
        let ghost last = openings@;
        all.push(openings);
        proof {
            assert(last =~= wanted[p as int]);
            assert(assignments::views(all@) =~= assignments::views(before).push(last));
            assert(wanted.take(p + 1) =~= wanted.take(p as int).push(last));
        }
        p += 1;
    }
    assert(wanted.take(p as int) =~= wanted);
    all
}

/// The packed openings of all precommitted groups together.
pub fn packing_precommit_opening_products<R: OpeningRules>(
    rules: &R,
    policy: &PlannerPolicy,
    dimensions: CommitmentRingDims,
    key: &AkitaScheduleLookupKey,
    precommitted_honest_fold_policies: &Vec<HonestFoldPolicySpec>,
) -> (r: Result<Vec<Vec<PlannerOpeningCandidate>>, AkitaError>)
    ensures
        ({
            let products = packing_products(
                *rules,
                policy.claim_ext_degree,
                dimensions.opening,
                key.precommitteds@,
                precommitted_honest_fold_policies@,
            );
            match r {
                Ok(openings) => products == Some(assignments::views(openings@)),
                Err(e) => products is None && products_refusal(
                    *rules,
                    policy.claim_ext_degree,
                    dimensions.opening,
                    key.precommitteds@,
                    precommitted_honest_fold_policies@,
                ) == Some(e@),
            }
        }),
{
    let profiles = &key.precommitteds;
    let policies = precommitted_honest_fold_policies;
    if profiles.len() != policies.len() {
        return Err(
            AkitaError::setup("root precommit opening products require one policy per profile"),
        );
    }
    if !rules.supports_dimension(profiles, dimensions.d_d()) {
        let none: Vec<Vec<PlannerOpeningCandidate>> = Vec::new();
        assert(assignments::views(none@) =~= Seq::empty());
        return Ok(none);
    }
    let classes = precommitted_group_equivalence_classes(profiles, policies);
    let count: usize = profiles.len();
    let ghost n = count as nat;
    let ghost all = assignments::classes(profiles@, policies@, n);
    let ext: usize = policy.claim_ext_degree;
    let d_d: usize = dimensions.d_d();
    let mut blank: Vec<Option<PlannerOpeningCandidate>> = Vec::new();
    let mut i: usize = 0;
    while i < count
        invariant
            i <= count,
            blank@ == unassigned(i as nat),
        decreases count - i,
    {
        blank.push(None);
        assert(blank@ =~= unassigned((i + 1) as nat));
        i += 1;
    }
    let mut products: Vec<Vec<Option<PlannerOpeningCandidate>>> = Vec::new();
    products.push(blank);
    let ghost start = seq![unassigned(n)];
    assert(assignments::views(products@) =~= start);
    let mut c: usize = 0;
    while c < classes.len()
        invariant
            c <= classes@.len(),
            n == profiles@.len(),
            n <= usize::MAX,
            n == policies@.len(),
            ext == policy.claim_ext_degree,
            d_d == dimensions.opening,
            all == assignments::classes(profiles@, policies@, n),
            all == assignments::views(classes@),
            profiles@ == key.precommitteds@,
            policies@ == precommitted_honest_fold_policies@,
            rules.dimension_supported(profiles@, d_d),
            start == seq![unassigned(n)],
            grown(*rules, ext, d_d, profiles@, all, 0, start) == grown(
                *rules,
                ext,
                d_d,
                profiles@,
                all,
                c as nat,
                assignments::views(products@),
            ),
            growth_refusal(*rules, ext, d_d, profiles@, all, 0, start) == growth_refusal(
                *rules,
                ext,
                d_d,
                profiles@,
                all,
                c as nat,
                assignments::views(products@),
            ),
            forall|p: int| 0 <= p < products@.len() ==> (#[trigger] products@[p])@.len() == n,
            forall|p: int, d: int, m: usize|
                0 <= p < products@.len() && 0 <= d < c && #[trigger] all[d].contains(m)
                    ==> (#[trigger] products@[p])@[m as int] is Some,
        decreases classes@.len() - c,
    {
        let indices = &classes[c];
        proof {
            assert(all[c as int] == indices@);
            assignments::lemma_class(profiles@, policies@, n, c as int);
            assignments::lemma_members(profiles@, policies@, indices@[0] as int, n);
        }
        let profile = &profiles[indices[0]];
        let ghost domain_spec = class_domain(*rules, ext, d_d, *profile);
        let domain = match rules.packing_domain(
            0,
            ext,
            CommitmentRingDims {
                inner: profile.inner.matrix.ring_dimension(),
                outer: profile.outer.matrix.ring_dimension(),
                opening: d_d,
            },
        ) {
            Ok(domain) => domain,
            Err(e) => {
                return Err(e);
            },
        };
        if domain.len() == 0 {
            let none: Vec<Vec<PlannerOpeningCandidate>> = Vec::new();
            proof {
                assert(assignments::views(none@) =~= assignments::complete(
                    Seq::<Seq<Option<PlannerOpeningCandidate>>>::empty(),
                ));
            }
            return Ok(none);
        }
        let choices = nondecreasing_opening_assignments(&domain, indices.len());
        match products.len().checked_mul(choices.len()) {
            Some(_total) => {},
            None => {
                return Err(AkitaError::setup("root precommit opening search domain overflow"));
            },
        }
        proof {
            lemma_choice_widths(domain@, indices@.len(), choices@);
        }
        let next = cross(&products, indices, &choices);
        proof {
            lemma_crossed_present(
                assignments::views(products@),
                indices@,
                assignments::views(choices@),
                products@.len(),
                n,
            );
            assert forall|p: int| 0 <= p < next@.len() implies (#[trigger] next@[p])@.len()
                == n by {
                assert(assignments::views(next@)[p] == next@[p]@);
            }
            assert forall|p: int, d: int, m: usize|
                0 <= p < next@.len() && 0 <= d < c + 1 && #[trigger] all[d].contains(
                    m,
                ) implies (#[trigger] next@[p])@[m as int] is Some by {
                assert(assignments::views(next@)[p] == next@[p]@);
                if d < c {
                    assignments::lemma_class(profiles@, policies@, n, d);
                    assignments::lemma_members(profiles@, policies@, all[d][0] as int, n);
                    let k = choose|k: int| 0 <= k < all[d].len() && all[d][k] == m;
                    assert(all[d][k] < n);
                    assert forall|q: int|
                        0 <= q < products@.len() implies #[trigger] assignments::views(
                        products@,
                    )[q][m as int] is Some by {
                        assert(products@[q]@[m as int] is Some);
                    }
                }
            }
        }
        products = next;
        c += 1;
    }
    proof {
        assert forall|p: int, m: int|
            0 <= p < products@.len() && 0 <= m < products@[p]@.len() implies #[trigger] products@[p]@[m] is Some by {
            assignments::law_classes_partition(profiles@, policies@, m as usize, m as usize);
            let d = choose|d: int| 0 <= d < all.len() && #[trigger] all[d].contains(m as usize);
            assert(all[d].contains(m as usize));
            assert(products@[p]@[(m as usize) as int] is Some);
        }
    }
    Ok(unwrap_products(&products))
}

/// Every assignment to a class has one opening per group of the class.
proof fn lemma_choice_widths(
    domain: Seq<PlannerOpeningCandidate>,
    width: nat,
    choices: Seq<Vec<PlannerOpeningCandidate>>,
)
    requires
        assignments::views(choices) == assignments::nondecreasing(domain, width, 0),
    ensures
        forall|a: int| 0 <= a < choices.len() ==> (#[trigger] choices[a])@.len() == width,
{
    assignments::law_assignments_by_position(domain, width, 0);
    let by_position = assignments::nondecreasing(assignments::positions(domain.len()), width, 0);
    assert(by_position.len() == assignments::views(choices).len());
    assert(choices.len() == assignments::views(choices).len());
    assert forall|a: int| 0 <= a < choices.len() implies (#[trigger] choices[a])@.len()
        == width by {
        assert(assignments::views(choices)[a] == choices[a]@);
        assert(by_position.contains(by_position[a]));
        assignments::law_assignments_complete(domain.len(), width, 0, by_position[a]);
    }
}

/// Crossing with a class keeps lengths and what is present, and fills the class
/// in.
proof fn lemma_crossed_present(
    products: Seq<Seq<Option<PlannerOpeningCandidate>>>,
    indices: Seq<usize>,
    choices: Seq<Seq<PlannerOpeningCandidate>>,
    k: nat,
    n: nat,
)
    requires
        k <= products.len(),
        forall|p: int| 0 <= p < products.len() ==> (#[trigger] products[p]).len() == n,
        forall|i: int| 0 <= i < indices.len() ==> #[trigger] indices[i] < n,
    ensures
        forall|p: int|
            0 <= p < assignments::crossed(products, indices, choices, k).len() ==> (
            #[trigger] assignments::crossed(products, indices, choices, k)[p]).len() == n,
        forall|p: int, m: usize|
            0 <= p < assignments::crossed(products, indices, choices, k).len()
                && #[trigger] indices.contains(m) ==> (#[trigger] assignments::crossed(
                products,
                indices,
                choices,
                k,
            )[p])[m as int] is Some,
        forall|p: int, m: int|
            0 <= p < assignments::crossed(products, indices, choices, k).len() && 0 <= m < n && (
            forall|q: int| 0 <= q < products.len() ==> #[trigger] products[q][m] is Some)
                ==> #[trigger] assignments::crossed(products, indices, choices, k)[p][m] is Some,
    decreases k,
{
    if k > 0 {
        lemma_crossed_present(products, indices, choices, (k - 1) as nat, n);
        let before = assignments::crossed(products, indices, choices, (k - 1) as nat);
        let fan = assignments::fanned(products[k - 1], indices, choices);
        let all = assignments::crossed(products, indices, choices, k);
        assert(all == before + fan);
        assert forall|p: int| before.len() <= p < all.len() implies {
            &&& (#[trigger] all[p]).len() == n
            &&& forall|m: usize| #[trigger] indices.contains(m) ==> all[p][m as int] is Some
            &&& forall|m: int|
                0 <= m < n && products[k - 1][m] is Some ==> #[trigger] all[p][m] is Some
        } by {
            let choice = choices[p - before.len()];
            assignments::lemma_filled(products[k - 1], indices, choice, indices.len());
            assert(all[p] == assignments::filled(
                products[k - 1],
                indices,
                choice,
                indices.len(),
            ));
            assert forall|m: usize| #[trigger] indices.contains(m) implies all[p][
                m as int
            ] is Some by {
                let i = choose|i: int| 0 <= i < indices.len() && indices[i] == m;
                assert(all[p][indices[i] as int] is Some);
            }
        }
        assert forall|p: int, m: usize|
            0 <= p < all.len() && #[trigger] indices.contains(m) implies (#[trigger] all[p])[
            m as int
        ] is Some by {
            if p < before.len() {
                assert(before[p][m as int] is Some);
            }
        }
        assert forall|p: int, m: int|
            0 <= p < all.len() && 0 <= m < n && (forall|q: int|
                0 <= q < products.len()
                    ==> #[trigger] products[q][m] is Some) implies #[trigger] all[p][m] is Some by {
            if p < before.len() {
                assert(before[p][m] is Some);
            } else {
                assert(products[k - 1][m] is Some);
            }
        }
    }
}

// ---------------------------------------------------------------------------
// All openings of a level
// ---------------------------------------------------------------------------

/// The question of which openings a level tries.
pub struct OpeningQuestion<R> {
    pub rules: R,
    pub policy: PlannerPolicy,
    pub level: usize,
    pub ceiling: Option<CommitmentRingDims>,
    /// Whether a setup prefix comes in.
    pub prefixed: bool,
    /// The precommitted groups, at the root.
    pub root: Option<Seq<GroupCommitPhaseParams>>,
    pub fold_policies: Seq<HonestFoldPolicySpec>,
    pub shape: PolynomialGroupLayout,
}

impl<R: OpeningRules> OpeningQuestion<R> {
    pub open spec fn early(self) -> bool {
        self.level <= 1
    }

    pub open spec fn seed(self) -> bool {
        self.root is None && !self.prefixed
    }

    /// Whether ring degrees are passed over.
    pub open spec fn skipped(self, dims: CommitmentRingDims) -> bool {
        self.root is Some && !self.rules.dimension_supported(self.root->0, dims.opening)
    }

    /// The packed openings of the level's own group.
    pub open spec fn packed(self, dims: CommitmentRingDims) -> Option<
        Seq<PlannerOpeningCandidate>,
    > {
        if self.early() {
            self.rules.packing_domain_of(self.level, self.policy.claim_ext_degree, dims)
        } else {
            Some(Seq::empty())
        }
    }

    /// The packed openings of the precommitted groups; below the root there is
    /// nothing to open besides the level's own group.
    pub open spec fn products(self, dims: CommitmentRingDims) -> Option<
        Seq<Seq<PlannerOpeningCandidate>>,
    > {
        if self.early() && self.root is Some {
            packing_products(
                self.rules,
                self.policy.claim_ext_degree,
                dims.opening,
                self.root->0,
                self.fold_policies,
            )
        } else {
            Some(seq![Seq::empty()])
        }
    }

    pub open spec fn challenge_bits(self) -> Option<u32> {
        self.rules.challenge_bits_of(
            self.policy.decomposition.field_bits_spec(),
            self.policy.chal_ext_degree,
        )
    }

    pub open spec fn reduction(self) -> Option<Option<usize>> {
        match self.challenge_bits() {
            Some(bits) => self.rules.opening_reduction_of(
                bits,
                self.policy.claim_ext_degree,
                self.shape,
            ),
            None => None,
        }
    }

    /// Whether every precommitted group can be opened by traces.
    pub open spec fn groups_traced(self) -> bool {
        self.root is Some ==> forall|i: int|
            0 <= i < self.root->0.len() ==> self.rules.challenge_of(
                (#[trigger] self.root->0[i]).inner.matrix.ring_dimension as usize,
            ) is Some
    }

    pub open spec fn group_traces(self) -> Seq<PlannerOpeningCandidate> {
        match self.root {
            Some(profiles) => profiles.map_values(
                |p: GroupCommitPhaseParams|
                    PlannerOpeningCandidate::trace(
                        self.rules.challenge_of(p.inner.matrix.ring_dimension as usize)->0,
                    ),
            ),
            None => Seq::empty(),
        }
    }

    /// The trace openings over some ring degrees: one, or none.
    pub open spec fn traces(self, dims: CommitmentRingDims) -> Seq<WorkModel> {
        let challenge = self.rules.challenge_of(dims.inner);
        let purpose = trace_purpose(self.early(), self.seed());
        if !self.skipped(dims) && challenge is Some && self.reduction() is Some && self.reduction()
            ->0 is Some && self.groups_traced() && purpose is Some {
            seq![
                WorkModel {
                    dimensions: dims,
                    opening: PlannerOpeningCandidate::trace(challenge->0),
                    precommitted_openings: self.group_traces(),
                    opening_reduction_bytes: (self.reduction()->0)->0,
                    purpose: purpose->0,
                },
            ]
        } else {
            Seq::empty()
        }
    }

    /// A packed opening with packed openings of the precommitted groups.
    pub open spec fn pack(
        self,
        dims: CommitmentRingDims,
        opening: PlannerOpeningCandidate,
        groups: Seq<PlannerOpeningCandidate>,
    ) -> WorkModel {
        WorkModel {
            dimensions: dims,
            opening,
            precommitted_openings: groups,
            opening_reduction_bytes: 0,
            purpose: OpeningPurpose::FoldOnly,
        }
    }

    /// The first `n` packed openings, each with every opening of the
    /// precommitted groups.
    pub open spec fn packs(self, dims: CommitmentRingDims, n: nat) -> Seq<WorkModel>
        decreases n,
    {
        if n == 0 {
            Seq::empty()
        } else {
            self.packs(dims, (n - 1) as nat) + self.packs_of(dims, (self.packed(dims)->0)[n - 1])
        }
    }

    pub open spec fn packs_of(
        self,
        dims: CommitmentRingDims,
        opening: PlannerOpeningCandidate,
    ) -> Seq<WorkModel> {
        (self.products(dims)->0).map_values(
            |groups: Seq<PlannerOpeningCandidate>| self.pack(dims, opening, groups),
        )
    }

    pub open spec fn all_packs(self, dims: CommitmentRingDims) -> Seq<WorkModel> {
        if self.skipped(dims) {
            Seq::empty()
        } else {
            self.packs(dims, (self.packed(dims)->0).len())
        }
    }

    /// Whether the rules have an answer for some ring degrees.
    pub open spec fn answered(self, dims: CommitmentRingDims) -> bool {
        self.skipped(dims) || {
            &&& self.packed(dims) is Some
            &&& self.products(dims) is Some
            &&& self.rules.challenge_of(dims.inner) is Some ==> self.reduction() is Some
        }
    }

    /// Why the rules have no answer for some ring degrees.
    pub open spec fn dims_refusal(self, dims: CommitmentRingDims) -> Option<ErrorModel> {
        if self.packed(dims) is None {
            self.rules.listing_refusal_of(
                ListingQuestion::Packing {
                    level: self.level,
                    claim_ext_degree: self.policy.claim_ext_degree,
                    dims,
                },
            )
        } else if self.products(dims) is None {
            products_refusal(
                self.rules,
                self.policy.claim_ext_degree,
                dims.opening,
                self.root->0,
                self.fold_policies,
            )
        } else {
            self.reduction_refusal()
        }
    }

    /// Why the level has no reduction.
    pub open spec fn reduction_refusal(self) -> Option<ErrorModel> {
        match self.challenge_bits() {
            Some(bits) => self.rules.listing_refusal_of(
                ListingQuestion::Reduction {
                    challenge_bits: bits,
                    claim_ext_degree: self.policy.claim_ext_degree,
                    shape: self.shape,
                },
            ),
            None => self.rules.walk_refusal_of(
                ScheduleQuestion::ChallengeBits {
                    field_bits: self.policy.decomposition.field_bits_spec(),
                    chal_ext_degree: self.policy.chal_ext_degree,
                },
            ),
        }
    }

    /// Why the openings over the ring degrees from the `k`-th on cannot be
    /// listed: the first degrees without an answer say so.
    pub open spec fn refusal_from(self, k: nat) -> Option<ErrorModel>
        decreases (self.dimensions()->0).len() - k,
    {
        if k >= (self.dimensions()->0).len() {
            None
        } else if !self.answered((self.dimensions()->0)[k as int]) {
            self.dims_refusal((self.dimensions()->0)[k as int])
        } else {
            self.refusal_from(k + 1)
        }
    }

    /// Why the openings cannot be listed.
    pub open spec fn refusal(self) -> Option<ErrorModel> {
        if self.dimensions() is None {
            self.rules.listing_refusal_of(
                ListingQuestion::Dimensions {
                    policy: self.policy,
                    level: self.level,
                    ceiling: self.ceiling,
                },
            )
        } else {
            self.refusal_from(0)
        }
    }

    pub open spec fn dimensions(self) -> Option<Seq<CommitmentRingDims>> {
        self.rules.dimensions_of(self.policy, self.level, self.ceiling)
    }

    /// The trace openings over the first `n` ring degrees.
    pub open spec fn traces_upto(self, n: nat) -> Seq<WorkModel>
        decreases n,
    {
        if n == 0 {
            Seq::empty()
        } else {
            self.traces_upto((n - 1) as nat) + self.traces((self.dimensions()->0)[n - 1])
        }
    }

    /// The packed openings over the first `n` ring degrees.
    pub open spec fn packs_upto(self, n: nat) -> Seq<WorkModel>
        decreases n,
    {
        if n == 0 {
            Seq::empty()
        } else {
            self.packs_upto((n - 1) as nat) + self.all_packs((self.dimensions()->0)[n - 1])
        }
    }

    /// Whether the openings can be listed.
    pub open spec fn listed(self) -> bool {
        &&& self.dimensions() is Some
        &&& forall|i: int|
            0 <= i < (self.dimensions()->0).len() ==> self.answered(
                #[trigger] (self.dimensions()->0)[i],
            )
    }

    /// The openings of the level, traces before packed ones.
    pub open spec fn work(self) -> Seq<WorkModel> {
        let n = (self.dimensions()->0).len();
        self.traces_upto(n) + self.packs_upto(n)
    }
}

/// Trace openings are traces, with the purpose of their level.
proof fn lemma_traces_trace<R: OpeningRules>(q: OpeningQuestion<R>, n: nat)
    ensures
        forall|i: int|
            0 <= i < q.traces_upto(n).len() ==> (#[trigger] q.traces_upto(n)[i]).opening.method
                == OpeningMethod::EvaluationTrace && Some(q.traces_upto(n)[i].purpose)
                == trace_purpose(q.early(), q.seed()),
    decreases n,
{
    if n > 0 {
        let before = q.traces_upto((n - 1) as nat);
        let more = q.traces((q.dimensions()->0)[n - 1]);
        lemma_traces_trace(q, (n - 1) as nat);
        assert forall|i: int| 0 <= i < q.traces_upto(n).len() implies (
        #[trigger] q.traces_upto(n)[i]).opening.method == OpeningMethod::EvaluationTrace && Some(
            q.traces_upto(n)[i].purpose,
        ) == trace_purpose(q.early(), q.seed()) by {
            if i < before.len() {
                assert(q.traces_upto(n)[i] == before[i]);
            } else {
                assert(q.traces_upto(n)[i] == more[i - before.len()]);
            }
        }
    }
}

/// Packed openings over some ring degrees are for folds and reduce nothing.
proof fn lemma_packs_fold<R: OpeningRules>(q: OpeningQuestion<R>, dims: CommitmentRingDims, n: nat)
    ensures
        forall|i: int|
            0 <= i < q.packs(dims, n).len() ==> packs_for_folds(#[trigger] q.packs(dims, n)[i]),
    decreases n,
{
    if n > 0 {
        let before = q.packs(dims, (n - 1) as nat);
        let more = q.packs_of(dims, (q.packed(dims)->0)[n - 1]);
        lemma_packs_fold(q, dims, (n - 1) as nat);
        assert forall|i: int| 0 <= i < q.packs(dims, n).len() implies packs_for_folds(
            #[trigger] q.packs(dims, n)[i],
        ) by {
            if i < before.len() {
                assert(q.packs(dims, n)[i] == before[i]);
            } else {
                assert(q.packs(dims, n)[i] == more[i - before.len()]);
            }
        }
    }
}

proof fn lemma_all_packs_fold<R: OpeningRules>(q: OpeningQuestion<R>, n: nat)
    ensures
        forall|i: int|
            0 <= i < q.packs_upto(n).len() ==> packs_for_folds(#[trigger] q.packs_upto(n)[i]),
    decreases n,
{
    if n > 0 {
        let dims = (q.dimensions()->0)[n - 1];
        let before = q.packs_upto((n - 1) as nat);
        let more = q.all_packs(dims);
        lemma_all_packs_fold(q, (n - 1) as nat);
        lemma_packs_fold(q, dims, (q.packed(dims)->0).len());
        assert forall|i: int| 0 <= i < q.packs_upto(n).len() implies packs_for_folds(
            #[trigger] q.packs_upto(n)[i],
        ) by {
            if i < before.len() {
                assert(q.packs_upto(n)[i] == before[i]);
            } else {
                assert(q.packs_upto(n)[i] == more[i - before.len()]);
            }
        }
    }
}

/// Whether an opening is for a fold and needs no reduction.
pub open spec fn packs_for_folds(work: WorkModel) -> bool {
    work.purpose == OpeningPurpose::FoldOnly && work.opening_reduction_bytes == 0
}

/// The work of a level lists its traces first, all with the purpose of the level,
/// and behind them the packed openings, which are for folds and reduce nothing.
pub proof fn law_traces_come_first<R: OpeningRules>(q: OpeningQuestion<R>)
    ensures
        exists|k: int|
            0 <= k <= q.work().len() && (forall|i: int|
                0 <= i < k ==> (#[trigger] q.work()[i]).opening.method
                    == OpeningMethod::EvaluationTrace && Some(q.work()[i].purpose)
                    == trace_purpose(q.early(), q.seed())) && #[trigger] packed_from(q.work(), k),
{
    let n = (q.dimensions()->0).len();
    let (traces, packs) = (q.traces_upto(n), q.packs_upto(n));
    let k = traces.len() as int;
    lemma_traces_trace(q, n);
    lemma_all_packs_fold(q, n);
    assert forall|i: int| 0 <= i < k implies (#[trigger] q.work()[i]).opening.method
        == OpeningMethod::EvaluationTrace && Some(q.work()[i].purpose) == trace_purpose(
        q.early(),
        q.seed(),
    ) by {
        assert(q.work()[i] == traces[i]);
    }
    assert forall|i: int| k <= i < q.work().len() implies packs_for_folds(
        #[trigger] q.work()[i],
    ) by {
        assert(q.work()[i] == packs[i - k]);
    }
    assert(packed_from(q.work(), k));
}

/// Whether the openings from a position on are packed ones.
pub open spec fn packed_from(work: Seq<WorkModel>, k: int) -> bool {
    forall|i: int| k <= i < work.len() ==> packs_for_folds(#[trigger] work[i])
}

/// The trace openings of the precommitted groups, if each has one.
fn trace_groups<R: OpeningRules>(rules: &R, root: Option<&AkitaScheduleLookupKey>, Ghost(q): Ghost<
    OpeningQuestion<R>,
>) -> (r: Option<Vec<PlannerOpeningCandidate>>)
    requires
        q.rules == *rules,
        q.root == match root {
            Some(key) => Some(key.precommitteds@),
            None => None,
        },
    ensures
        match r {
            Some(openings) => q.groups_traced() && openings@ == q.group_traces(),
            None => !q.groups_traced(),
        },
{
    let mut openings: Vec<PlannerOpeningCandidate> = Vec::new();
    if let Some(key) = root {
        let mut i: usize = 0;
        while i < key.precommitteds.len()
            invariant
                i <= key.precommitteds@.len(),
                q.rules == *rules,
                q.root == Some(key.precommitteds@),
                openings@ == q.group_traces().take(i as int),
                forall|m: int|
                    0 <= m < i ==> q.rules.challenge_of(
                        (#[trigger] q.root->0[m]).inner.matrix.ring_dimension as usize,
                    ) is Some,
            decreases key.precommitteds@.len() - i,
        {
            match rules.challenge(key.precommitteds[i].inner.matrix.ring_dimension()) {
                Ok(config) => {
                    openings.push(PlannerOpeningCandidate::evaluation_trace(config));
                    proof {
                        assert(q.group_traces().take(i + 1) =~= q.group_traces().take(
                            i as int,
                        ).push(PlannerOpeningCandidate::trace(config)));
                    }
                },
                Err(_) => {
                    assert(q.rules.challenge_of(
                        q.root->0[i as int].inner.matrix.ring_dimension as usize,
                    ) is None);
                    return None;
                },
            }
            i += 1;
        }
        assert(openings@ =~= q.group_traces());
    } else {
        assert(openings@ =~= q.group_traces());
    }
    Some(openings)
}

/// The trace opening over some ring degrees, if one is tried.
fn trace_work<R: OpeningRules>(
    rules: &R,
    policy: &PlannerPolicy,
    dimensions: CommitmentRingDims,
    root: Option<&AkitaScheduleLookupKey>,
    shape: PolynomialGroupLayout,
    purpose: Option<OpeningPurpose>,
    Ghost(q): Ghost<OpeningQuestion<R>>,
) -> (r: Result<Option<OpeningWork>, AkitaError>)
    requires
        q.rules == *rules,
        q.policy == *policy,
        q.shape == shape,
        q.root == match root {
            Some(key) => Some(key.precommitteds@),
            None => None,
        },
        purpose == trace_purpose(q.early(), q.seed()),
        !q.skipped(dimensions),
    ensures
        match r {
            Ok(work) => {
                &&& q.rules.challenge_of(dimensions.inner) is Some ==> q.reduction() is Some
                &&& match work {
                    Some(w) => q.traces(dimensions) == seq![w@],
                    None => q.traces(dimensions) == Seq::<WorkModel>::empty(),
                }
            },
            Err(e) => q.rules.challenge_of(dimensions.inner) is Some && q.reduction() is None
                && q.reduction_refusal() == Some(e@),
        },
{
    let challenge = match rules.challenge(dimensions.d_a()) {
        Ok(challenge) => challenge,
        Err(_) => {
            return Ok(None);
        },
    };
    let bits: u32 = match rules.challenge_bits(
        policy.decomposition.field_bits(),
        policy.chal_ext_degree,
    ) {
        Ok(bits) => bits,
        Err(e) => {
            return Err(e);
        },
    };
    let bytes: usize = match rules.opening_reduction(bits, policy.claim_ext_degree, shape) {
        Ok(Some(bytes)) => bytes,
        Ok(None) => {
            return Ok(None);
        },
        Err(e) => {
            return Err(e);
        },
    };
    match (trace_groups(rules, root, Ghost(q)), purpose) {
        (Some(precommitted_openings), Some(purpose)) => {
            let work = OpeningWork {
                dimensions,
                opening: PlannerOpeningCandidate::evaluation_trace(challenge),
                precommitted_openings,
                opening_reduction_bytes: bytes,
                purpose,
            };
            assert(q.traces(dimensions) =~= seq![work@]);
            Ok(Some(work))
        },
        _ => Ok(None),
    }
}

/// Appends every packed opening with every opening of the precommitted groups.
fn push_packs<R: OpeningRules>(
    dimensions: CommitmentRingDims,
    packed: &Vec<PlannerOpeningCandidate>,
    products: &Vec<Vec<PlannerOpeningCandidate>>,
    work: &mut Vec<OpeningWork>,
    Ghost(q): Ghost<OpeningQuestion<R>>,
)
    requires
        q.packed(dimensions) == Some(packed@),
        q.products(dimensions) == Some(assignments::views(products@)),
    ensures
        work_models(final(work)@) == work_models(old(work)@) + q.packs(dimensions, packed@.len()),
{
    let ghost start = work_models(work@);
    let mut i: usize = 0;
    assert(start + Seq::<WorkModel>::empty() =~= start);
    while i < packed.len()
        invariant
            i <= packed@.len(),
            q.packed(dimensions) == Some(packed@),
            q.products(dimensions) == Some(assignments::views(products@)),
            work_models(work@) == start + q.packs(dimensions, i as nat),
        decreases packed@.len() - i,
    {
        let opening = packed[i];
        let ghost so_far = work_models(work@);
        let ghost row = q.packs_of(dimensions, opening);
        let mut j: usize = 0;
        assert(so_far + row.take(0) =~= so_far);
        while j < products.len()
            invariant
                j <= products@.len(),
                q.products(dimensions) == Some(assignments::views(products@)),
                row == q.packs_of(dimensions, opening),
                work_models(work@) == so_far + row.take(j as int),
            decreases products@.len() - j,
        {
            let ghost before = work@;
            let ghost groups = products@[j as int]@;
            let precommitted_openings = copy_list(&products[j]);
            work.push(
                OpeningWork {
                    dimensions,
                    opening,
                    precommitted_openings,
                    opening_reduction_bytes: 0,
                    purpose: OpeningPurpose::FoldOnly,
                },
            );
            proof {
                let last = q.pack(dimensions, opening, groups);
                assert(assignments::views(products@)[j as int] == groups);
                assert(row[j as int] == last);
                assert(row.take(j + 1) =~= row.take(j as int).push(last));
                assert(work_models(work@) =~= work_models(before).push(last));
                assert(work_models(work@) =~= so_far + row.take(j + 1));
            }
            j += 1;
        }
        proof {
            assert(row.take(j as int) =~= row);
            assert(start + q.packs(dimensions, i as nat) + row =~= start + q.packs(
                dimensions,
                (i + 1) as nat,
            ));
        }
        i += 1;
    }
}

/// The openings that a level tries, traces before packed ones.
pub fn opening_work_domain<R: OpeningRules>(
    rules: &R,
    policy: &PlannerPolicy,
    level: usize,
    dimension_ceiling: Option<CommitmentRingDims>,
    has_incoming_setup_prefix: bool,
    root_level_key: Option<&AkitaScheduleLookupKey>,
    precommitted_honest_fold_policies: &Vec<HonestFoldPolicySpec>,
    opening_shape: PolynomialGroupLayout,
) -> (r: Result<Vec<OpeningWork>, AkitaError>)
    ensures
        ({
            let q = OpeningQuestion {
                rules: *rules,
                policy: *policy,
                level,
                ceiling: dimension_ceiling,
                prefixed: has_incoming_setup_prefix,
                root: match root_level_key {
                    Some(key) => Some(key.precommitteds@),
                    None => None,
                },
                fold_policies: precommitted_honest_fold_policies@,
                shape: opening_shape,
            };
            match r {
                Ok(work) => q.listed() && work_models(work@) == q.work(),
                Err(e) => !q.listed() && q.refusal() == Some(e@),
            }
        }),
{
    let ghost q = OpeningQuestion {
        rules: *rules,
        policy: *policy,
        level,
        ceiling: dimension_ceiling,
        prefixed: has_incoming_setup_prefix,
        root: match root_level_key {
            Some(key) => Some(key.precommitteds@),
            None => None,
        },
        fold_policies: precommitted_honest_fold_policies@,
        shape: opening_shape,
    };
    let early: bool = level <= 1;
    let at_root: bool = match root_level_key {
        Some(_key) => true,
        None => false,
    };
    let seed: bool = state_allows_terminal_seed(at_root, has_incoming_setup_prefix);
    let purpose = trace_opening_purpose(early, seed);
    let all = match rules.dimensions(policy, level, dimension_ceiling) {
        Ok(all) => all,
        Err(e) => {
            return Err(e);
        },
    };
    let mut traces: Vec<OpeningWork> = Vec::new();
    let mut packs: Vec<OpeningWork> = Vec::new();
    assert(work_models(traces@) =~= Seq::empty());
    assert(work_models(packs@) =~= Seq::empty());
    let mut k: usize = 0;
    while k < all.len()
        invariant
            k <= all@.len(),
            q.rules == *rules,
            q.policy == *policy,
            q.level == level,
            q.ceiling == dimension_ceiling,
            q.prefixed == has_incoming_setup_prefix,
            q.root == match root_level_key {
                Some(key) => Some(key.precommitteds@),
                None => None,
            },
            q.fold_policies == precommitted_honest_fold_policies@,
            q.shape == opening_shape,
            early == q.early(),
            purpose == trace_purpose(q.early(), q.seed()),
            q.dimensions() == Some(all@),
            work_models(traces@) == q.traces_upto(k as nat),
            work_models(packs@) == q.packs_upto(k as nat),
            forall|i: int| 0 <= i < k ==> q.answered(#[trigger] (q.dimensions()->0)[i]),
            q.refusal() == q.refusal_from(k as nat),
        decreases all@.len() - k,
    {
        let dimensions = all[k];
        assert((q.dimensions()->0)[k as int] == dimensions);
        let supported: bool = match root_level_key {
            Some(key) => rules.supports_dimension(&key.precommitteds, dimensions.d_d()),
            None => true,
        };
        assert(supported == !q.skipped(dimensions));
        if supported {
            let packed = if early {
                match rules.packing_domain(level, policy.claim_ext_degree, dimensions) {
                    Ok(packed) => packed,
                    Err(e) => {
                        assert(!q.answered(dimensions));
                        return Err(e);
                    },
                }
            } else {
                let none: Vec<PlannerOpeningCandidate> = Vec::new();
                assert(none@ =~= Seq::empty());
                none
            };
            let mut no_groups: Vec<Vec<PlannerOpeningCandidate>> = Vec::new();
            no_groups.push(Vec::new());
            assert(assignments::views(no_groups@) =~= seq![Seq::empty()]);
            let products = match root_level_key {
                Some(key) => if early {
                    match packing_precommit_opening_products(
                        rules,
                        policy,
                        dimensions,
                        key,
                        precommitted_honest_fold_policies,
                    ) {
                        Ok(products) => products,
                        Err(e) => {
                            assert(!q.answered(dimensions));
                            return Err(e);
                        },
                    }
                } else {
                    no_groups
                },
                None => no_groups,
            };
            let trace = match trace_work(
                rules,
                policy,
                dimensions,
                root_level_key,
                opening_shape,
                purpose,
                Ghost(q),
            ) {
                Ok(trace) => trace,
                Err(e) => {
                    assert(!q.answered(dimensions));
                    return Err(e);
                },
            };
            assert(q.answered(dimensions));
            let ghost before = traces@;
            match trace {
                Some(work) => {
                    let ghost model = work@;
                    traces.push(work);
                    assert(work_models(traces@) =~= work_models(before) + seq![model]);
                },
                None => {
                    assert(work_models(before) + Seq::<WorkModel>::empty() =~= work_models(before));
                },
            }
            push_packs::<R>(dimensions, &packed, &products, &mut packs, Ghost(q));
        } else {
            proof {
                assert(work_models(traces@) + Seq::<WorkModel>::empty() =~= work_models(traces@));
                assert(work_models(packs@) + Seq::<WorkModel>::empty() =~= work_models(packs@));
            }
        }
        k += 1;
    }
    let ghost listed = traces@;
    let ghost tail = packs@;
    traces.append(&mut packs);
    assert(work_models(traces@) =~= work_models(listed) + work_models(tail));
    Ok(traces)
}

// ---------------------------------------------------------------------------
// What a level tries
// ---------------------------------------------------------------------------

/// Whether ring degrees are admitted: all below the root, and at the root those
/// over which the precommitted groups can be opened.
pub open spec fn admitted<R: OpeningRules>(q: OpeningQuestion<R>, dims: CommitmentRingDims) -> bool {
    q.root is None || q.rules.dimension_supported(q.root->0, dims.opening)
}

/// Whether some work is the trace opening over some ring degrees: under the
/// challenges of the inner degree, with a trace for every precommitted group, at
/// the price of the reduction, and for folds from the third level on, for
/// terminals below the root where no setup prefix comes in.
pub open spec fn is_trace_over<R: OpeningRules>(
    q: OpeningQuestion<R>,
    dims: CommitmentRingDims,
    w: WorkModel,
) -> bool {
    let bits = q.rules.challenge_bits_of(
        q.policy.decomposition.field_bits_spec(),
        q.policy.chal_ext_degree,
    );
    &&& admitted(q, dims)
    &&& w.dimensions == dims
    &&& w.opening.method is EvaluationTrace
    &&& q.rules.challenge_of(dims.inner) == Some(w.opening.fold_challenge_config)
    &&& bits is Some
    &&& q.rules.opening_reduction_of(bits->0, q.policy.claim_ext_degree, q.shape) == Some(
        Some(w.opening_reduction_bytes),
    )
    &&& w.precommitted_openings.len() == match q.root {
        Some(profiles) => profiles.len(),
        None => 0,
    }
    &&& forall|g: int|
        0 <= g < w.precommitted_openings.len() ==> {
            let group = #[trigger] w.precommitted_openings[g];
            &&& group.method is EvaluationTrace
            &&& q.rules.challenge_of(
                q.root->0[g].inner.matrix.ring_dimension as usize,
            ) == Some(group.fold_challenge_config)
        }
    &&& w.purpose is FoldOnly || w.purpose is TerminalAndFold <==> q.level >= 2
    &&& w.purpose is TerminalOnly || w.purpose is TerminalAndFold <==> q.root is None && !q.prefixed
}

/// Whether some work is a packed opening over some ring degrees: at the first
/// two levels one of the packed openings of the level's own group, at the root
/// with packed openings of all precommitted groups.
pub open spec fn is_pack_over<R: OpeningRules>(
    q: OpeningQuestion<R>,
    dims: CommitmentRingDims,
    w: WorkModel,
) -> bool {
    &&& admitted(q, dims)
    &&& w.dimensions == dims
    &&& q.level == 0 || q.level == 1
    &&& q.rules.packing_domain_of(q.level, q.policy.claim_ext_degree, dims)->0.contains(w.opening)
    &&& match q.root {
        Some(profiles) => packing_products(
            q.rules,
            q.policy.claim_ext_degree,
            dims.opening,
            profiles,
            q.fold_policies,
        )->0.contains(w.precommitted_openings),
        None => w.precommitted_openings.len() == 0,
    }
    &&& w.opening_reduction_bytes == 0
    &&& w.purpose is FoldOnly
}

/// The work of a level is made up of the trace openings and the packed openings
/// over the ring degrees that it may use: every one of them, and nothing else.
pub proof fn law_levels_try_every_opening<R: OpeningRules>(q: OpeningQuestion<R>, w: WorkModel)
    requires
        q.listed(),
    ensures
        q.work().contains(w) <==> exists|i: int|
            0 <= i < (q.dimensions()->0).len() && {
                let dims = #[trigger] (q.dimensions()->0)[i];
                is_trace_over(q, dims, w) || is_pack_over(q, dims, w)
            },
{
    let all = q.dimensions()->0;
    let n = all.len();
    let (traces, packs) = (q.traces_upto(n), q.packs_upto(n));
    lemma_traces_upto(q, n, w);
    lemma_packs_upto(q, n, w);
    if q.work().contains(w) {
        let k = choose|k: int| 0 <= k < q.work().len() && q.work()[k] == w;
        if k < traces.len() {
            assert(traces[k] == w);
            assert(traces.contains(w));
        } else {
            assert(packs[k - traces.len()] == w);
            assert(packs.contains(w));
        }
    }
    if traces.contains(w) {
        let k = choose|k: int| 0 <= k < traces.len() && traces[k] == w;
        assert(q.work()[k] == w);
    }
    if packs.contains(w) {
        let k = choose|k: int| 0 <= k < packs.len() && packs[k] == w;
        assert(q.work()[traces.len() + k] == w);
    }
}

/// At the first two levels no trace is tried for a fold; from the third level on
/// nothing but traces is tried, and every one for folds.
pub proof fn law_folds_are_packed_at_the_first_two_levels<R: OpeningRules>(
    q: OpeningQuestion<R>,
    w: WorkModel,
)
    requires
        q.listed(),
        q.work().contains(w),
    ensures
        q.level <= 1 && w.opening.method is EvaluationTrace && w.opening_reduction_bytes > 0
            ==> w.purpose is TerminalOnly,
        q.level <= 1 && w.purpose is TerminalAndFold ==> false,
        q.level <= 1 && w.purpose is FoldOnly ==> q.rules.packing_domain_of(
            q.level,
            q.policy.claim_ext_degree,
            w.dimensions,
        )->0.contains(w.opening),
        q.level >= 2 ==> w.opening.method is EvaluationTrace && (w.purpose is FoldOnly
            || w.purpose is TerminalAndFold),
{
    law_levels_try_every_opening(q, w);
}

/// At the first two levels every packed opening of a ring degree that is admitted
/// is tried for a fold, below the root with nothing besides it.
pub proof fn law_packed_openings_are_tried<R: OpeningRules>(
    q: OpeningQuestion<R>,
    i: int,
    opening: PlannerOpeningCandidate,
    groups: Seq<PlannerOpeningCandidate>,
)
    requires
        q.listed(),
        q.level <= 1,
        0 <= i < (q.dimensions()->0).len(),
        admitted(q, (q.dimensions()->0)[i]),
        q.rules.packing_domain_of(
            q.level,
            q.policy.claim_ext_degree,
            (q.dimensions()->0)[i],
        )->0.contains(opening),
        match q.root {
            Some(profiles) => packing_products(
                q.rules,
                q.policy.claim_ext_degree,
                (q.dimensions()->0)[i].opening,
                profiles,
                q.fold_policies,
            )->0.contains(groups),
            None => groups.len() == 0,
        },
    ensures
        q.work().contains(
            WorkModel {
                dimensions: (q.dimensions()->0)[i],
                opening,
                precommitted_openings: groups,
                opening_reduction_bytes: 0,
                purpose: OpeningPurpose::FoldOnly,
            },
        ),
{
    let dims = (q.dimensions()->0)[i];
    let w = WorkModel {
        dimensions: dims,
        opening,
        precommitted_openings: groups,
        opening_reduction_bytes: 0,
        purpose: OpeningPurpose::FoldOnly,
    };
    law_levels_try_every_opening(q, w);
    assert(is_pack_over(q, dims, w));
}

proof fn lemma_trace_over<R: OpeningRules>(
    q: OpeningQuestion<R>,
    dims: CommitmentRingDims,
    w: WorkModel,
)
    ensures
        q.traces(dims).contains(w) <==> is_trace_over(q, dims, w),
{
    let traces = q.traces(dims);
    if traces.contains(w) {
        assert(w == traces[0]);
        if q.root is Some {
            assert forall|g: int| 0 <= g < w.precommitted_openings.len() implies {
                let group = #[trigger] w.precommitted_openings[g];
                &&& group.method is EvaluationTrace
                &&& q.rules.challenge_of(
                    q.root->0[g].inner.matrix.ring_dimension as usize,
                ) == Some(group.fold_challenge_config)
            } by {
                assert(q.rules.challenge_of(
                    q.root->0[g].inner.matrix.ring_dimension as usize,
                ) is Some);
            }
        }
    }
    if is_trace_over(q, dims, w) {
        if q.root is Some {
            assert forall|g: int| 0 <= g < q.root->0.len() implies q.rules.challenge_of(
                (#[trigger] q.root->0[g]).inner.matrix.ring_dimension as usize,
            ) is Some by {
                let group = w.precommitted_openings[g];
            }
        }
        assert(w.precommitted_openings =~= q.group_traces());
        assert(traces[0] == w);
    }
}

proof fn lemma_traces_upto<R: OpeningRules>(q: OpeningQuestion<R>, n: nat, w: WorkModel)
    requires
        n <= (q.dimensions()->0).len(),
    ensures
        q.traces_upto(n).contains(w) <==> exists|i: int|
            0 <= i < n && is_trace_over(q, #[trigger] (q.dimensions()->0)[i], w),
    decreases n,
{
    if n > 0 {
        let dims = (q.dimensions()->0)[n - 1];
        let before = q.traces_upto((n - 1) as nat);
        let more = q.traces(dims);
        let all = q.traces_upto(n);
        lemma_traces_upto(q, (n - 1) as nat, w);
        lemma_trace_over(q, dims, w);
        lemma_contains_either(before, more, w);
        assert(all == before + more);
    }
}

proof fn lemma_contains_either<T>(a: Seq<T>, b: Seq<T>, x: T)
    ensures
        (a + b).contains(x) <==> a.contains(x) || b.contains(x),
{
    let all = a + b;
    if all.contains(x) {
        let k = choose|k: int| 0 <= k < all.len() && all[k] == x;
        if k < a.len() {
            assert(a[k] == x);
        } else {
            assert(b[k - a.len()] == x);
        }
    }
    if a.contains(x) {
        let k = choose|k: int| 0 <= k < a.len() && a[k] == x;
        assert(all[k] == x);
    }
    if b.contains(x) {
        let k = choose|k: int| 0 <= k < b.len() && b[k] == x;
        assert(all[a.len() + k] == x);
    }
}

proof fn lemma_packs_of<R: OpeningRules>(
    q: OpeningQuestion<R>,
    dims: CommitmentRingDims,
    opening: PlannerOpeningCandidate,
    w: WorkModel,
)
    ensures
        q.packs_of(dims, opening).contains(w) <==> q.products(dims)->0.contains(
            w.precommitted_openings,
        ) && w == q.pack(dims, opening, w.precommitted_openings),
{
    let products = q.products(dims)->0;
    let all = q.packs_of(dims, opening);
    if all.contains(w) {
        let k = choose|k: int| 0 <= k < all.len() && all[k] == w;
        assert(products[k] == w.precommitted_openings);
    }
    if products.contains(w.precommitted_openings) && w == q.pack(
        dims,
        opening,
        w.precommitted_openings,
    ) {
        let k = choose|k: int| 0 <= k < products.len() && products[k] == w.precommitted_openings;
        assert(all[k] == w);
    }
}

proof fn lemma_packs<R: OpeningRules>(
    q: OpeningQuestion<R>,
    dims: CommitmentRingDims,
    n: nat,
    w: WorkModel,
)
    requires
        n <= (q.packed(dims)->0).len(),
    ensures
        q.packs(dims, n).contains(w) <==> (q.packed(dims)->0).take(n as int).contains(w.opening)
            && q.products(dims)->0.contains(w.precommitted_openings) && w == q.pack(
            dims,
            w.opening,
            w.precommitted_openings,
        ),
    decreases n,
{
    let packed = q.packed(dims)->0;
    if n > 0 {
        let opening = packed[n - 1];
        let before = q.packs(dims, (n - 1) as nat);
        let more = q.packs_of(dims, opening);
        lemma_packs(q, dims, (n - 1) as nat, w);
        lemma_packs_of(q, dims, opening, w);
        lemma_contains_either(before, more, w);
        lemma_contains_either(packed.take(n - 1), seq![opening], w.opening);
        assert(packed.take(n as int) =~= packed.take(n - 1) + seq![opening]);
        assert(seq![opening].contains(w.opening) <==> w.opening == opening) by {
            assert(seq![opening][0] == opening);
        }
        assert(q.packs(dims, n) == before + more);
    }
}

proof fn lemma_packs_upto<R: OpeningRules>(q: OpeningQuestion<R>, n: nat, w: WorkModel)
    requires
        q.listed(),
        n <= (q.dimensions()->0).len(),
    ensures
        q.packs_upto(n).contains(w) <==> exists|i: int|
            0 <= i < n && is_pack_over(q, #[trigger] (q.dimensions()->0)[i], w),
    decreases n,
{
    if n > 0 {
        let dims = (q.dimensions()->0)[n - 1];
        let before = q.packs_upto((n - 1) as nat);
        let more = q.all_packs(dims);
        lemma_packs_upto(q, (n - 1) as nat, w);
        lemma_contains_either(before, more, w);
        assert(q.answered(dims));
        let packed = q.packed(dims)->0;
        lemma_packs(q, dims, packed.len(), w);
        assert(packed.take(packed.len() as int) =~= packed);
        let nothing = seq![Seq::<PlannerOpeningCandidate>::empty()];
        assert(nothing.contains(w.precommitted_openings) <==> w.precommitted_openings.len() == 0)
            by {
            assert(nothing[0] == Seq::<PlannerOpeningCandidate>::empty());
            if w.precommitted_openings.len() == 0 {
                assert(w.precommitted_openings =~= nothing[0]);
            }
        }
        assert(more.contains(w) <==> is_pack_over(q, dims, w));
        assert(q.packs_upto(n) == before + more);
    }
}

// ---------------------------------------------------------------------------
// What is packed together
// ---------------------------------------------------------------------------

/// The question of how precommitted groups are packed together.
pub struct GroupPacking<R> {
    pub rules: R,
    pub claim_ext_degree: usize,
    pub d_d: usize,
    pub profiles: Seq<GroupCommitPhaseParams>,
    pub policies: Seq<HonestFoldPolicySpec>,
}

impl<R: OpeningRules> GroupPacking<R> {
    /// The packed openings of a group: those that the rules give at the root for
    /// its own inner and outer rings and the opening ring of the fold.
    pub open spec fn domain(self, g: int) -> Seq<PlannerOpeningCandidate> {
        let profile = self.profiles[g];
        self.rules.packing_domain_of(
            0,
            self.claim_ext_degree,
            CommitmentRingDims {
                inner: profile.inner.matrix.ring_dimension as usize,
                outer: profile.outer.matrix.key.ring_dimension as usize,
                opening: self.d_d,
            },
        )->0
    }

    /// Whether openings are chosen by positions: each group has the packed
    /// opening of its own at its position, and groups that share their profile
    /// and their policy have positions that do not decrease.
    pub open spec fn chosen_by(self, openings: Seq<PlannerOpeningCandidate>, at: Seq<int>) -> bool {
        &&& openings.len() == self.profiles.len()
        &&& at.len() == self.profiles.len()
        &&& forall|g: int|
            0 <= g < at.len() ==> 0 <= #[trigger] at[g] < self.domain(g).len() && openings[g]
                == self.domain(g)[at[g]]
        &&& forall|g: int, h: int|
            0 <= g < h < at.len() && self.profiles[g] == self.profiles[h] && self.policies[g]
                == self.policies[h] ==> #[trigger] at[g] <= #[trigger] at[h]
    }

    spec fn classes(self) -> Seq<Seq<usize>> {
        assignments::classes(self.profiles, self.policies, self.profiles.len())
    }

    /// Whether a group is in one of the first `c` classes.
    spec fn covered(self, c: nat, g: int) -> bool {
        exists|d: int| 0 <= d < c && #[trigger] self.classes()[d].contains(g as usize)
    }

    /// Whether a partial assignment to the first `c` classes is chosen by
    /// positions.
    spec fn partly_chosen(
        self,
        c: nat,
        q: Seq<Option<PlannerOpeningCandidate>>,
        at: Seq<int>,
    ) -> bool {
        &&& q.len() == self.profiles.len()
        &&& at.len() == self.profiles.len()
        &&& forall|g: int|
            0 <= g < at.len() && self.covered(c, g) ==> 0 <= #[trigger] at[g] < self.domain(g).len()
                && q[g] == Some(self.domain(g)[at[g]])
        &&& forall|g: int| 0 <= g < q.len() && !self.covered(c, g) ==> (#[trigger] q[g]) is None
        &&& forall|g: int, h: int|
            0 <= g < h < at.len() && self.covered(c, g) && self.covered(c, h)
                && assignments::interchangeable(self.profiles, self.policies, g, h)
                ==> #[trigger] at[g] <= #[trigger] at[h]
    }

    spec fn wf(self) -> bool {
        self.profiles.len() == self.policies.len() && self.profiles.len() <= usize::MAX
    }

    spec fn grown_from(
        self,
        c: nat,
        products: Seq<Seq<Option<PlannerOpeningCandidate>>>,
    ) -> Option<Seq<Seq<Option<PlannerOpeningCandidate>>>> {
        grown(
            self.rules,
            self.claim_ext_degree,
            self.d_d,
            self.profiles,
            self.classes(),
            c,
            products,
        )
    }
}

/// Precommitted groups are packed together in every way that gives each group one
/// of its own packed openings, up to permutations of groups that share their
/// profile and their policy: all of these, and nothing else.
pub proof fn law_groups_are_packed_in_every_way<R: OpeningRules>(
    p: GroupPacking<R>,
    openings: Seq<PlannerOpeningCandidate>,
)
    requires
        p.profiles.len() <= usize::MAX,
        p.rules.dimension_supported(p.profiles, p.d_d),
        packing_products(
            p.rules,
            p.claim_ext_degree,
            p.d_d,
            p.profiles,
            p.policies,
        ) is Some,
    ensures
        packing_products(
            p.rules,
            p.claim_ext_degree,
            p.d_d,
            p.profiles,
            p.policies,
        )->0.contains(openings) <==> exists|at: Seq<int>| #[trigger] p.chosen_by(openings, at),
{
    let n = p.profiles.len();
    let all = p.classes();
    let start = seq![unassigned(n)];
    assert forall|q: Seq<Option<PlannerOpeningCandidate>>| #[trigger] start.contains(q) <==> exists|
        at: Seq<int>,
    | #[trigger] p.partly_chosen(0, q, at) by {
        if start.contains(q) {
            assert(q == start[0]);
            let at = Seq::new(n, |g: int| 0int);
            assert(p.partly_chosen(0, q, at));
        }
        if exists|at: Seq<int>| #[trigger] p.partly_chosen(0, q, at) {
            assert forall|g: int| 0 <= g < n implies #[trigger] q[g] == unassigned(n)[g] by {
                assert(!p.covered(0, g));
            }
            assert(q =~= unassigned(n));
            assert(start[0] == q);
        }
    }
    let last = p.grown_from(0, start)->0;
    let products = assignments::complete(last);
    assert forall|g: int| 0 <= g < n implies #[trigger] p.covered(all.len(), g) by {
        assignments::law_classes_partition(p.profiles, p.policies, g as usize, g as usize);
        let d = choose|d: int| 0 <= d < all.len() && #[trigger] all[d].contains(g as usize);
        assert(p.classes()[d].contains(g as usize));
    }
    if products.contains(openings) {
        let k = choose|k: int| 0 <= k < products.len() && products[k] == openings;
        assert(last.contains(last[k]));
        lemma_grown_is_chosen(p, 0, start, last[k]);
        let at = choose|at: Seq<int>| #[trigger] p.partly_chosen(all.len(), last[k], at);
        assert forall|g: int| 0 <= g < at.len() implies 0 <= #[trigger] at[g] < p.domain(g).len()
            && openings[g] == p.domain(g)[at[g]] by {
            assert(p.covered(all.len(), g));
        }
        assert forall|g: int, h: int|
            0 <= g < h < at.len() && p.profiles[g] == p.profiles[h] && p.policies[g]
                == p.policies[h] implies #[trigger] at[g] <= #[trigger] at[h] by {
            assert(p.covered(all.len(), g) && p.covered(all.len(), h));
            assert(assignments::interchangeable(p.profiles, p.policies, g, h));
        }
        assert(p.chosen_by(openings, at));
    }
    if exists|at: Seq<int>| #[trigger] p.chosen_by(openings, at) {
        let at = choose|at: Seq<int>| #[trigger] p.chosen_by(openings, at);
        let q = Seq::new(n, |g: int| Some(openings[g]));
        assert forall|g: int| 0 <= g < n implies (#[trigger] at[g]) >= 0 && q[g] == Some(
            p.domain(g)[at[g]],
        ) by {}
        assert forall|g: int, h: int|
            0 <= g < h < at.len() && p.covered(all.len(), g) && p.covered(all.len(), h)
                && assignments::interchangeable(
                p.profiles,
                p.policies,
                g,
                h,
            ) implies #[trigger] at[g] <= #[trigger] at[h] by {}
        assert(p.partly_chosen(all.len(), q, at));
        lemma_grown_is_chosen(p, 0, start, q);
        let k = choose|k: int| 0 <= k < last.len() && last[k] == q;
        assert(products[k] =~= openings);
    }
}

/// The classes of a packing: each has members, in order, all below the number of
/// groups, which share its profile, and all of those that do.
proof fn lemma_class_facts<R: OpeningRules>(p: GroupPacking<R>, c: int)
    requires
        p.wf(),
        0 <= c < p.classes().len(),
    ensures
        ({
            let class = p.classes()[c];
            &&& class.len() > 0
            &&& forall|i: int, j: int| 0 <= i < j < class.len() ==> class[i] < class[j]
            &&& forall|i: int|
                0 <= i < class.len() ==> (#[trigger] class[i]) < p.profiles.len()
                    && p.profiles[class[i] as int] == p.profiles[class[0] as int]
                    && p.policies[class[i] as int] == p.policies[class[0] as int]
            &&& forall|g: int, h: int|
                0 <= g < p.profiles.len() && 0 <= h < p.profiles.len()
                    && assignments::interchangeable(p.profiles, p.policies, g, h)
                    && class.contains(g as usize) ==> #[trigger] class.contains(h as usize)
                    && #[trigger] class.contains(g as usize)
        }),
{
    let n = p.profiles.len();
    let class = p.classes()[c];
    assignments::lemma_class(p.profiles, p.policies, n, c);
    assignments::lemma_members(p.profiles, p.policies, class[0] as int, n);
    assert forall|g: int, h: int|
        0 <= g < n && 0 <= h < n && assignments::interchangeable(p.profiles, p.policies, g, h)
            && class.contains(g as usize) implies #[trigger] class.contains(h as usize)
        && #[trigger] class.contains(g as usize) by {
        let k = choose|k: int| 0 <= k < class.len() && class[k] == g as usize;
        assert(assignments::interchangeable(
            p.profiles,
            p.policies,
            class[0] as int,
            class[k] as int,
        ));
        assert(assignments::interchangeable(p.profiles, p.policies, class[0] as int, h));
    }
}

/// Later classes begin with later groups.
proof fn lemma_heads_increase(
    profiles: Seq<GroupCommitPhaseParams>,
    policies: Seq<HonestFoldPolicySpec>,
    n: nat,
    c: int,
    d: int,
)
    requires
        n <= profiles.len() <= usize::MAX,
        0 <= c < d < assignments::classes(profiles, policies, n).len(),
    ensures
        assignments::classes(profiles, policies, n)[c][0] < assignments::classes(
            profiles,
            policies,
            n,
        )[d][0],
    decreases n,
{
    if n > 0 {
        let before = assignments::classes(profiles, policies, (n - 1) as nat);
        let all = assignments::classes(profiles, policies, n);
        if d < before.len() {
            lemma_heads_increase(profiles, policies, (n - 1) as nat, c, d);
        } else {
            assignments::lemma_class(profiles, policies, (n - 1) as nat, c);
            assignments::lemma_class(profiles, policies, n, d);
            let head = all[d][0] as int;
            let i = n - 1;
            assert(all[d] == assignments::members(profiles, policies, i, profiles.len()));
            assignments::lemma_members(profiles, policies, i, profiles.len());
            assert(assignments::interchangeable(profiles, policies, i, all[d][0] as int));
            if head < i {
                assert(assignments::interchangeable(profiles, policies, head, i));
                assert(assignments::is_first(profiles, policies, i));
            }
        }
    }
}

/// No group is in two classes.
proof fn lemma_classes_are_disjoint<R: OpeningRules>(p: GroupPacking<R>, c: nat, g: int)
    requires
        p.wf(),
        c < p.classes().len(),
        0 <= g < p.profiles.len(),
        p.classes()[c as int].contains(g as usize),
    ensures
        !p.covered(c, g),
{
    if p.covered(c, g) {
        let all = p.classes();
        let d = choose|d: int| 0 <= d < c && #[trigger] all[d].contains(g as usize);
        let n = p.profiles.len();
        lemma_class_facts(p, c as int);
        lemma_class_facts(p, d);
        lemma_heads_increase(p.profiles, p.policies, n, d, c as int);
        assignments::lemma_class(p.profiles, p.policies, n, c as int);
        let (a, b) = (all[d][0] as int, all[c as int][0] as int);
        let i = choose|i: int| 0 <= i < all[d].len() && all[d][i] == g as usize;
        let j = choose|j: int| 0 <= j < all[c as int].len() && all[c as int][j] == g as usize;
        assert(p.profiles[all[d][i] as int] == p.profiles[a]);
        assert(p.profiles[all[c as int][j] as int] == p.profiles[b]);
        assert(assignments::interchangeable(p.profiles, p.policies, a, b));
    }
}

/// Filling in a class puts each of its openings at its group and leaves the other
/// groups as they were.
proof fn lemma_filled_places(
    product: Seq<Option<PlannerOpeningCandidate>>,
    indices: Seq<usize>,
    choice: Seq<PlannerOpeningCandidate>,
    k: nat,
)
    requires
        k <= indices.len(),
        forall|i: int, j: int| 0 <= i < j < indices.len() ==> indices[i] < indices[j],
        forall|i: int| 0 <= i < indices.len() ==> #[trigger] indices[i] < product.len(),
    ensures
        assignments::filled(product, indices, choice, k).len() == product.len(),
        forall|i: int|
            0 <= i < k ==> assignments::filled(
                product,
                indices,
                choice,
                k,
            )[#[trigger] indices[i] as int] == Some(choice[i]),
        forall|m: int|
            0 <= m < product.len() && !indices.take(k as int).contains(m as usize) && m
                <= usize::MAX ==> #[trigger] assignments::filled(product, indices, choice, k)[m]
                == product[m],
    decreases k,
{
    if k > 0 {
        lemma_filled_places(product, indices, choice, (k - 1) as nat);
        let before = assignments::filled(product, indices, choice, (k - 1) as nat);
        let after = assignments::filled(product, indices, choice, k);
        assert forall|m: int|
            0 <= m < product.len() && !indices.take(k as int).contains(m as usize) && m
                <= usize::MAX implies #[trigger] after[m] == product[m] by {
            let short = indices.take(k - 1);
            if short.contains(m as usize) {
                let i = choose|i: int| 0 <= i < short.len() && short[i] == m as usize;
                assert(indices.take(k as int)[i] == m as usize);
            }
            assert(indices.take(k as int)[k - 1] == indices[k - 1]);
            assert(before[m] == product[m]);
        }
    }
}

/// What is in a product with a class.
proof fn lemma_crossed_holds(
    products: Seq<Seq<Option<PlannerOpeningCandidate>>>,
    indices: Seq<usize>,
    choices: Seq<Seq<PlannerOpeningCandidate>>,
    k: nat,
    q: Seq<Option<PlannerOpeningCandidate>>,
)
    requires
        k <= products.len(),
    ensures
        assignments::crossed(products, indices, choices, k).contains(q) <==> exists|r: int, a: int|
            0 <= r < k && 0 <= a < choices.len() && q == #[trigger] assignments::filled(
                products[r],
                indices,
                choices[a],
                indices.len(),
            ),
    decreases k,
{
    if k > 0 {
        let before = assignments::crossed(products, indices, choices, (k - 1) as nat);
        let fan = assignments::fanned(products[k - 1], indices, choices);
        lemma_crossed_holds(products, indices, choices, (k - 1) as nat, q);
        lemma_contains_either(before, fan, q);
        if fan.contains(q) {
            let a = choose|a: int| 0 <= a < fan.len() && fan[a] == q;
            assert(q == assignments::filled(
                products[k - 1],
                indices,
                choices[a],
                indices.len(),
            ));
        }
        if exists|a: int|
            0 <= a < choices.len() && q == #[trigger] assignments::filled(
                products[k - 1],
                indices,
                choices[a],
                indices.len(),
            ) {
            let a = choose|a: int|
                0 <= a < choices.len() && q == #[trigger] assignments::filled(
                    products[k - 1],
                    indices,
                    choices[a],
                    indices.len(),
                );
            assert(fan[a] == q);
        }
        assert(assignments::crossed(products, indices, choices, k) == before + fan);
    }
}

/// The assignments to a class are the selections from its domain by positions
/// that do not decrease.
proof fn lemma_choices_hold(
    domain: Seq<PlannerOpeningCandidate>,
    width: nat,
    choice: Seq<PlannerOpeningCandidate>,
)
    ensures
        assignments::nondecreasing(domain, width, 0).contains(choice) <==> exists|s: Seq<int>|
            s.len() == width && #[trigger] assignments::is_nondecreasing(s, domain.len(), 0)
                && choice == s.map_values(|i: int| domain[i]),
{
    let all = assignments::nondecreasing(domain, width, 0);
    let by_position = assignments::nondecreasing(assignments::positions(domain.len()), width, 0);
    let look_up = |s: Seq<int>| s.map_values(|i: int| domain[i]);
    assignments::law_assignments_by_position(domain, width, 0);
    assert(all == by_position.map_values(look_up));
    if all.contains(choice) {
        let k = choose|k: int| 0 <= k < all.len() && all[k] == choice;
        let s = by_position[k];
        assert(by_position.contains(s));
        assignments::law_assignments_complete(domain.len(), width, 0, s);
        assert(choice == look_up(s));
    }
    if exists|s: Seq<int>|
        s.len() == width && #[trigger] assignments::is_nondecreasing(s, domain.len(), 0) && choice
            == s.map_values(|i: int| domain[i]) {
        let s = choose|s: Seq<int>|
            s.len() == width && #[trigger] assignments::is_nondecreasing(s, domain.len(), 0)
                && choice == s.map_values(|i: int| domain[i]);
        assignments::law_assignments_complete(domain.len(), width, 0, s);
        let k = choose|k: int| 0 <= k < by_position.len() && by_position[k] == s;
        assert(all[k] == look_up(s));
    }
}

/// A choice for a class extends a choice for the classes before it.
proof fn lemma_choice_extends<R: OpeningRules>(
    p: GroupPacking<R>,
    c: nat,
    r: Seq<Option<PlannerOpeningCandidate>>,
    at: Seq<int>,
    s: Seq<int>,
) -> (after: Seq<int>)
    requires
        p.wf(),
        c < p.classes().len(),
        p.partly_chosen(c, r, at),
        s.len() == p.classes()[c as int].len(),
        assignments::is_nondecreasing(s, p.domain(p.classes()[c as int][0] as int).len(), 0),
    ensures
        ({
            let indices = p.classes()[c as int];
            let domain = p.domain(indices[0] as int);
            p.partly_chosen(
                c + 1,
                assignments::filled(r, indices, s.map_values(|i: int| domain[i]), indices.len()),
                after,
            )
        }),
{
    let n = p.profiles.len();
    let indices = p.classes()[c as int];
    let domain = p.domain(indices[0] as int);
    let choice = s.map_values(|i: int| domain[i]);
    let q = assignments::filled(r, indices, choice, indices.len());
    lemma_class_facts(p, c as int);
    lemma_filled_places(r, indices, choice, indices.len());
    assert(indices.take(indices.len() as int) =~= indices);
    let after = Seq::new(
        n,
        |g: int|
            if indices.contains(g as usize) {
                s[indices.index_of(g as usize)]
            } else {
                at[g]
            },
    );
    assert forall|m: usize| #[trigger] indices.contains(m) implies 0 <= indices.index_of(m)
        < indices.len() && indices[indices.index_of(m)] == m by {}
    assert forall|g: int| 0 <= g < n && p.covered(c + 1, g) implies 0 <= #[trigger] after[g]
        < p.domain(g).len() && q[g] == Some(p.domain(g)[after[g]]) by {
        if indices.contains(g as usize) {
            let k = indices.index_of(g as usize);
            assert(p.profiles[indices[k] as int] == p.profiles[indices[0] as int]);
            assert(q[indices[k] as int] == Some(choice[k]));
        } else {
            lemma_covered_before(p, c, g);
            assert(0 <= at[g] < p.domain(g).len());
            assert(q[g] == r[g]);
        }
    }
    assert forall|g: int| 0 <= g < q.len() && !p.covered(c + 1, g) implies (
    #[trigger] q[g]) is None by {
        lemma_covered_after(p, c, g);
        assert(q[g] == r[g]);
    }
    assert forall|g: int, h: int|
        0 <= g < h < after.len() && p.covered(c + 1, g) && p.covered(c + 1, h)
            && assignments::interchangeable(
            p.profiles,
            p.policies,
            g,
            h,
        ) implies #[trigger] after[g] <= #[trigger] after[h] by {
        assert(assignments::interchangeable(p.profiles, p.policies, h, g));
        if indices.contains(g as usize) {
            assert(indices.contains(h as usize));
            let (j, k) = (indices.index_of(g as usize), indices.index_of(h as usize));
            assert(indices[j] == g && indices[k] == h);
            if j > k {
                assert(indices[k] < indices[j]);
            }
            assert(s[j] <= s[k]);
        } else {
            assert(!indices.contains(h as usize));
            lemma_covered_before(p, c, g);
            lemma_covered_before(p, c, h);
            assert(at[g] <= at[h]);
        }
    }
    assert(p.partly_chosen(c + 1, q, after));
    after
}

proof fn lemma_covered_before<R: OpeningRules>(p: GroupPacking<R>, c: nat, g: int)
    requires
        c < p.classes().len(),
        p.covered(c + 1, g),
        !p.classes()[c as int].contains(g as usize),
    ensures
        p.covered(c, g),
{
    let d = choose|d: int| 0 <= d < c + 1 && #[trigger] p.classes()[d].contains(g as usize);
    assert(p.classes()[d].contains(g as usize));
}

proof fn lemma_covered_after<R: OpeningRules>(p: GroupPacking<R>, c: nat, g: int)
    requires
        c < p.classes().len(),
        !p.covered(c + 1, g),
    ensures
        !p.covered(c, g),
        !p.classes()[c as int].contains(g as usize),
{
    if p.covered(c, g) {
        let d = choose|d: int| 0 <= d < c && #[trigger] p.classes()[d].contains(g as usize);
        assert(p.classes()[d].contains(g as usize));
    }
}

/// A choice for one class more is a choice for the class that extends a choice for
/// the classes before it.
proof fn lemma_choice_comes_apart<R: OpeningRules>(
    p: GroupPacking<R>,
    c: nat,
    q: Seq<Option<PlannerOpeningCandidate>>,
    at: Seq<int>,
) -> (parts: (Seq<Option<PlannerOpeningCandidate>>, Seq<int>))
    requires
        p.wf(),
        c < p.classes().len(),
        p.partly_chosen(c + 1, q, at),
    ensures
        ({
            let indices = p.classes()[c as int];
            let domain = p.domain(indices[0] as int);
            &&& p.partly_chosen(c, parts.0, at)
            &&& parts.1.len() == indices.len()
            &&& assignments::is_nondecreasing(parts.1, domain.len(), 0)
            &&& q == assignments::filled(
                parts.0,
                indices,
                parts.1.map_values(|i: int| domain[i]),
                indices.len(),
            )
        }),
{
    let n = p.profiles.len();
    let indices = p.classes()[c as int];
    let domain = p.domain(indices[0] as int);
    lemma_class_facts(p, c as int);
    let r = Seq::new(
        n,
        |g: int|
            if indices.contains(g as usize) {
                None
            } else {
                q[g]
            },
    );
    let s = Seq::new(indices.len(), |k: int| at[indices[k] as int]);
    let choice = s.map_values(|i: int| domain[i]);
    assert forall|g: int| 0 <= g < n && p.covered(c, g) implies 0 <= #[trigger] at[g]
        < p.domain(g).len() && r[g] == Some(p.domain(g)[at[g]]) by {
        if indices.contains(g as usize) {
            lemma_classes_are_disjoint(p, c, g);
        }
        if !p.covered(c + 1, g) {
            lemma_covered_after(p, c, g);
        }
    }
    assert forall|g: int| 0 <= g < n && !p.covered(c, g) implies (#[trigger] r[g]) is None by {
        if !indices.contains(g as usize) {
            if p.covered(c + 1, g) {
                lemma_covered_before(p, c, g);
            }
            assert(q[g] is None);
        }
    }
    assert forall|g: int, h: int|
        0 <= g < h < n && p.covered(c, g) && p.covered(c, h) && assignments::interchangeable(
            p.profiles,
            p.policies,
            g,
            h,
        ) implies #[trigger] at[g] <= #[trigger] at[h] by {
        if !p.covered(c + 1, g) {
            lemma_covered_after(p, c, g);
        }
        if !p.covered(c + 1, h) {
            lemma_covered_after(p, c, h);
        }
    }
    assert(p.partly_chosen(c, r, at));
    assert forall|k: int| 0 <= k < indices.len() implies p.covered(
        c + 1,
        #[trigger] indices[k] as int,
    ) by {
        assert(indices.contains(indices[k]));
        assert(p.classes()[c as int].contains((indices[k] as int) as usize));
    }
    assert forall|k: int| 0 <= k < s.len() implies 0 <= #[trigger] s[k] < domain.len() by {
        let g = indices[k] as int;
        assert(p.profiles[g] == p.profiles[indices[0] as int]);
        assert(0 <= at[g] < p.domain(g).len());
    }
    assert forall|j: int, k: int| 0 <= j <= k < s.len() implies s[j] <= s[k] by {
        if j < k {
            let (g, h) = (indices[j] as int, indices[k] as int);
            assert(assignments::interchangeable(p.profiles, p.policies, g, h));
            assert(at[g] <= at[h]);
        }
    }
    lemma_filled_places(r, indices, choice, indices.len());
    assert(indices.take(indices.len() as int) =~= indices);
    let back = assignments::filled(r, indices, choice, indices.len());
    assert forall|g: int| 0 <= g < n implies #[trigger] back[g] == q[g] by {
        if indices.contains(g as usize) {
            let k = choose|k: int| 0 <= k < indices.len() && indices[k] == g as usize;
            assert(back[indices[k] as int] == Some(choice[k]));
            assert(p.profiles[indices[k] as int] == p.profiles[indices[0] as int]);
            assert(0 <= at[g] < p.domain(g).len());
        }
    }
    assert(back =~= q);
    (r, s)
}

/// What grows from the choices for the first classes are the choices for all.
proof fn lemma_grown_is_chosen<R: OpeningRules>(
    p: GroupPacking<R>,
    c: nat,
    products: Seq<Seq<Option<PlannerOpeningCandidate>>>,
    q: Seq<Option<PlannerOpeningCandidate>>,
)
    requires
        p.wf(),
        c <= p.classes().len(),
        p.grown_from(c, products) is Some,
        forall|r: Seq<Option<PlannerOpeningCandidate>>| #[trigger]
            products.contains(r) <==> exists|at: Seq<int>| #[trigger] p.partly_chosen(c, r, at),
    ensures
        p.grown_from(c, products)->0.contains(q) <==> exists|at: Seq<int>| #[trigger]
            p.partly_chosen(p.classes().len(), q, at),
    decreases p.classes().len() - c,
{
    let all = p.classes();
    if c < all.len() {
        let indices = all[c as int];
        lemma_class_facts(p, c as int);
        let domain = p.domain(indices[0] as int);
        if domain.len() == 0 {
            if exists|at: Seq<int>| #[trigger] p.partly_chosen(all.len(), q, at) {
                let at = choose|at: Seq<int>| #[trigger] p.partly_chosen(all.len(), q, at);
                let g = indices[0] as int;
                assert(indices.contains(indices[0]));
                assert(p.classes()[c as int].contains(g as usize));
                assert(p.covered(all.len(), g));
                assert(0 <= at[g] < p.domain(g).len());
            }
        } else {
            let choices = assignments::nondecreasing(domain, indices.len(), 0);
            let next = assignments::crossed(products, indices, choices, products.len());
            assert forall|r: Seq<Option<PlannerOpeningCandidate>>| #[trigger]
                next.contains(r) <==> exists|at: Seq<int>| #[trigger]
                p.partly_chosen(c + 1, r, at) by {
                lemma_crossed_holds(products, indices, choices, products.len(), r);
                if next.contains(r) {
                    let (i, a) = choose|i: int, a: int|
                        0 <= i < products.len() && 0 <= a < choices.len() && r
                            == #[trigger] assignments::filled(
                            products[i],
                            indices,
                            choices[a],
                            indices.len(),
                        );
                    assert(products.contains(products[i]));
                    let at = choose|at: Seq<int>| #[trigger] p.partly_chosen(c, products[i], at);
                    assert(choices.contains(choices[a]));
                    lemma_choices_hold(domain, indices.len(), choices[a]);
                    let s = choose|s: Seq<int>|
                        s.len() == indices.len() && #[trigger] assignments::is_nondecreasing(
                            s,
                            domain.len(),
                            0,
                        ) && choices[a] == s.map_values(|i: int| domain[i]);
                    let after = lemma_choice_extends(p, c, products[i], at, s);
                    assert(p.partly_chosen(c + 1, r, after));
                }
                if exists|at: Seq<int>| #[trigger] p.partly_chosen(c + 1, r, at) {
                    let at = choose|at: Seq<int>| #[trigger] p.partly_chosen(c + 1, r, at);
                    let (before, s) = lemma_choice_comes_apart(p, c, r, at);
                    assert(products.contains(before));
                    let i = choose|i: int| 0 <= i < products.len() && products[i] == before;
                    let choice = s.map_values(|i: int| domain[i]);
                    lemma_choices_hold(domain, indices.len(), choice);
                    let a = choose|a: int| 0 <= a < choices.len() && choices[a] == choice;
                    assert(r == assignments::filled(
                        products[i],
                        indices,
                        choices[a],
                        indices.len(),
                    ));
                }
            }
            lemma_grown_is_chosen(p, c + 1, next, q);
        }
    }
}

/// The number of openings that a level tries over its first `n` ring degrees: over
/// each a trace where there is one, and as many packed openings as its own group
/// has, times the ways to pack the precommitted groups.
pub open spec fn tried_over<R: OpeningRules>(q: OpeningQuestion<R>, n: nat) -> int
    decreases n,
{
    if n == 0 {
        0
    } else {
        let dims = (q.dimensions()->0)[n - 1];
        tried_over(q, (n - 1) as nat) + (if exists|w: WorkModel| is_trace_over(q, dims, w) {
            1int
        } else {
            0int
        }) + (if admitted(q, dims) && q.level <= 1 {
            q.rules.packing_domain_of(q.level, q.policy.claim_ext_degree, dims)->0.len() * (
            match q.root {
                Some(profiles) => packing_products(
                    q.rules,
                    q.policy.claim_ext_degree,
                    dims.opening,
                    profiles,
                    q.fold_policies,
                )->0.len(),
                None => 1,
            })
        } else {
            0
        })
    }
}

/// A level tries every opening once: as many as there are over its ring degrees.
pub proof fn law_openings_are_tried_once<R: OpeningRules>(q: OpeningQuestion<R>)
    requires
        q.listed(),
    ensures
        q.work().len() == tried_over(q, (q.dimensions()->0).len()),
{
    lemma_tried_over(q, (q.dimensions()->0).len());
}

proof fn lemma_tried_over<R: OpeningRules>(q: OpeningQuestion<R>, n: nat)
    requires
        q.listed(),
        n <= (q.dimensions()->0).len(),
    ensures
        q.traces_upto(n).len() + q.packs_upto(n).len() == tried_over(q, n),
    decreases n,
{
    if n > 0 {
        let dims = (q.dimensions()->0)[n - 1];
        lemma_tried_over(q, (n - 1) as nat);
        assert(q.answered(dims));
        let traces = q.traces(dims);
        if traces.len() > 0 {
            assert(traces.contains(traces[0]));
            lemma_trace_over(q, dims, traces[0]);
        }
        if exists|w: WorkModel| is_trace_over(q, dims, w) {
            let w = choose|w: WorkModel| is_trace_over(q, dims, w);
            lemma_trace_over(q, dims, w);
            assert(traces.contains(w));
        }
        let packed = q.packed(dims)->0;
        lemma_pack_count(q, dims, packed.len());
        assert(0 * q.products(dims)->0.len() == 0) by (nonlinear_arith);
    }
}

proof fn lemma_pack_count<R: OpeningRules>(
    q: OpeningQuestion<R>,
    dims: CommitmentRingDims,
    n: nat,
)
    ensures
        q.packs(dims, n).len() == n * q.products(dims)->0.len(),
    decreases n,
{
    let m = q.products(dims)->0.len();
    if n > 0 {
        lemma_pack_count(q, dims, (n - 1) as nat);
        assert(n * m == (n - 1) * m + m) by (nonlinear_arith);
    } else {
        assert(0 * m == 0) by (nonlinear_arith);
    }
}

/// The openings of a level can be listed exactly when the rules name its ring degrees
/// and answer for every one that is admitted: for its packed openings at the first
/// two levels, there at the root also for those of the precommitted groups, and for
/// the reduction where the inner ring has challenges.
pub proof fn law_levels_are_listed<R: OpeningRules>(q: OpeningQuestion<R>)
    ensures
        q.listed() <==> {
            let all = q.rules.dimensions_of(q.policy, q.level, q.ceiling);
            let ext = q.policy.claim_ext_degree;
            let bits = q.rules.challenge_bits_of(
                q.policy.decomposition.field_bits_spec(),
                q.policy.chal_ext_degree,
            );
            &&& all is Some
            &&& forall|i: int|
                0 <= i < all->0.len() && admitted(q, #[trigger] all->0[i]) ==> {
                    let dims = all->0[i];
                    &&& q.level <= 1 ==> q.rules.packing_domain_of(q.level, ext, dims) is Some
                    &&& q.level <= 1 && q.root is Some ==> packing_products(
                        q.rules,
                        ext,
                        dims.opening,
                        q.root->0,
                        q.fold_policies,
                    ) is Some
                    &&& q.rules.challenge_of(dims.inner) is Some ==> bits is Some
                        && q.rules.opening_reduction_of(bits->0, ext, q.shape) is Some
                }
        },
{
    let all = q.rules.dimensions_of(q.policy, q.level, q.ceiling);
    if q.listed() {
        assert forall|i: int| 0 <= i < all->0.len() && admitted(
            q,
            #[trigger] all->0[i],
        ) implies q.answered(all->0[i]) by {
            assert(q.answered((q.dimensions()->0)[i]));
        }
    }
}

} // verus!
