//! Compact schedule rows, their keys and the catalog lookup.

use crate::descriptor;
use crate::error::AkitaError;
use crate::params::{
    AkitaScheduleLookupKey, BasisRange, BlockGeometry, ChunkedWitnessCfg, CommitmentPayloadMode,
    DecompositionParams, GroupCommitPhaseParams, OpeningMethod, PlannerCostModelId,
    PolynomialGroupLayout, RecursiveSetupSearchPolicy, RecursiveSplitSearchPolicy,
    RingDimensionScheduleMode, RingRelationMode, SelectionPolicyId, SelectiveL2ResponseModelId,
    SisL2TableDigest, SisModulusProfileId, SisSecurityPolicyId, SisTableDigest,
};
use core::cmp::Ordering;
use vstd::prelude::*;

verus! {

/// The planner's choice for one commitment matrix; its rank is looked up again
/// when the row is expanded.
#[derive(Clone, Copy, Debug, PartialEq, Eq, Structural)]
pub struct GeneratedMatrix {
    pub ring_dimension: u32,
    pub log_basis: u32,
}

/// A group that a fold derives and commits itself.
#[derive(Clone, Copy, Debug, PartialEq, Eq, Structural)]
pub struct GeneratedGroup {
    pub geometry: BlockGeometry,
    pub inner_commit_matrix: GeneratedMatrix,
    pub outer_commit_matrix: GeneratedMatrix,
    pub outer_slice_count: u32,
    pub num_digits_fold: u32,
    pub opening_method: OpeningMethod,
}

/// A group whose commitment is frozen.
#[derive(Clone, Copy, Debug, PartialEq, Eq, Structural)]
pub struct GeneratedFrozenGroup {
    pub profile: GroupCommitPhaseParams,
    /// How the consuming fold opens the group.
    pub opening_method: OpeningMethod,
    /// The number of digits of the folded witness.
    pub num_digits_fold: u32,
}

/// A group committed before the root fold.
#[derive(Clone, Copy, Debug, PartialEq, Eq, Structural)]
pub struct GeneratedPrecommittedGroup {
    pub group: GeneratedFrozenGroup,
}

/// A setup output that a recursive fold takes as its first group.
#[derive(Clone, Copy, Debug, PartialEq, Eq, Structural)]
pub struct GeneratedSetupPrefix {
    pub group: GeneratedFrozenGroup,
    pub natural_len: u64,
}

/// What every fold but the terminal one executes.
#[derive(Clone, Copy, Debug, PartialEq, Eq, Structural)]
pub struct GeneratedFoldCore {
    pub group: GeneratedGroup,
    pub open_commit_matrix: GeneratedMatrix,
    pub witness_chunks: u32,
    pub ring_relation_mode: RingRelationMode,
}

/// The root fold.
#[derive(Clone, Debug, PartialEq, Eq)]
pub struct GeneratedRootFold {
    pub core: GeneratedFoldCore,
    pub num_digits_inner: u32,
    pub precommitted_groups: Vec<GeneratedPrecommittedGroup>,
}

/// A recursive fold.
#[derive(Clone, Copy, Debug, PartialEq, Eq, Structural)]
pub struct GeneratedRecursiveFold {
    pub core: GeneratedFoldCore,
    pub setup_prefix: Option<GeneratedSetupPrefix>,
    pub payload_mode: CommitmentPayloadMode,
    pub response_l2_sq_cap: Option<u128>,
}

/// The terminal fold.
#[derive(Clone, Copy, Debug, PartialEq, Eq, Structural)]
pub struct GeneratedTerminalFold {
    pub geometry: BlockGeometry,
    pub inner_commit_matrix: GeneratedMatrix,
    pub num_digits_inner: u32,
    pub fold_log_basis: u32,
    pub fold_digit_count: u32,
    pub inner_output_rank: u32,
    pub inner_coeff_linf_bound: u128,
    pub response_l2_sq_cap: Option<u128>,
    pub z_linf_cap: Option<u128>,
    pub z_rice_low_bits: u32,
    pub z_payload_bytes: u64,
}

/// One row of a catalog.
#[derive(Clone, Debug, PartialEq, Eq)]
pub struct GeneratedFoldScheduleEntry {
    /// The layout of the final group.
    pub final_group: PolynomialGroupLayout,
    pub root: GeneratedRootFold,
    pub recursive_folds: Vec<GeneratedRecursiveFold>,
    pub terminal: GeneratedTerminalFold,
}

/// What a root fold of a row holds.
#[verifier::ext_equal]
pub struct RootFoldModel {
    pub core: GeneratedFoldCore,
    pub num_digits_inner: u32,
    pub precommitted_groups: Seq<GeneratedPrecommittedGroup>,
}

/// What a row holds.
#[verifier::ext_equal]
pub struct EntryModel {
    pub final_group: PolynomialGroupLayout,
    pub root: RootFoldModel,
    pub recursive_folds: Seq<GeneratedRecursiveFold>,
    pub terminal: GeneratedTerminalFold,
}

impl GeneratedFoldScheduleEntry {
    pub open spec fn view(self) -> EntryModel {
        EntryModel {
            final_group: self.final_group,
            root: RootFoldModel {
                core: self.root.core,
                num_digits_inner: self.root.num_digits_inner,
                precommitted_groups: self.root.precommitted_groups@,
            },
            recursive_folds: self.recursive_folds@,
            terminal: self.terminal,
        }
    }
}

/// Everything that a catalog was generated under.
#[derive(Clone, Debug, PartialEq, Eq)]
pub struct GeneratedScheduleCatalogIdentity {
    pub family_name: String,
    pub protocol_epoch: u32,
    pub cost_model: PlannerCostModelId,
    pub selective_l2_response_model: SelectiveL2ResponseModelId,
    pub selection_policy: SelectionPolicyId,
    pub recursive_split_search_policy: RecursiveSplitSearchPolicy,
    pub recursive_setup_search_policy: RecursiveSetupSearchPolicy,
    pub setup_field_budget: Option<usize>,
    pub min_offloaded_witness_contraction: usize,
    pub sis_modulus_profile: SisModulusProfileId,
    pub sis_security_policy: SisSecurityPolicyId,
    pub sis_table_digest: SisTableDigest,
    pub sis_l2_table_digest: SisL2TableDigest,
    pub decomposition: DecompositionParams,
    pub claim_ext_degree: usize,
    pub chal_ext_degree: usize,
    pub inner_basis_range: BasisRange,
    pub opening_basis_range: BasisRange,
    /// How the witness is cut into chunks: a chunked catalog never stands for
    /// an unchunked one.
    pub witness_chunk: ChunkedWitnessCfg,
    pub recursive_setup_planning: bool,
    pub ring_dimension_schedule_mode: RingDimensionScheduleMode,
    pub ring_dimensions: Vec<usize>,
    pub ring_challenge_config_digest: u64,
    pub key_count: usize,
    pub key_digest: u64,
}

/// A catalog: its rows in key order and what it was generated under.
#[derive(Clone, Debug)]
pub struct GeneratedScheduleTable {
    pub entries: Vec<GeneratedFoldScheduleEntry>,
    pub identity: GeneratedScheduleCatalogIdentity,
}

// ---------------------------------------------------------------------------
// The order of keys
// ---------------------------------------------------------------------------

/// The outcome of a comparison.
#[derive(Clone, Copy, Debug, PartialEq, Eq, Structural)]
pub enum KeyOrder {
    Less,
    Equal,
    Greater,
}

impl KeyOrder {
    /// The outcome with the arguments exchanged.
    pub open spec fn flip(self) -> KeyOrder {
        match self {
            KeyOrder::Less => KeyOrder::Greater,
            KeyOrder::Equal => KeyOrder::Equal,
            KeyOrder::Greater => KeyOrder::Less,
        }
    }

    /// This outcome, or the next one where this is a tie.
    pub open spec fn or_else(self, next: KeyOrder) -> KeyOrder {
        if self == KeyOrder::Equal {
            next
        } else {
            self
        }
    }
}

/// The order of integers.
pub open spec fn int_order(a: int, b: int) -> KeyOrder {
    if a < b {
        KeyOrder::Less
    } else if a == b {
        KeyOrder::Equal
    } else {
        KeyOrder::Greater
    }
}

/// The lexicographic order of byte strings.
pub open spec fn bytes_order(a: Seq<u8>, b: Seq<u8>) -> KeyOrder
    decreases a.len(),
{
    if a.len() == 0 || b.len() == 0 {
        int_order(a.len() as int, b.len() as int)
    } else {
        int_order(a[0] as int, b[0] as int).or_else(bytes_order(a.drop_first(), b.drop_first()))
    }
}

/// The lexicographic order of lists of profiles by their descriptors.
pub open spec fn profiles_order(
    a: Seq<GroupCommitPhaseParams>,
    b: Seq<GroupCommitPhaseParams>,
) -> KeyOrder
    decreases a.len(),
{
    if a.len() == 0 || b.len() == 0 {
        int_order(a.len() as int, b.len() as int)
    } else {
        bytes_order(
            descriptor::descriptor_bytes(a[0]),
            descriptor::descriptor_bytes(b[0]),
        ).or_else(profiles_order(a.drop_first(), b.drop_first()))
    }
}

/// The order of keys: number of variables, number of polynomials, number of
/// precommitted groups, and then the groups one by one.
pub open spec fn key_order(
    ga: PolynomialGroupLayout,
    pa: Seq<GroupCommitPhaseParams>,
    gb: PolynomialGroupLayout,
    pb: Seq<GroupCommitPhaseParams>,
) -> KeyOrder {
    int_order(ga.num_vars as int, gb.num_vars as int).or_else(
        int_order(ga.num_polynomials as int, gb.num_polynomials as int),
    ).or_else(int_order(pa.len() as int, pb.len() as int)).or_else(profiles_order(pa, pb))
}

/// The profiles of a row's precommitted groups.
pub open spec fn row_profiles(row: GeneratedFoldScheduleEntry) -> Seq<GroupCommitPhaseParams> {
    row.root.precommitted_groups@.map_values(|g: GeneratedPrecommittedGroup| g.group.profile)
}

/// The order of a row against a key.
pub open spec fn row_order(
    row: GeneratedFoldScheduleEntry,
    key: AkitaScheduleLookupKey,
) -> KeyOrder {
    key_order(row.final_group, row_profiles(row), key.final_group, key.precommitteds@)
}

/// The order of two rows.
pub open spec fn rows_order(
    a: GeneratedFoldScheduleEntry,
    b: GeneratedFoldScheduleEntry,
) -> KeyOrder {
    key_order(a.final_group, row_profiles(a), b.final_group, row_profiles(b))
}

/// Whether a row has the given key.
pub open spec fn row_has_key(
    row: GeneratedFoldScheduleEntry,
    key: AkitaScheduleLookupKey,
) -> bool {
    row.final_group == key.final_group && row_profiles(row) == key.precommitteds@
}

/// Whether rows stand in key order.
pub open spec fn rows_sorted(rows: Seq<GeneratedFoldScheduleEntry>) -> bool {
    forall|i: int, j: int|
        0 <= i < j < rows.len() ==> rows_order(#[trigger] rows[i], #[trigger] rows[j])
            != KeyOrder::Greater
}

// ---------------------------------------------------------------------------
// Laws of the order
// ---------------------------------------------------------------------------

proof fn lemma_bytes_order_flip(a: Seq<u8>, b: Seq<u8>)
    ensures
        bytes_order(b, a) == bytes_order(a, b).flip(),
    decreases a.len(),
{
    if a.len() > 0 && b.len() > 0 {
        lemma_bytes_order_flip(a.drop_first(), b.drop_first());
    }
}

proof fn lemma_bytes_order_equal(a: Seq<u8>, b: Seq<u8>)
    ensures
        bytes_order(a, b) == KeyOrder::Equal <==> a == b,
    decreases a.len(),
{
    if a.len() > 0 && b.len() > 0 {
        lemma_bytes_order_equal(a.drop_first(), b.drop_first());
        if a[0] == b[0] && a.drop_first() == b.drop_first() {
            assert(a =~= seq![a[0]] + a.drop_first());
            assert(b =~= seq![b[0]] + b.drop_first());
        }
    } else if a.len() == b.len() {
        assert(a =~= b);
    }
}

proof fn lemma_bytes_order_transitive(a: Seq<u8>, b: Seq<u8>, c: Seq<u8>)
    requires
        bytes_order(a, b) != KeyOrder::Greater,
        bytes_order(b, c) != KeyOrder::Greater,
    ensures
        bytes_order(a, c) != KeyOrder::Greater,
        bytes_order(a, b) == KeyOrder::Less || bytes_order(b, c) == KeyOrder::Less ==> bytes_order(
            a,
            c,
        ) == KeyOrder::Less,
    decreases a.len(),
{
    if a.len() > 0 && b.len() > 0 && c.len() > 0 {
        if a[0] == b[0] && b[0] == c[0] {
            lemma_bytes_order_transitive(a.drop_first(), b.drop_first(), c.drop_first());
        }
    }
}

proof fn lemma_profiles_order_flip(a: Seq<GroupCommitPhaseParams>, b: Seq<GroupCommitPhaseParams>)
    ensures
        profiles_order(b, a) == profiles_order(a, b).flip(),
    decreases a.len(),
{
    if a.len() > 0 && b.len() > 0 {
        lemma_bytes_order_flip(
            descriptor::descriptor_bytes(a[0]),
            descriptor::descriptor_bytes(b[0]),
        );
        lemma_profiles_order_flip(a.drop_first(), b.drop_first());
    }
}

proof fn lemma_profiles_order_equal(
    a: Seq<GroupCommitPhaseParams>,
    b: Seq<GroupCommitPhaseParams>,
)
    ensures
        profiles_order(a, b) == KeyOrder::Equal <==> a == b,
    decreases a.len(),
{
    if a.len() > 0 && b.len() > 0 {
        let x = descriptor::descriptor_bytes(a[0]);
        let y = descriptor::descriptor_bytes(b[0]);
        lemma_bytes_order_equal(x, y);
        lemma_profiles_order_equal(a.drop_first(), b.drop_first());
        if x == y {
            descriptor::law_descriptor_injective(a[0], b[0]);
        }
        if a[0] == b[0] && a.drop_first() == b.drop_first() {
            assert(a =~= seq![a[0]] + a.drop_first());
            assert(b =~= seq![b[0]] + b.drop_first());
        }
    } else if a.len() == b.len() {
        assert(a =~= b);
    }
}

proof fn lemma_profiles_order_transitive(
    a: Seq<GroupCommitPhaseParams>,
    b: Seq<GroupCommitPhaseParams>,
    c: Seq<GroupCommitPhaseParams>,
)
    requires
        profiles_order(a, b) != KeyOrder::Greater,
        profiles_order(b, c) != KeyOrder::Greater,
    ensures
        profiles_order(a, c) != KeyOrder::Greater,
        profiles_order(a, b) == KeyOrder::Less || profiles_order(b, c) == KeyOrder::Less
            ==> profiles_order(a, c) == KeyOrder::Less,
    decreases a.len(),
{
    if a.len() > 0 && b.len() > 0 && c.len() > 0 {
        let x = descriptor::descriptor_bytes(a[0]);
        let y = descriptor::descriptor_bytes(b[0]);
        let z = descriptor::descriptor_bytes(c[0]);
        lemma_bytes_order_transitive(x, y, z);
        lemma_bytes_order_equal(x, y);
        lemma_bytes_order_equal(y, z);
        lemma_bytes_order_equal(x, z);
        if x == y && y == z {
            lemma_profiles_order_transitive(a.drop_first(), b.drop_first(), c.drop_first());
        }
    }
}

/// Exchanging two keys flips their order.
pub proof fn law_key_order_flips(
    ga: PolynomialGroupLayout,
    pa: Seq<GroupCommitPhaseParams>,
    gb: PolynomialGroupLayout,
    pb: Seq<GroupCommitPhaseParams>,
)
    ensures
        key_order(gb, pb, ga, pa) == key_order(ga, pa, gb, pb).flip(),
{
    lemma_profiles_order_flip(pa, pb);
}

/// Keys tie exactly when they are the same.
pub proof fn law_key_order_identifies(
    ga: PolynomialGroupLayout,
    pa: Seq<GroupCommitPhaseParams>,
    gb: PolynomialGroupLayout,
    pb: Seq<GroupCommitPhaseParams>,
)
    ensures
        key_order(ga, pa, gb, pb) == KeyOrder::Equal <==> ga == gb && pa == pb,
{
    lemma_profiles_order_equal(pa, pb);
}

/// The order of keys is transitive.
pub proof fn law_key_order_transitive(
    ga: PolynomialGroupLayout,
    pa: Seq<GroupCommitPhaseParams>,
    gb: PolynomialGroupLayout,
    pb: Seq<GroupCommitPhaseParams>,
    gc: PolynomialGroupLayout,
    pc: Seq<GroupCommitPhaseParams>,
)
    requires
        key_order(ga, pa, gb, pb) != KeyOrder::Greater,
        key_order(gb, pb, gc, pc) != KeyOrder::Greater,
    ensures
        key_order(ga, pa, gc, pc) != KeyOrder::Greater,
        key_order(ga, pa, gb, pb) == KeyOrder::Less || key_order(gb, pb, gc, pc) == KeyOrder::Less
            ==> key_order(ga, pa, gc, pc) == KeyOrder::Less,
{
    if ga.num_vars == gb.num_vars && gb.num_vars == gc.num_vars && ga.num_polynomials
        == gb.num_polynomials && gb.num_polynomials == gc.num_polynomials && pa.len() == pb.len()
        && pb.len() == pc.len() {
        lemma_profiles_order_transitive(pa, pb, pc);
    }
}

// ---------------------------------------------------------------------------
// Comparisons
// ---------------------------------------------------------------------------

fn order_usize(a: usize, b: usize) -> (r: KeyOrder)
    ensures
        r == int_order(a as int, b as int),
{
    if a < b {
        KeyOrder::Less
    } else if a == b {
        KeyOrder::Equal
    } else {
        KeyOrder::Greater
    }
}

fn order_bytes(a: &[u8], b: &[u8]) -> (r: KeyOrder)
    ensures
        r == bytes_order(a@, b@),
{
    let mut k: usize = 0;
    let ghost n = a@.len() as int;
    let ghost m = b@.len() as int;
    proof {
        assert(a@.subrange(0, n) =~= a@);
        assert(b@.subrange(0, m) =~= b@);
    }
    while k < a.len() && k < b.len()
        invariant
            k <= n,
            k <= m,
            n == a@.len(),
            m == b@.len(),
            bytes_order(a@, b@) == bytes_order(
                a@.subrange(k as int, n),
                b@.subrange(k as int, m),
            ),
        decreases n - k,
    {
        proof {
            assert(a@.subrange(k as int, n).drop_first() =~= a@.subrange(k + 1, n));
            assert(b@.subrange(k as int, m).drop_first() =~= b@.subrange(k + 1, m));
        }
        if a[k] < b[k] {
            return KeyOrder::Less;
        }
        if a[k] > b[k] {
            return KeyOrder::Greater;
        }
        k += 1;
    }
    order_usize(a.len() - k, b.len() - k)
}

/// The sort key of a precommitted group: its descriptor.
pub fn precommitted_group_sort_key(key: &GroupCommitPhaseParams) -> (r: Vec<u8>)
    ensures
        r@ == descriptor::descriptor_bytes(*key),
{
    key.canonical_descriptor_bytes()
}

fn order_profiles(a: &GroupCommitPhaseParams, b: &GroupCommitPhaseParams) -> (r: KeyOrder)
    ensures
        r == bytes_order(descriptor::descriptor_bytes(*a), descriptor::descriptor_bytes(*b)),
{
    let x = precommitted_group_sort_key(a);
    let y = precommitted_group_sort_key(b);
    order_bytes(x.as_slice(), y.as_slice())
}

fn order_profile_lists(a: &Vec<GroupCommitPhaseParams>, b: &Vec<GroupCommitPhaseParams>) -> (r:
    KeyOrder)
    ensures
        r == profiles_order(a@, b@),
{
    let mut k: usize = 0;
    let ghost n = a@.len() as int;
    let ghost m = b@.len() as int;
    proof {
        assert(a@.subrange(0, n) =~= a@);
        assert(b@.subrange(0, m) =~= b@);
    }
    while k < a.len() && k < b.len()
        invariant
            k <= n,
            k <= m,
            n == a@.len(),
            m == b@.len(),
            profiles_order(a@, b@) == profiles_order(
                a@.subrange(k as int, n),
                b@.subrange(k as int, m),
            ),
        decreases n - k,
    {
        proof {
            assert(a@.subrange(k as int, n).drop_first() =~= a@.subrange(k + 1, n));
            assert(b@.subrange(k as int, m).drop_first() =~= b@.subrange(k + 1, m));
        }
        let first = order_profiles(&a[k], &b[k]);
        match first {
            KeyOrder::Less => {
                return KeyOrder::Less;
            },
            KeyOrder::Greater => {
                return KeyOrder::Greater;
            },
            KeyOrder::Equal => {},
        }
        k += 1;
    }
    order_usize(a.len() - k, b.len() - k)
}

fn order_keys(a: &AkitaScheduleLookupKey, b: &AkitaScheduleLookupKey) -> (r: KeyOrder)
    ensures
        r == key_order(a.final_group, a.precommitteds@, b.final_group, b.precommitteds@),
{
    let vars = order_usize(a.final_group.num_vars(), b.final_group.num_vars());
    if vars != KeyOrder::Equal {
        return vars;
    }
    let polynomials = order_usize(
        a.final_group.num_polynomials(),
        b.final_group.num_polynomials(),
    );
    if polynomials != KeyOrder::Equal {
        return polynomials;
    }
    let groups = order_usize(a.precommitteds.len(), b.precommitteds.len());
    if groups != KeyOrder::Equal {
        return groups;
    }
    order_profile_lists(&a.precommitteds, &b.precommitteds)
}

impl GeneratedFoldScheduleEntry {
    /// The key that this row is found by.
    pub fn to_runtime_lookup_key(&self) -> (r: AkitaScheduleLookupKey)
        ensures
            r.final_group == self.final_group,
            r.precommitteds@ == row_profiles(*self),
    {
        let mut precommitteds: Vec<GroupCommitPhaseParams> = Vec::new();
        let ghost groups = self.root.precommitted_groups@;
        let mut k: usize = 0;
        while k < self.root.precommitted_groups.len()
            invariant
                k <= groups.len(),
                groups == self.root.precommitted_groups@,
                precommitteds@ == row_profiles(*self).take(k as int),
            decreases groups.len() - k,
        {
            precommitteds.push(self.root.precommitted_groups[k].group.profile);
            proof {
                assert(row_profiles(*self).take(k + 1) =~= row_profiles(*self).take(
                    k as int,
                ).push(groups[k as int].group.profile));
            }
            k += 1;
        }
        proof {
            assert(precommitteds@ =~= row_profiles(*self));
        }
        AkitaScheduleLookupKey { final_group: self.final_group, precommitteds }
    }

    /// The number of fold levels, counting the root and the terminal one.
    pub fn num_fold_levels(&self) -> (n: usize)
        requires
            self.recursive_folds@.len() + 2 <= usize::MAX,
        ensures
            n == self.recursive_folds@.len() + 2,
    {
        self.recursive_folds.len() + 2
    }

    /// Refuses a row whose final group holds no polynomial.
    pub fn validate(&self) -> (r: Result<(), AkitaError>)
        ensures
            match r {
                Ok(()) => self.final_group.num_polynomials != 0,
                Err(e) => self.final_group.num_polynomials == 0 && e.is_unsupported(
                    "generated root final group must be nonempty"@,
                ),
            },
    {
        if self.final_group.num_polynomials() == 0 {
            return Err(AkitaError::unsupported("generated root final group must be nonempty"));
        }
        Ok(())
    }
}

/// The standard ordering of an outcome.
pub open spec fn std_order(o: KeyOrder) -> Ordering {
    match o {
        KeyOrder::Less => Ordering::Less,
        KeyOrder::Equal => Ordering::Equal,
        KeyOrder::Greater => Ordering::Greater,
    }
}

fn to_std(o: KeyOrder) -> (r: Ordering)
    ensures
        r == std_order(o),
{
    match o {
        KeyOrder::Less => Ordering::Less,
        KeyOrder::Equal => Ordering::Equal,
        KeyOrder::Greater => Ordering::Greater,
    }
}

/// The order of two rows.
pub fn generated_schedule_key_cmp(
    left: &GeneratedFoldScheduleEntry,
    right: &GeneratedFoldScheduleEntry,
) -> (r: Ordering)
    ensures
        r == std_order(rows_order(*left, *right)),
{
    to_std(order_keys(&left.to_runtime_lookup_key(), &right.to_runtime_lookup_key()))
}

/// The order of a row against a key.
pub fn generated_schedule_key_cmp_runtime(
    generated: &GeneratedFoldScheduleEntry,
    runtime: &AkitaScheduleLookupKey,
) -> (r: Ordering)
    ensures
        r == std_order(row_order(*generated, *runtime)),
{
    to_std(order_keys(&generated.to_runtime_lookup_key(), runtime))
}

/// The order of two keys, which is that of the rows they belong to.
pub fn runtime_schedule_key_cmp(
    left: &AkitaScheduleLookupKey,
    right: &AkitaScheduleLookupKey,
) -> (r: Ordering)
    ensures
        r == std_order(
            key_order(
                left.final_group,
                left.precommitteds@,
                right.final_group,
                right.precommitteds@,
            ),
        ),
{
    to_std(order_keys(left, right))
}

/// Whether a precommitted group is the one a key asks for.
pub fn precommitted_group_key_eq(
    generated: &GroupCommitPhaseParams,
    layout: &GroupCommitPhaseParams,
) -> (b: bool)
    ensures
        b == (*generated == *layout),
{
    *generated == *layout
}

/// Whether a row has the given key.
pub fn schedule_key_eq(
    generated: &GeneratedFoldScheduleEntry,
    key: &AkitaScheduleLookupKey,
) -> (b: bool)
    ensures
        b == row_has_key(*generated, *key),
{
    let ghost profiles = row_profiles(*generated);
    if generated.final_group != key.final_group {
        return false;
    }
    if generated.root.precommitted_groups.len() != key.precommitteds.len() {
        assert(profiles.len() != key.precommitteds@.len());
        return false;
    }
    let mut k: usize = 0;
    while k < key.precommitteds.len()
        invariant
            k <= key.precommitteds@.len(),
            profiles == row_profiles(*generated),
            generated.root.precommitted_groups@.len() == key.precommitteds@.len(),
            forall|i: int| 0 <= i < k ==> profiles[i] == key.precommitteds@[i],
        decreases key.precommitteds@.len() - k,
    {
        if !precommitted_group_key_eq(
            &generated.root.precommitted_groups[k].group.profile,
            &key.precommitteds[k],
        ) {
            assert(profiles[k as int] != key.precommitteds@[k as int]);
            return false;
        }
        k += 1;
    }
    assert(profiles =~= key.precommitteds@);
    true
}

/// Refuses a row that does not have the given key.
pub fn validate_entry_key(
    generated: &GeneratedFoldScheduleEntry,
    key: &AkitaScheduleLookupKey,
) -> (r: Result<(), AkitaError>)
    ensures
        match r {
            Ok(()) => row_has_key(*generated, *key),
            Err(e) => !row_has_key(*generated, *key) && e.is_setup(
                "generated schedule key mismatch"@,
            ),
        },
{
    if schedule_key_eq(generated, key) {
        Ok(())
    } else {
        Err(AkitaError::setup("generated schedule key mismatch"))
    }
}

// ---------------------------------------------------------------------------
// Lookup
// ---------------------------------------------------------------------------

/// Whether rows stand in key order.
pub fn catalog_entries_sorted_for_lookup(entries: &[GeneratedFoldScheduleEntry]) -> (b: bool)
    ensures
        b == rows_sorted(entries@),
{
    if entries.len() < 2 {
        return true;
    }
    let mut k: usize = 1;
    while k < entries.len()
        invariant
            1 <= k <= entries@.len(),
            rows_sorted(entries@.take(k as int)),
        decreases entries@.len() - k,
    {
        let previous = entries[k - 1].to_runtime_lookup_key();
        let current = entries[k].to_runtime_lookup_key();
        let order = order_keys(&previous, &current);
        if order == KeyOrder::Greater {
            assert(rows_order(entries@[k - 1], entries@[k as int]) == KeyOrder::Greater);
            return false;
        }
        proof {
            let short = entries@.take(k as int);
            let long = entries@.take(k + 1);
            assert forall|i: int, j: int| 0 <= i < j < long.len() implies rows_order(
                #[trigger] long[i],
                #[trigger] long[j],
            ) != KeyOrder::Greater by {
                if j < k {
                    assert(long[i] == short[i] && long[j] == short[j]);
                } else if i < k - 1 {
                    assert(rows_order(short[i], short[k - 1]) != KeyOrder::Greater);
                    law_key_order_transitive(
                        long[i].final_group,
                        row_profiles(long[i]),
                        long[k - 1].final_group,
                        row_profiles(long[k - 1]),
                        long[j].final_group,
                        row_profiles(long[j]),
                    );
                }
            }
        }
        k += 1;
    }
    assert(entries@.take(k as int) =~= entries@);
    true
}

/// The number of leading rows below the key, or not above it.
fn partition(entries: &Vec<GeneratedFoldScheduleEntry>, key: &AkitaScheduleLookupKey, ties: bool)
    -> (r: usize)
    ensures
        r <= entries@.len(),
        rows_sorted(entries@) ==> forall|i: int|
            0 <= i < entries@.len() ==> (i < r <==> (row_order(#[trigger] entries@[i], *key)
                == KeyOrder::Less || (ties && row_order(entries@[i], *key) == KeyOrder::Equal))),
{
    let mut low: usize = 0;
    let mut high: usize = entries.len();
    while low < high
        invariant
            low <= high <= entries@.len(),
            rows_sorted(entries@) ==> forall|i: int|
                0 <= i < low ==> (row_order(#[trigger] entries@[i], *key) == KeyOrder::Less || (ties
                    && row_order(entries@[i], *key) == KeyOrder::Equal)),
            rows_sorted(entries@) ==> forall|i: int|
                high <= i < entries@.len() ==> !(row_order(#[trigger] entries@[i], *key)
                    == KeyOrder::Less || (ties && row_order(entries@[i], *key)
                    == KeyOrder::Equal)),
        decreases high - low,
    {
        let mid: usize = low + (high - low) / 2;
        let row = entries[mid].to_runtime_lookup_key();
        let order = order_keys(&row, key);
        let below = order == KeyOrder::Less || (ties && order == KeyOrder::Equal);
        proof {
            if rows_sorted(entries@) {
                assert forall|i: int| 0 <= i < entries@.len() && i != mid implies (i < mid && below
                    ==> (row_order(#[trigger] entries@[i], *key) == KeyOrder::Less || (ties
                    && row_order(entries@[i], *key) == KeyOrder::Equal))) && (i > mid && !below
                    ==> !(row_order(entries@[i], *key) == KeyOrder::Less || (ties && row_order(
                    entries@[i],
                    *key,
                ) == KeyOrder::Equal))) by {
                    let e = entries@[i];
                    let m = entries@[mid as int];
                    let (ge, pe) = (e.final_group, row_profiles(e));
                    let (gm, pm) = (m.final_group, row_profiles(m));
                    let (gk, pk) = (key.final_group, key.precommitteds@);
                    if i < mid {
                        assert(rows_order(e, m) != KeyOrder::Greater);
                        if below {
                            law_key_order_transitive(ge, pe, gm, pm, gk, pk);
                        }
                    } else {
                        assert(rows_order(m, e) != KeyOrder::Greater);
                        if !below {
                            law_key_order_flips(gm, pm, gk, pk);
                            law_key_order_flips(ge, pe, gk, pk);
                            law_key_order_transitive(gk, pk, gm, pm, ge, pe);
                        }
                    }
                }
            }
        }
        if below {
            low = mid + 1;
        } else {
            high = mid;
        }
    }
    low
}

/// The positions of the rows with the given key. In a catalog in key order
/// they are exactly the positions of the range; otherwise the range is some
/// pair of positions.
pub fn table_entry_range(
    table: &GeneratedScheduleTable,
    key: &AkitaScheduleLookupKey,
) -> (r: core::ops::Range<usize>)
    ensures
        r.start <= table.entries@.len(),
        r.end <= table.entries@.len(),
        rows_sorted(table.entries@) ==> r.start <= r.end,
        rows_sorted(table.entries@) ==> forall|i: int|
            0 <= i < table.entries@.len() ==> (r.start <= i < r.end <==> row_has_key(
                #[trigger] table.entries@[i],
                *key,
            )),
{
    let start: usize = partition(&table.entries, key, false);
    let end: usize = partition(&table.entries, key, true);
    proof {
        if rows_sorted(table.entries@) {
            if start > end {
                let e = table.entries@[end as int];
                assert(row_order(e, *key) == KeyOrder::Less);
            }
            assert forall|i: int| 0 <= i < table.entries@.len() implies (start <= i < end
                <==> row_has_key(#[trigger] table.entries@[i], *key)) by {
                let e = table.entries@[i];
                law_key_order_identifies(
                    e.final_group,
                    row_profiles(e),
                    key.final_group,
                    key.precommitteds@,
                );
            }
        }
    }
    start..end
}

/// The first row with the given key, in a catalog in key order.
pub fn table_entry<'a>(
    table: &'a GeneratedScheduleTable,
    key: &AkitaScheduleLookupKey,
) -> (r: Option<&'a GeneratedFoldScheduleEntry>)
    ensures
        rows_sorted(table.entries@) ==> match r {
            Some(row) => row_has_key(*row, *key) && exists|i: int|
                0 <= i < table.entries@.len() && #[trigger] table.entries@[i] == *row && forall|
                    j: int,
                |
                    0 <= j < i ==> !row_has_key(#[trigger] table.entries@[j], *key),
            None => forall|i: int|
                0 <= i < table.entries@.len() ==> !row_has_key(#[trigger] table.entries@[i], *key),
        },
        r matches Some(row) ==> table.entries@.contains(*row),
{
    let range = table_entry_range(table, key);
    if range.start >= range.end {
        None
    } else {
        proof {
            assert(row_has_key(table.entries@[range.start as int], *key) || !rows_sorted(
                table.entries@,
            ));
        }
        Some(&table.entries[range.start])
    }
}

// ---------------------------------------------------------------------------
// What the order goes by
// ---------------------------------------------------------------------------

/// Byte strings are ordered by the first byte at which they differ, and a string
/// comes before those that it is a proper beginning of.
pub proof fn law_bytes_are_ordered_by_their_first_difference(a: Seq<u8>, b: Seq<u8>, i: int)
    requires
        0 <= i <= a.len(),
        i <= b.len(),
        forall|j: int| 0 <= j < i ==> #[trigger] a[j] == b[j],
    ensures
        i < a.len() && i < b.len() && a[i] < b[i] ==> bytes_order(a, b) == KeyOrder::Less,
        i < a.len() && i < b.len() && a[i] > b[i] ==> bytes_order(a, b) == KeyOrder::Greater,
        i == a.len() && i < b.len() ==> bytes_order(a, b) == KeyOrder::Less,
        i < a.len() && i == b.len() ==> bytes_order(a, b) == KeyOrder::Greater,
        i == a.len() && i == b.len() ==> bytes_order(a, b) == KeyOrder::Equal,
    decreases i,
{
    if i > 0 {
        assert(a[0] == b[0]);
        assert forall|j: int| 0 <= j < i - 1 implies #[trigger] a.drop_first()[j]
            == b.drop_first()[j] by {
            assert(a[j + 1] == b[j + 1]);
        }
        law_bytes_are_ordered_by_their_first_difference(a.drop_first(), b.drop_first(), i - 1);
    }
}

/// Lists of profiles are ordered by the descriptors of the first profiles that
/// differ.
pub proof fn law_profiles_are_ordered_by_their_first_difference(
    a: Seq<GroupCommitPhaseParams>,
    b: Seq<GroupCommitPhaseParams>,
    i: int,
)
    requires
        0 <= i < a.len(),
        i < b.len(),
        forall|j: int| 0 <= j < i ==> #[trigger] a[j] == b[j],
        a[i] != b[i],
    ensures
        profiles_order(a, b) == bytes_order(
            descriptor::descriptor_bytes(a[i]),
            descriptor::descriptor_bytes(b[i]),
        ),
        profiles_order(a, b) != KeyOrder::Equal,
    decreases i,
{
    let (x, y) = (descriptor::descriptor_bytes(a[0]), descriptor::descriptor_bytes(b[0]));
    if i > 0 {
        assert(a[0] == b[0]);
        law_bytes_are_ordered_by_their_first_difference(x, y, x.len() as int);
        assert forall|j: int| 0 <= j < i - 1 implies #[trigger] a.drop_first()[j]
            == b.drop_first()[j] by {
            assert(a[j + 1] == b[j + 1]);
        }
        law_profiles_are_ordered_by_their_first_difference(
            a.drop_first(),
            b.drop_first(),
            i - 1,
        );
    } else {
        if bytes_order(x, y) == KeyOrder::Equal {
            lemma_bytes_order_equal(x, y);
            descriptor::law_descriptor_injective(a[0], b[0]);
        }
    }
}

/// Keys are ordered by their numbers of variables, then by their numbers of
/// polynomials, then by how many groups are precommitted, and then by those.
pub proof fn law_keys_are_ordered_by_their_layout_first(
    ga: PolynomialGroupLayout,
    pa: Seq<GroupCommitPhaseParams>,
    gb: PolynomialGroupLayout,
    pb: Seq<GroupCommitPhaseParams>,
)
    ensures
        ga.num_vars < gb.num_vars ==> key_order(ga, pa, gb, pb) == KeyOrder::Less,
        ga.num_vars == gb.num_vars && ga.num_polynomials < gb.num_polynomials ==> key_order(
            ga,
            pa,
            gb,
            pb,
        ) == KeyOrder::Less,
        ga == gb && pa.len() < pb.len() ==> key_order(ga, pa, gb, pb) == KeyOrder::Less,
        ga == gb && pa.len() == pb.len() ==> key_order(ga, pa, gb, pb) == profiles_order(pa, pb),
{
}

/// A row has a key exactly when it has its layout and, one by one, the profiles
/// of its precommitted groups.
pub proof fn law_rows_have_keys_by_their_groups(
    row: GeneratedFoldScheduleEntry,
    key: AkitaScheduleLookupKey,
)
    ensures
        row_has_key(row, key) <==> {
            let groups = row.root.precommitted_groups@;
            &&& row.final_group == key.final_group
            &&& groups.len() == key.precommitteds@.len()
            &&& forall|i: int|
                0 <= i < groups.len() ==> (#[trigger] groups[i]).group.profile
                    == key.precommitteds@[i]
        },
        row_has_key(row, key) ==> row_order(row, key) == KeyOrder::Equal,
{
    let groups = row.root.precommitted_groups@;
    let profiles = row_profiles(row);
    if row_has_key(row, key) {
        assert forall|i: int| 0 <= i < groups.len() implies (#[trigger] groups[i]).group.profile
            == key.precommitteds@[i] by {
            assert(profiles[i] == groups[i].group.profile);
        }
        law_key_order_identifies(row.final_group, profiles, key.final_group, key.precommitteds@);
    }
    if row.final_group == key.final_group && groups.len() == key.precommitteds@.len() && (forall|
        i: int,
    |
        0 <= i < groups.len() ==> (#[trigger] groups[i]).group.profile == key.precommitteds@[i]) {
        assert forall|i: int| 0 <= i < profiles.len() implies #[trigger] profiles[i]
            == key.precommitteds@[i] by {
            assert(groups[i].group.profile == key.precommitteds@[i]);
        }
        assert(profiles =~= key.precommitteds@);
    }
}

} // verus!
