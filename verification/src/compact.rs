//! Expanded schedules written back as compact rows.
//!
//! A row keeps what the planner chose: geometry, ring dimensions, bases and the
//! few digit counts that expansion cannot derive.

use crate::error;
use crate::expand;
use crate::expand::{Derivation, TerminalDerivation};
use crate::generated::{
    EntryModel, GeneratedFoldCore, GeneratedFoldScheduleEntry, GeneratedFrozenGroup, GeneratedGroup,
    GeneratedMatrix, GeneratedPrecommittedGroup, GeneratedRecursiveFold, GeneratedRootFold,
    GeneratedSetupPrefix, GeneratedTerminalFold, RootFoldModel,
};
use crate::params::{
    AkitaScheduleLookupKey, BlockGeometry, CommitmentPayloadMode, GroupCommitPhaseParams,
    GroupOpenPhaseParams, InnerCommitMatrixParams, InnerCommitSecurityRoute,
    OpenCommitMatrixParams,
};
use crate::rules::{
    CommittedGroupModel, CommittedGroupParams, ParameterRules, TailSegmentGroupLayout,
    TerminalFoldParams,
};
use crate::walk;
use crate::walk::{FoldStep, PlannedFoldSchedule, ScheduleRules, Walk};
use vstd::prelude::*;

verus! {

// ---------------------------------------------------------------------------
// What a compact row keeps
// ---------------------------------------------------------------------------

/// The own group of a fold.
pub open spec fn group_of(own: GroupOpenPhaseParams) -> GeneratedGroup {
    GeneratedGroup {
        geometry: own.profile.blocks,
        inner_commit_matrix: GeneratedMatrix {
            ring_dimension: own.profile.inner.matrix.ring_dimension,
            log_basis: own.profile.inner.digits.log_basis,
        },
        outer_commit_matrix: GeneratedMatrix {
            ring_dimension: own.profile.outer.matrix.key.ring_dimension,
            log_basis: own.profile.outer.digits.log_basis,
        },
        outer_slice_count: own.profile.outer_slice_count.count() as u32,
        num_digits_fold: own.opening.num_digits_fold as u32,
        opening_method: own.opening.opening_method,
    }
}

/// A frozen group: its profile and how it is opened.
pub open spec fn frozen_of(slot: GroupOpenPhaseParams) -> GeneratedFrozenGroup {
    GeneratedFrozenGroup {
        profile: slot.profile,
        opening_method: slot.opening.opening_method,
        num_digits_fold: slot.opening.num_digits_fold as u32,
    }
}

/// A setup prefix, where it has a natural length.
pub open spec fn prefix_of(slot: GroupOpenPhaseParams) -> Option<GeneratedSetupPrefix> {
    match slot.setup_natural_len {
        Some(natural_len) => Some(
            GeneratedSetupPrefix { group: frozen_of(slot), natural_len: natural_len as u64 },
        ),
        None => None,
    }
}

/// What every fold but the terminal one keeps.
pub open spec fn core_of(p: CommittedGroupModel) -> GeneratedFoldCore {
    GeneratedFoldCore {
        group: group_of(p.own),
        open_commit_matrix: GeneratedMatrix {
            ring_dimension: p.open_matrix.key.ring_dimension,
            log_basis: p.own.opening.log_basis_open,
        },
        witness_chunks: p.witness_chunk.num_chunks as u32,
        ring_relation_mode: p.ring_relation_mode,
    }
}

/// Whether a fold can stand as a recursive fold of a row.
pub open spec fn recursive_fits(p: CommittedGroupModel) -> bool {
    &&& p.precommitted_groups.len() == 0
    &&& p.setup_prefix matches Some(slot) ==> slot.setup_natural_len is Some
}

/// A recursive fold.
pub open spec fn recursive_of(p: CommittedGroupModel) -> GeneratedRecursiveFold {
    GeneratedRecursiveFold {
        core: core_of(p),
        setup_prefix: match p.setup_prefix {
            Some(slot) => prefix_of(slot),
            None => None,
        },
        payload_mode: p.payload_mode,
        response_l2_sq_cap: p.own.profile.inner.matrix.l2_cap(),
    }
}

/// Why a fold cannot stand as a recursive fold of a row.
pub open spec fn recursive_refusal(p: CommittedGroupModel) -> Seq<char> {
    if p.precommitted_groups.len() != 0 {
        "generated recursive fold cannot carry precommitted groups"@
    } else {
        "generated setup prefix must carry a natural length"@
    }
}

/// The precommitted groups of a row: the profiles of the key, opened as the
/// root fold opens them.
pub open spec fn precommitted_of(
    profiles: Seq<GroupCommitPhaseParams>,
    groups: Seq<GroupOpenPhaseParams>,
) -> Seq<GeneratedPrecommittedGroup> {
    Seq::new(
        if profiles.len() <= groups.len() {
            profiles.len()
        } else {
            groups.len()
        },
        |i: int|
            GeneratedPrecommittedGroup {
                group: GeneratedFrozenGroup {
                    profile: profiles[i],
                    opening_method: groups[i].opening.opening_method,
                    num_digits_fold: groups[i].opening.num_digits_fold as u32,
                },
            },
    )
}

/// The recursive folds of a row.
pub open spec fn folds_of(steps: Seq<FoldStep>) -> Seq<GeneratedRecursiveFold> {
    steps.map_values(|step: FoldStep| recursive_of(step.params@))
}

/// The position of the first fold that cannot stand in a row, or the number of
/// folds.
pub open spec fn first_unfit(steps: Seq<FoldStep>) -> nat
    decreases steps.len(),
{
    if steps.len() == 0 || !recursive_fits(steps[0].params@) {
        0
    } else {
        1 + first_unfit(steps.drop_first())
    }
}

/// The bound on an inner matrix's coefficients, or zero where it is bounded in
/// Euclidean norm.
pub open spec fn linf_bound_of(m: InnerCommitMatrixParams) -> u128 {
    match m.route {
        InnerCommitSecurityRoute::Linf(key) => key.coeff_linf_bound,
        InnerCommitSecurityRoute::L2 { .. } => 0,
    }
}

/// The terminal fold.
pub open spec fn terminal_of(
    p: TerminalFoldParams,
    group: TailSegmentGroupLayout,
) -> GeneratedTerminalFold {
    GeneratedTerminalFold {
        geometry: p.blocks,
        inner_commit_matrix: GeneratedMatrix {
            ring_dimension: p.inner.matrix.ring_dimension,
            log_basis: p.inner.digits.log_basis,
        },
        num_digits_inner: p.inner.digits.num_digits as u32,
        fold_log_basis: p.fold.log_basis,
        fold_digit_count: p.fold.num_digits as u32,
        inner_output_rank: p.inner.matrix.output_rank as u32,
        inner_coeff_linf_bound: linf_bound_of(p.inner.matrix),
        response_l2_sq_cap: p.inner.matrix.l2_cap(),
        z_linf_cap: group.z_linf_cap,
        z_rice_low_bits: group.z_rice_low_bits,
        z_payload_bytes: group.z_payload_bytes as u64,
    }
}

/// Whether a root fold takes the one route that rows keep nothing of.
pub open spec fn root_is_canonical(p: CommittedGroupModel) -> bool {
    &&& p.payload_mode == CommitmentPayloadMode::Compressed
    &&& p.own.profile.inner.matrix.l2_cap() is None
}

/// Why a schedule has no row; `None` where it has one. The folds are looked at
/// first, then the terminal response, and the root last.
pub open spec fn refusal(s: PlannedFoldSchedule) -> Option<Seq<char>> {
    let at = first_unfit(s.recursive_folds@);
    let responses = s.terminal.response_shape.groups@.len();
    if at < s.recursive_folds@.len() {
        Some(recursive_refusal(s.recursive_folds@[at as int].params@))
    } else if responses == 0 {
        Some("terminal response shape has no group"@)
    } else if responses != 1 {
        Some("generated scalar terminal response must have exactly one group"@)
    } else if s.root.params.setup_prefix is Some {
        Some("generated root fold cannot carry a setup prefix"@)
    } else if !root_is_canonical(s.root.params@) {
        Some("generated root fold must use the canonical compressed Linf route"@)
    } else {
        None
    }
}

/// Whether a row is the one of a key and a schedule.
pub open spec fn row_of(
    row: GeneratedFoldScheduleEntry,
    key: AkitaScheduleLookupKey,
    s: PlannedFoldSchedule,
) -> bool {
    &&& row.final_group == key.final_group
    &&& row.root.core == core_of(s.root.params@)
    &&& row.root.num_digits_inner == s.root.params.own.profile.inner.digits.num_digits as u32
    &&& row.root.precommitted_groups@ == precommitted_of(
        key.precommitteds@,
        s.root.params.precommitted_groups@,
    )
    &&& row.recursive_folds@ == folds_of(s.recursive_folds@)
    &&& row.terminal == terminal_of(s.terminal.params, s.terminal.response_shape.groups@[0])
}

proof fn lemma_first_unfit(steps: Seq<FoldStep>, k: int)
    requires
        0 <= k <= steps.len(),
        forall|i: int| 0 <= i < k ==> recursive_fits((#[trigger] steps[i]).params@),
        k < steps.len() ==> !recursive_fits(steps[k].params@),
    ensures
        first_unfit(steps) == k,
    decreases steps.len(),
{
    if k > 0 {
        let rest = steps.drop_first();
        assert(recursive_fits(steps[0].params@));
        assert forall|i: int| 0 <= i < k - 1 implies recursive_fits(
            (#[trigger] rest[i]).params@,
        ) by {
            assert(rest[i] == steps[i + 1]);
        }
        if k < steps.len() {
            assert(rest[k - 1] == steps[k]);
        }
        lemma_first_unfit(rest, k - 1);
    }
}

// ---------------------------------------------------------------------------
// Laws
// ---------------------------------------------------------------------------

/// Expanding a fold and writing it back gives the row's own choices: its group,
/// its opening matrix and its relation mode. The row must store the length that
/// expansion derives, and a Euclidean inner matrix must be over the ring that
/// the row names.
pub proof fn law_compaction_inverts_expansion<R: ParameterRules>(d: Derivation<R>)
    requires
        d.admitted(),
        d.group.geometry.live_ring_elements_per_claim == d.live(),
        d.cap() is Some ==> (d.inner_matrix()->0).ring_dimension
            == d.group.inner_commit_matrix.ring_dimension,
    ensures
        core_of(d.params()).group == d.group,
        core_of(d.params()).open_commit_matrix == d.open,
        core_of(d.params()).ring_relation_mode == d.ring_relation_mode,
{
    assert(group_of(d.params().own).geometry == d.group.geometry);
}

/// Expanding a recursive fold and writing it back gives its payload mode and its
/// Euclidean cap.
pub proof fn law_compaction_keeps_the_route<R: ParameterRules>(d: Derivation<R>)
    requires
        d.admitted(),
    ensures
        recursive_of(d.params()).payload_mode == d.payload_mode,
        recursive_of(d.params()).response_l2_sq_cap == d.cap(),
{
}

/// Expanding a terminal fold and writing it back gives the fold. The row must
/// store no coefficient bound where it has a Euclidean cap, whose matrix must be
/// over the ring that the row names.
pub proof fn law_terminal_compaction_inverts_expansion<R: ParameterRules>(
    t: TerminalDerivation<R>,
    group: TailSegmentGroupLayout,
)
    requires
        t.admitted(),
        group.z_linf_cap == t.fold.z_linf_cap,
        group.z_rice_low_bits == t.fold.z_rice_low_bits,
        group.z_payload_bytes == t.fold.z_payload_bytes,
        t.fold.response_l2_sq_cap is Some ==> {
            &&& t.fold.inner_coeff_linf_bound == 0
            &&& (t.inner_matrix()->0).ring_dimension == t.fold.inner_commit_matrix.ring_dimension
        },
    ensures
        terminal_of(t.params(), group) == t.fold,
{
}

/// A group that stores the length which its expansion derives.
pub open spec fn settled<R: ParameterRules>(d: Derivation<R>) -> Derivation<R> {
    Derivation {
        group: GeneratedGroup {
            geometry: BlockGeometry {
                live_ring_elements_per_claim: d.live() as usize,
                ..d.group.geometry
            },
            ..d.group
        },
        ..d
    }
}

/// Whether the length that a grouped root stores encodes its source as the
/// length does that its expansion derives.
pub open spec fn encoding_kept<R: ParameterRules>(d: Derivation<R>) -> bool {
    settled(d).params().source_encoding == d.params().source_encoding
}

/// Whether a Euclidean inner matrix is over the ring that the row names.
pub open spec fn ring_kept<R: ParameterRules>(d: Derivation<R>) -> bool {
    d.cap() is Some ==> (d.inner_matrix()->0).ring_dimension
        == d.group.inner_commit_matrix.ring_dimension
}

/// A terminal fold that stores no bound on coefficients beside a Euclidean cap.
pub open spec fn settled_terminal<R: ParameterRules>(t: TerminalDerivation<R>) -> TerminalDerivation<
    R,
> {
    TerminalDerivation {
        fold: GeneratedTerminalFold {
            inner_coeff_linf_bound: if t.fold.response_l2_sq_cap is Some {
                0
            } else {
                t.fold.inner_coeff_linf_bound
            },
            ..t.fold
        },
        ..t
    }
}

/// A group expands alike with the length that its expansion derives. For a group
/// whose length comes from a witness, the stored length plays no part.
pub proof fn law_settled_groups_expand_alike<R: ParameterRules>(d: Derivation<R>)
    requires
        d.admitted(),
        d.source is Pinned ==> encoding_kept(d),
    ensures
        settled(d).admitted(),
        settled(d).params() == d.params(),
        ring_kept(d) ==> core_of(d.params()).group == settled(d).group,
{
    let e = settled(d);
    assert(e.dims() == d.dims() && e.level() == d.level() && e.cap() == d.cap());
    assert(e.slices() == d.slices() && e.chunks() == d.chunks() && e.live() == d.live());
    assert(e.challenge() == d.challenge());
    assert(e.inner_digits() == d.inner_digits());
    assert(e.inner_width() == d.inner_width());
    assert(e.inner_norm() == d.inner_norm());
    assert(e.inner_key() == d.inner_key());
    assert(e.inner_rank() == d.inner_rank());
    assert(e.inner_matrix() == d.inner_matrix());
    assert(e.outer_norm() == d.outer_norm());
    assert(e.slice_request() == d.slice_request());
    assert(e.outer_width() == d.outer_width());
    assert(e.open_norm() == d.open_norm());
    assert(e.width_request() == d.width_request());
    assert(e.own_width() == d.own_width());
    assert(e.prefix() == d.prefix());
    assert(e.others_width() == d.others_width());
    assert(e.open_width() == d.open_width());
    assert(e.outer_key() == d.outer_key());
    assert(e.outer_rank() == d.outer_rank());
    assert(e.open_key() == d.open_key());
    assert(e.open_rank() == d.open_rank());
    assert(e.params().own == d.params().own);
    assert(e.params() == d.params());
}

/// A terminal fold expands alike without the bound that its cap makes idle.
pub proof fn law_settled_terminals_expand_alike<R: ParameterRules>(t: TerminalDerivation<R>)
    requires
        t.admitted(),
    ensures
        settled_terminal(t).admitted(),
        settled_terminal(t).params() == t.params(),
{
    let u = settled_terminal(t);
    assert(u.inner_width() == t.inner_width());
    assert(u.challenge() == t.challenge());
    assert(u.inner_matrix() == t.inner_matrix());
}

/// Whether a row stores what its expansion derives: the length of every fold
/// and, for every Euclidean route, the ring of its matrix and no bound on
/// coefficients.
pub open spec fn canonical<R: ScheduleRules>(w: Walk<R>) -> bool {
    &&& w.entry.root.core.group.geometry.live_ring_elements_per_claim == w.root_derivation().live()
    &&& forall|k: int|
        0 <= k < w.num_folds() ==> {
            let d = #[trigger] derivation_of(w, k);
            &&& d.group.geometry.live_ring_elements_per_claim == d.live()
            &&& ring_kept(d)
        }
    &&& w.entry.terminal.response_l2_sq_cap is Some ==> w.entry.terminal.inner_coeff_linf_bound == 0
    &&& terminal_ring_kept(w)
}

/// Whether a Euclidean terminal matrix is over the ring that the row names.
pub open spec fn terminal_ring_kept<R: ScheduleRules>(w: Walk<R>) -> bool {
    w.entry.terminal.response_l2_sq_cap is Some ==> (
    w.terminal_derivation().inner_matrix()->0).ring_dimension
        == w.entry.terminal.inner_commit_matrix.ring_dimension
}

/// Whether a row says all that its expansion depends on: a grouped root encodes
/// its source by the length that it stores as by the one that it derives, and
/// every Euclidean matrix is over the ring that the row names.
pub open spec fn restorable<R: ScheduleRules>(w: Walk<R>) -> bool {
    &&& w.grouped() ==> encoding_kept(w.root_derivation())
    &&& forall|k: int| 0 <= k < w.num_folds() ==> ring_kept(#[trigger] derivation_of(w, k))
    &&& terminal_ring_kept(w)
}

/// The derivation of a recursive fold on the witness that the level before
/// leaves.
pub open spec fn derivation_of<R: ScheduleRules>(w: Walk<R>, k: int) -> Derivation<R> {
    let input_len = w.all_levels()[k].output_len;
    w.fold_derivation(k, input_len, w.rules.opening_vars_of(input_len)->0)
}

/// A row whose folds are settled.
pub open spec fn settled_entry<R: ScheduleRules>(w: Walk<R>) -> EntryModel {
    EntryModel {
        final_group: w.entry.final_group,
        root: RootFoldModel {
            core: GeneratedFoldCore {
                group: settled(w.root_derivation()).group,
                ..w.entry.root.core
            },
            ..w.entry.root
        },
        recursive_folds: Seq::new(w.num_folds(), |k: int| settled_fold(w, k)),
        terminal: settled_terminal(w.terminal_derivation()).fold,
    }
}

pub open spec fn settled_fold<R: ScheduleRules>(w: Walk<R>, k: int) -> GeneratedRecursiveFold {
    let fold = w.entry.recursive_folds[k];
    GeneratedRecursiveFold {
        core: GeneratedFoldCore { group: settled(derivation_of(w, k)).group, ..fold.core },
        ..fold
    }
}

/// The walk of a row whose folds are settled.
pub open spec fn settled_walk<R: ScheduleRules>(w: Walk<R>) -> Walk<R> {
    Walk { entry: settled_entry(w), ..w }
}

/// A level of an expanded row comes from its fold.
proof fn lemma_level_of<R: ScheduleRules>(w: Walk<R>, i: int)
    requires
        w.expands(),
        0 <= i <= w.num_folds(),
    ensures
        w.all_levels().len() == w.num_folds() + 1,
        i == 0 ==> w.root_level() == Some(w.all_levels()[0]),
        i > 0 ==> w.fold_level(i - 1, w.all_levels()[i - 1].output_len) == Some(
            w.all_levels()[i],
        ),
{
    let n = w.num_folds();
    walk::lemma_levels_len(w, n);
    walk::lemma_levels_prefix(w, i as nat, n);
    walk::lemma_levels_len(w, i as nat);
    assert((w.all_levels().take(i + 1))[i] == w.all_levels()[i]);
    if i > 0 {
        walk::lemma_levels_prefix(w, (i - 1) as nat, n);
        walk::lemma_levels_len(w, (i - 1) as nat);
        assert(w.all_levels().take(i)[i - 1] == w.all_levels()[i - 1]);
    }
}

/// The root of a row is written back settled.
proof fn lemma_root_is_kept<R: ScheduleRules>(w: Walk<R>)
    requires
        w.expands(),
        restorable(w),
    ensures
        core_of(w.all_levels()[0].params) == settled_entry(w).root.core,
        w.all_levels()[0].params.own.profile.inner.digits.num_digits as u32
            == w.entry.root.num_digits_inner,
        precommitted_of(w.key.precommitteds@, w.all_levels()[0].params.precommitted_groups)
            == w.entry.root.precommitted_groups,
{
    reveal(Walk::root_level);
    let d = w.root_derivation();
    let groups = w.entry.root.precommitted_groups;
    let kept = precommitted_of(w.key.precommitteds@, w.all_levels()[0].params.precommitted_groups);
    lemma_level_of(w, 0);
    law_settled_groups_expand_alike(d);
    assert(w.profiles().len() == groups.len());
    assert forall|i: int| 0 <= i < groups.len() implies #[trigger] kept[i] == groups[i] by {
        assert(w.precommitted_opening(i) is Some);
        assert(w.profiles()[i] == groups[i].group.profile);
        expand::law_frozen_openings_keep_the_row(
            w.rules,
            w.policy,
            groups[i].group,
            None,
            w.entry.root.core.open_commit_matrix.log_basis,
            w.policy.witness_chunk.chunks_at(0) as usize,
        );
    }
    assert(kept =~= groups);
}

/// A recursive fold of a row is written back settled.
proof fn lemma_fold_is_kept<R: ScheduleRules>(w: Walk<R>, k: int)
    requires
        w.expands(),
        restorable(w),
        0 <= k < w.num_folds(),
    ensures
        recursive_of(w.all_levels()[k + 1].params) == settled_fold(w, k),
{
    reveal(Walk::fold_level);
    let d = derivation_of(w, k);
    let fold = w.entry.recursive_folds[k];
    lemma_level_of(w, k + 1);
    assert(ring_kept(derivation_of(w, k)));
    law_settled_groups_expand_alike(d);
    law_compaction_keeps_the_route(d);
    if let Some(prefix) = fold.setup_prefix {
        expand::law_prefix_openings_keep_the_row(
            w.rules,
            w.policy,
            prefix,
            fold.core.open_commit_matrix.log_basis,
            d.chunks(),
        );
    }
}

/// Settled folds are chunked as the folds are.
proof fn lemma_settled_chunks<R: ScheduleRules>(w: Walk<R>)
    ensures
        settled_walk(w).activated() == w.activated(),
{
    assert(walk::fold_chunks(settled_entry(w).recursive_folds) =~= walk::fold_chunks(
        w.entry.recursive_folds,
    ));
}

/// A settled root is the root.
proof fn lemma_settled_root<R: ScheduleRules>(w: Walk<R>)
    requires
        w.expands(),
        restorable(w),
    ensures
        settled_walk(w).key_fits(),
        settled_walk(w).precommitted_fit(),
        settled_walk(w).root_level() == w.root_level(),
{
    reveal(Walk::root_level);
    let v = settled_walk(w);
    lemma_level_of(w, 0);
    lemma_settled_chunks(w);
    assert(v.profiles() =~= w.profiles());
    assert forall|i: int| #[trigger] v.precommitted_opening(i) == w.precommitted_opening(i) by {}
    assert(v.precommitted_openings() =~= w.precommitted_openings());
    assert(v.root_derivation() == settled(w.root_derivation()));
    law_settled_groups_expand_alike(w.root_derivation());
    if w.grouped() {
        assert forall|i: int| 0 <= i < v.entry.root.precommitted_groups.len() implies
            #[trigger] v.precommitted_opening(i) is Some by {
            assert(w.precommitted_opening(i) is Some);
        }
    }
}

/// A settled fold is the fold.
proof fn lemma_settled_fold<R: ScheduleRules>(w: Walk<R>, k: int)
    requires
        w.expands(),
        restorable(w),
        0 <= k < w.num_folds(),
    ensures
        settled_walk(w).fold_level(k, w.all_levels()[k].output_len) == w.fold_level(
            k,
            w.all_levels()[k].output_len,
        ),
{
    reveal(Walk::fold_level);
    let v = settled_walk(w);
    let len = w.all_levels()[k].output_len;
    lemma_level_of(w, k + 1);
    lemma_settled_chunks(w);
    let vars = w.rules.opening_vars_of(len)->0;
    assert(v.entry.recursive_folds[k] == settled_fold(w, k));
    assert(v.fold_derivation(k, len, vars) == settled(derivation_of(w, k)));
    law_settled_groups_expand_alike(derivation_of(w, k));
}

/// Settled levels are the levels.
proof fn lemma_settled_levels<R: ScheduleRules>(w: Walk<R>, n: nat)
    requires
        w.expands(),
        restorable(w),
        n <= w.num_folds(),
    ensures
        settled_walk(w).levels(n) == w.levels(n),
    decreases n,
{
    if n == 0 {
        lemma_settled_root(w);
    } else {
        lemma_settled_levels(w, (n - 1) as nat);
        lemma_settled_fold(w, n - 1);
        walk::lemma_levels_prefix(w, (n - 1) as nat, w.num_folds());
        walk::lemma_levels_len(w, (n - 1) as nat);
        walk::lemma_levels_len(w, w.num_folds());
        assert(w.all_levels().take(n as int)[n - 1] == w.all_levels()[n - 1]);
    }
}

/// A settled row expands to the same levels and the same terminal fold.
proof fn lemma_settled_expands<R: ScheduleRules>(w: Walk<R>)
    requires
        w.expands(),
        restorable(w),
    ensures
        settled_walk(w).expands(),
        settled_walk(w).num_folds() == w.num_folds(),
        settled_walk(w).all_levels() == w.all_levels(),
        settled_walk(w).terminal() == w.terminal(),
        settled_walk(w).response_group() == w.response_group(),
        settled_walk(w).response_elems() == w.response_elems(),
{
    let v = settled_walk(w);
    lemma_settled_root(w);
    lemma_settled_levels(w, w.num_folds());
    assert(v.num_folds() == w.num_folds());
    assert(v.terminal_derivation() == settled_terminal(w.terminal_derivation()));
    law_settled_terminals_expand_alike(w.terminal_derivation());
}

/// Two walks of one key under one policy that expand alike.
pub open spec fn expand_alike<R: ScheduleRules>(v: Walk<R>, w: Walk<R>) -> bool {
    &&& v.rules == w.rules
    &&& v.policy == w.policy
    &&& v.key == w.key
    &&& v.num_folds() == w.num_folds()
    &&& v.all_levels() == w.all_levels()
    &&& v.terminal() == w.terminal()
    &&& v.response_group() == w.response_group()
    &&& v.response_elems() == w.response_elems()
}

proof fn lemma_payloads_alike<R: ScheduleRules>(v: Walk<R>, w: Walk<R>, i: int)
    requires
        expand_alike(v, w),
    ensures
        v.payload(i) == w.payload(i),
    decreases i,
{
    if i > 0 {
        lemma_payloads_alike(v, w, i - 1);
    }
    if i >= 0 {
        assert(v.successor(i) == w.successor(i));
    }
}

proof fn lemma_bytes_alike<R: ScheduleRules>(v: Walk<R>, w: Walk<R>, n: int)
    requires
        expand_alike(v, w),
    ensures
        v.level_bytes(n) == w.level_bytes(n),
        v.setup_fields(n) == w.setup_fields(n),
    decreases n,
{
    if n > 0 {
        lemma_bytes_alike(v, w, n - 1);
        lemma_payloads_alike(v, w, n - 1);
    }
}

/// The price of a row depends on nothing but its key, its policy and what its
/// folds expand to: rows that expand alike stand for the same schedules, at the
/// same price.
pub proof fn law_price_follows_the_expansion<R: ScheduleRules>(
    v: Walk<R>,
    w: Walk<R>,
    s: PlannedFoldSchedule,
)
    requires
        expand_alike(v, w),
    ensures
        v.total_bytes() == w.total_bytes(),
        v.priced() == w.priced(),
        v.schedule_is(s) == w.schedule_is(s),
{
    assert forall|i: int| #[trigger] v.payload(i) == w.payload(i) by {
        lemma_payloads_alike(v, w, i);
    }
    lemma_bytes_alike(v, w, v.num_levels());
    assert(v.num_levels() == w.num_levels());
    assert(v.terminal_rounds() == w.terminal_rounds());
    assert(v.terminal_direct() == w.terminal_direct());
    assert(v.terminal_bytes() == w.terminal_bytes());
    assert(v.all_setup_fields() == w.all_setup_fields());
    assert(v.grinding() == w.grinding());
    assert(v.total_bytes() == w.total_bytes());
    assert(v.priced() == w.priced()) by {
        if v.priced() {
            assert forall|i: int| 0 <= i <= w.num_folds() implies
                #[trigger] w.payload(i) is Some by {
                assert(v.payload(i) is Some);
            }
        }
        if w.priced() {
            assert forall|i: int| 0 <= i <= v.num_folds() implies
                #[trigger] v.payload(i) is Some by {
                assert(w.payload(i) is Some);
            }
        }
    }
    assert forall|step: FoldStep, i: int| #[trigger] v.step_is(step, i) == w.step_is(step, i) by {
        assert(v.payload(i) == w.payload(i));
    }
    assert(v.schedule_is(s) == w.schedule_is(s)) by {
        if v.schedule_is(s) {
            assert forall|i: int| 0 <= i < w.num_folds() implies w.step_is(
                #[trigger] s.recursive_folds@[i],
                i + 1,
            ) by {
                assert(v.step_is(s.recursive_folds@[i], i + 1));
            }
        }
        if w.schedule_is(s) {
            assert forall|i: int| 0 <= i < v.num_folds() implies v.step_is(
                #[trigger] s.recursive_folds@[i],
                i + 1,
            ) by {
                assert(w.step_is(s.recursive_folds@[i], i + 1));
            }
        }
    }
}

/// A row that a schedule is written to expands again, and to that schedule, at
/// its price. Where the schedule was expanded from a row that stores what its
/// expansion derives, it is that row.
pub proof fn law_rows_expand_to_their_price<R: ScheduleRules>(
    w: Walk<R>,
    s: PlannedFoldSchedule,
    row: GeneratedFoldScheduleEntry,
)
    requires
        w.expands(),
        restorable(w),
        w.schedule_is(s),
        row_of(row, w.key, s),
    ensures
        (Walk { entry: row@, ..w }).expands(),
        (Walk { entry: row@, ..w }).priced() == w.priced(),
        (Walk { entry: row@, ..w }).schedule_is(s),
        s.total_bytes == (Walk { entry: row@, ..w }).total_bytes(),
        canonical(w) ==> row@ == w.entry,
{
    lemma_root_is_kept(w);
    assert(w.step_is(s.root, 0));
    let kept = settled_entry(w);
    let folds = folds_of(s.recursive_folds@);
    assert forall|k: int| 0 <= k < w.num_folds() implies #[trigger] folds[k]
        == kept.recursive_folds[k] by {
        assert(w.step_is(s.recursive_folds@[k], k + 1));
        lemma_fold_is_kept(w, k);
    }
    assert(folds =~= kept.recursive_folds);
    lemma_terminal_is_kept(w, s);
    assert(row@ =~= kept);
    lemma_settled_expands(w);
    law_price_follows_the_expansion(settled_walk(w), w, s);
    if canonical(w) {
        assert forall|k: int| 0 <= k < w.num_folds() implies #[trigger] kept.recursive_folds[k]
            == w.entry.recursive_folds[k] by {
            assert(ring_kept(derivation_of(w, k)));
            assert(settled_fold(w, k) == w.entry.recursive_folds[k]);
        }
        assert(kept.recursive_folds =~= w.entry.recursive_folds);
        assert(kept =~= w.entry);
    }
}

/// The terminal fold of a row is written back settled.
proof fn lemma_terminal_is_kept<R: ScheduleRules>(w: Walk<R>, s: PlannedFoldSchedule)
    requires
        w.expands(),
        terminal_ring_kept(w),
        w.schedule_is(s),
    ensures
        terminal_of(s.terminal.params, s.terminal.response_shape.groups@[0]) == settled_terminal(
            w.terminal_derivation(),
        ).fold,
{
    let t = w.terminal_derivation();
    law_settled_terminals_expand_alike(t);
    law_terminal_compaction_inverts_expansion(
        settled_terminal(t),
        s.terminal.response_shape.groups@[0],
    );
}

// ---------------------------------------------------------------------------
// Rows from schedules
// ---------------------------------------------------------------------------

/// The block geometry of a fold.
pub fn geometry(p: &CommittedGroupParams) -> (r: BlockGeometry)
    ensures
        r == p.own.profile.blocks,
{
    p.own.profile.blocks
}

/// The own group of a fold.
pub fn committed_group(p: &CommittedGroupParams) -> (r: GeneratedGroup)
    ensures
        r == group_of(p.own),
{
    let slices: usize = p.own.profile.outer_slice_count.get();
    GeneratedGroup {
        geometry: geometry(p),
        inner_commit_matrix: GeneratedMatrix {
            ring_dimension: p.own.profile.inner.matrix.ring_dimension,
            log_basis: p.own.profile.inner.digits.log_basis,
        },
        outer_commit_matrix: GeneratedMatrix {
            ring_dimension: p.own.profile.outer.matrix.key.ring_dimension,
            log_basis: p.own.profile.outer.digits.log_basis,
        },
        outer_slice_count: slices as u32,
        num_digits_fold: p.own.opening.num_digits_fold as u32,
        opening_method: p.own.opening.opening_method,
    }
}

/// The opening matrix of a fold.
pub fn open_matrix_params(p: &OpenCommitMatrixParams, log_basis: u32) -> (r: GeneratedMatrix)
    ensures
        r.ring_dimension == p.key.ring_dimension,
        r.log_basis == log_basis,
{
    GeneratedMatrix { ring_dimension: p.key.ring_dimension, log_basis }
}

/// What precommitted and setup-prefix groups share.
pub fn frozen_group(slot: &GroupOpenPhaseParams) -> (r: GeneratedFrozenGroup)
    ensures
        r == frozen_of(*slot),
{
    GeneratedFrozenGroup {
        profile: slot.profile,
        opening_method: slot.opening.opening_method,
        num_digits_fold: slot.opening.num_digits_fold as u32,
    }
}

/// A setup prefix, which must have a natural length.
pub fn setup_prefix(slot: &GroupOpenPhaseParams) -> (r: Result<GeneratedSetupPrefix, String>)
    ensures
        match r {
            Ok(prefix) => prefix_of(*slot) == Some(prefix),
            Err(e) => slot.setup_natural_len is None && e@
                == "generated setup prefix must carry a natural length"@,
        },
{
    match slot.setup_natural_len {
        Some(natural_len) => Ok(
            GeneratedSetupPrefix { group: frozen_group(slot), natural_len: natural_len as u64 },
        ),
        None => Err(error::message("generated setup prefix must carry a natural length")),
    }
}

/// The Euclidean cap of the route that a group's inner matrix took.
pub fn response_l2_sq_cap(p: &CommittedGroupParams) -> (r: Option<u128>)
    ensures
        r == p.own.profile.inner.matrix.l2_cap(),
{
    match p.own.profile.inner.matrix.security_route() {
        InnerCommitSecurityRoute::Linf(_) => None,
        InnerCommitSecurityRoute::L2 { response_l2_sq_cap, .. } => Some(response_l2_sq_cap),
    }
}

/// What every fold but the terminal one keeps.
pub fn generated_fold_core(p: &CommittedGroupParams) -> (r: GeneratedFoldCore)
    ensures
        r == core_of(p@),
{
    GeneratedFoldCore {
        group: committed_group(p),
        open_commit_matrix: open_matrix_params(&p.open_matrix, p.own.opening.log_basis_open),
        witness_chunks: p.witness_chunk.num_chunks as u32,
        ring_relation_mode: p.ring_relation_mode,
    }
}

/// A recursive fold.
pub fn generated_recursive_fold(p: &CommittedGroupParams) -> (r: Result<
    GeneratedRecursiveFold,
    String,
>)
    ensures
        match r {
            Ok(fold) => recursive_fits(p@) && fold == recursive_of(p@),
            Err(e) => !recursive_fits(p@) && e@ == recursive_refusal(p@),
        },
{
    if p.precommitted_groups.len() != 0 {
        return Err(error::message("generated recursive fold cannot carry precommitted groups"));
    }
    let prefix: Option<GeneratedSetupPrefix> = match &p.setup_prefix {
        Some(slot) => match setup_prefix(slot) {
            Ok(prefix) => Some(prefix),
            Err(e) => return Err(e),
        },
        None => None,
    };
    Ok(
        GeneratedRecursiveFold {
            core: generated_fold_core(p),
            setup_prefix: prefix,
            payload_mode: p.payload_mode,
            response_l2_sq_cap: response_l2_sq_cap(p),
        },
    )
}

/// The precommitted groups of a row.
fn generated_precommitted_groups(
    profiles: &Vec<GroupCommitPhaseParams>,
    groups: &Vec<GroupOpenPhaseParams>,
) -> (r: Vec<GeneratedPrecommittedGroup>)
    ensures
        r@ == precommitted_of(profiles@, groups@),
{
    let mut out: Vec<GeneratedPrecommittedGroup> = Vec::new();
    let mut k: usize = 0;
    while k < profiles.len() && k < groups.len()
        invariant
            k <= profiles@.len(),
            k <= groups@.len(),
            out@.len() == k,
            forall|i: int|
                0 <= i < k ==> #[trigger] out@[i] == precommitted_of(profiles@, groups@)[i],
        decreases profiles@.len() - k,
    {
        out.push(
            GeneratedPrecommittedGroup {
                group: GeneratedFrozenGroup {
                    profile: profiles[k],
                    opening_method: groups[k].opening.opening_method,
                    num_digits_fold: groups[k].opening.num_digits_fold as u32,
                },
            },
        );
        k += 1;
    }
    proof {
        assert(out@ =~= precommitted_of(profiles@, groups@));
    }
    out
}

/// The recursive folds of a row.
fn generated_recursive_folds(steps: &Vec<FoldStep>) -> (r: Result<
    Vec<GeneratedRecursiveFold>,
    String,
>)
    ensures
        match r {
            Ok(folds) => first_unfit(steps@) == steps@.len() && folds@ == folds_of(steps@),
            Err(e) => first_unfit(steps@) < steps@.len() && e@ == recursive_refusal(
                steps@[first_unfit(steps@) as int].params@,
            ),
        },
{
    let mut folds: Vec<GeneratedRecursiveFold> = Vec::new();
    let mut k: usize = 0;
    while k < steps.len()
        invariant
            k <= steps@.len(),
            folds@.len() == k,
            forall|i: int| 0 <= i < k ==> recursive_fits((#[trigger] steps@[i]).params@),
            forall|i: int| 0 <= i < k ==> #[trigger] folds@[i] == recursive_of(steps@[i].params@),
        decreases steps@.len() - k,
    {
        match generated_recursive_fold(&steps[k].params) {
            Ok(fold) => folds.push(fold),
            Err(e) => {
                proof {
                    lemma_first_unfit(steps@, k as int);
                }
                return Err(e);
            },
        }
        k += 1;
    }
    proof {
        lemma_first_unfit(steps@, k as int);
        assert(folds@ =~= folds_of(steps@));
    }
    Ok(folds)
}

/// The row of a key and a schedule.
pub fn generated_entry(key: &AkitaScheduleLookupKey, schedule: &PlannedFoldSchedule) -> (r: Result<
    GeneratedFoldScheduleEntry,
    String,
>)
    ensures
        match r {
            Ok(row) => refusal(*schedule) is None && row_of(row, *key, *schedule),
            Err(e) => refusal(*schedule) == Some(e@),
        },
{
    let root: &CommittedGroupParams = &schedule.root.params;
    let precommitted_groups = generated_precommitted_groups(
        &key.precommitteds,
        &root.precommitted_groups,
    );
    let recursive_folds = match generated_recursive_folds(&schedule.recursive_folds) {
        Ok(folds) => folds,
        Err(e) => return Err(e),
    };
    let terminal = &schedule.terminal;
    if terminal.response_shape.groups.len() == 0 {
        return Err(error::message("terminal response shape has no group"));
    }
    if terminal.response_shape.groups.len() != 1 {
        return Err(
            error::message("generated scalar terminal response must have exactly one group"),
        );
    }
    let group: TailSegmentGroupLayout = terminal.response_shape.groups[0];
    if root.setup_prefix.is_some() {
        return Err(error::message("generated root fold cannot carry a setup prefix"));
    }
    if root.payload_mode != CommitmentPayloadMode::Compressed || response_l2_sq_cap(
        root,
    ).is_some() {
        return Err(
            error::message("generated root fold must use the canonical compressed Linf route"),
        );
    }
    let inner_coeff_linf_bound: u128 = match terminal.params.inner.matrix.security_route() {
        InnerCommitSecurityRoute::Linf(key) => key.coeff_linf_bound,
        InnerCommitSecurityRoute::L2 { .. } => 0,
    };
    Ok(
        GeneratedFoldScheduleEntry {
            final_group: key.final_group,
            root: GeneratedRootFold {
                core: generated_fold_core(root),
                num_digits_inner: root.own.profile.inner.digits.num_digits as u32,
                precommitted_groups,
            },
            recursive_folds,
            terminal: GeneratedTerminalFold {
                geometry: terminal.params.blocks,
                inner_commit_matrix: GeneratedMatrix {
                    ring_dimension: terminal.params.inner.matrix.ring_dimension,
                    log_basis: terminal.params.inner.digits.log_basis,
                },
                num_digits_inner: terminal.params.inner.digits.num_digits as u32,
                fold_log_basis: terminal.params.fold.log_basis,
                fold_digit_count: terminal.params.fold.num_digits as u32,
                inner_output_rank: terminal.params.inner.matrix.output_rank as u32,
                inner_coeff_linf_bound,
                response_l2_sq_cap: terminal.params.response_l2_sq_cap(),
                z_linf_cap: group.z_linf_cap,
                z_rice_low_bits: group.z_rice_low_bits,
                z_payload_bytes: group.z_payload_bytes as u64,
            },
        },
    )
}

} // verus!
