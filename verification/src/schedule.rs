//! What a schedule holds: its levels chain, its parts add up, and every quantity
//! in it is what the rules give for the levels that stand in it.

use crate::checked;
use crate::expand;
use crate::expand::{
    Derivation, GeneratedFoldExpansionRole, LengthModel, TerminalDerivation,
};
use crate::generated::{EntryModel, GeneratedRecursiveFold, GeneratedTerminalFold};
use crate::params::{
    AkitaScheduleLookupKey, CommitmentPayloadMode, PlannerPolicy, PolynomialGroupLayout,
};
use crate::rules::{CommittedGroupModel, LevelPayload, SuccessorModel};
use crate::walk;
use crate::walk::{FoldStep, LevelModel, PlannedFoldSchedule, ScheduleRules, Walk};
use vstd::arithmetic::power2::*;
use vstd::prelude::*;

verus! {

/// The fold of a level of a schedule: the root, then the recursive folds.
pub open spec fn step_of(s: PlannedFoldSchedule, i: int) -> FoldStep {
    if i == 0 {
        s.root
    } else {
        s.recursive_folds@[i - 1]
    }
}

/// Whether the response of the terminal fold is laid out by its own parameters:
/// one group, which holds the folded witness, one ring element for each live
/// block, and as many as the inner commitment has rows for each live block.
pub open spec fn response_is_laid_out(s: PlannedFoldSchedule, row: GeneratedTerminalFold) -> bool {
    let params = s.terminal.params;
    let matrix = params.inner.matrix;
    let shape = s.terminal.response_shape;
    let group = shape.groups@[0];
    &&& shape.groups@.len() == 1
    &&& shape.ring_dimension == matrix.ring_dimension
    &&& group.z_coords == matrix.input_width * matrix.ring_dimension
    &&& group.e_field_elems == params.blocks.live_blocks * matrix.ring_dimension
    &&& group.t_field_elems == params.blocks.live_blocks * matrix.output_rank
        * matrix.ring_dimension
    &&& shape.logical_num_elems == group.z_coords + group.e_field_elems + group.t_field_elems
    &&& group.z_linf_cap == row.z_linf_cap
    &&& group.z_rice_low_bits == row.z_rice_low_bits
    &&& group.z_payload_bytes == row.z_payload_bytes
    &&& s.terminal.sparse_challenge_config == params.fold_challenge_config
}

/// Whether every level takes in the witness that the level before leaves, the
/// root the whole table of the key, and the terminal fold what the last leaves.
pub open spec fn witnesses_chain(s: PlannedFoldSchedule, num_vars: usize) -> bool {
    let n = s.recursive_folds@.len() as int;
    &&& s.root.input_witness_len == pow2(num_vars as nat)
    &&& forall|i: int, j: int|
        0 <= i < j <= n && j == i + 1 ==> (#[trigger] step_of(s, j)).input_witness_len == (
        #[trigger] step_of(s, i)).output_witness_len
    &&& s.terminal.input_witness_len == step_of(s, n).output_witness_len
}

/// The bytes of the first `n` levels of a schedule.
pub open spec fn step_bytes(s: PlannedFoldSchedule, n: int) -> int
    decreases n,
{
    if n <= 0 {
        0
    } else {
        step_bytes(s, n - 1) + step_of(s, n - 1).direct_payload_bytes + step_of(
            s,
            n - 1,
        ).stage3_payload_bytes
    }
}

/// Whether the size of a schedule is what its levels, its terminal fold and its
/// nonces take, the nonces rounded up to bytes.
pub open spec fn bytes_add_up(s: PlannedFoldSchedule) -> bool {
    let payload = step_bytes(s, s.recursive_folds@.len() as int + 1)
        + s.terminal.direct_payload_bytes + s.terminal.payload_bytes;
    &&& payload > 0
    &&& s.grinding.total_nonce_bits <= 8 * (s.total_bytes - payload)
        < s.grinding.total_nonce_bits + 8
}

/// The payload that the rules give a level of a schedule: it opens the point
/// that the level before left, and hands over to the level behind it.
pub open spec fn step_payload<R: ScheduleRules>(
    rules: R,
    key: AkitaScheduleLookupKey,
    s: PlannedFoldSchedule,
    i: int,
) -> Option<LevelPayload>
    decreases i,
{
    rules.payload_of(
        step_of(s, i).params@,
        key.final_group,
        key.precommitteds@,
        if i <= 0 {
            None
        } else {
            match step_payload(rules, key, s, i - 1) {
                Some(payload) => Some(payload.rounds),
                None => None,
            }
        },
        if i < s.recursive_folds@.len() {
            SuccessorModel::Recursive(step_of(s, i + 1).params@)
        } else {
            SuccessorModel::Terminal(s.terminal.params)
        },
        step_of(s, i).output_witness_len,
    )
}

/// The setup that the rules call for once the first `n` levels of a schedule are
/// provided for.
pub open spec fn step_setup<R: ScheduleRules>(rules: R, s: PlannedFoldSchedule, n: int) -> Option<
    usize,
>
    decreases n,
{
    if n <= 0 {
        Some(1)
    } else {
        match step_setup(rules, s, n - 1) {
            Some(so_far) => rules.fold_fields_of(step_of(s, n - 1).params@, so_far),
            None => None,
        }
    }
}

/// Whether every cost of a schedule is what the rules say of the levels that
/// stand in it.
pub open spec fn costs_are_ruled<R: ScheduleRules>(
    rules: R,
    policy: PlannerPolicy,
    key: AkitaScheduleLookupKey,
    s: PlannedFoldSchedule,
) -> bool {
    let n = s.recursive_folds@.len() as int;
    let field_bits = policy.decomposition.field_bits_spec();
    let bits = rules.challenge_bits_of(field_bits, policy.chal_ext_degree);
    let setup = step_setup(rules, s, n + 1);
    &&& forall|i: int|
        0 <= i <= n ==> {
            let payload = #[trigger] step_payload(rules, key, s, i);
            &&& payload is Some
            &&& step_of(s, i).direct_payload_bytes == payload->0.direct
            &&& step_of(s, i).stage3_payload_bytes == payload->0.stage3
        }
    &&& bits is Some
    &&& rules.reduction_bytes_of(
        bits->0,
        policy.claim_ext_degree,
        step_payload(rules, key, s, n)->0.rounds,
    ) == Some(s.terminal.direct_payload_bytes)
    &&& s.terminal.payload_bytes == rules.response_bytes_of(
        field_bits,
        s.terminal.response_shape.groups@[0],
        s.terminal.response_shape.logical_num_elems,
        s.terminal.params.inner.matrix.l2_cap(),
    )
    &&& setup is Some
    &&& rules.terminal_fields_of(s.terminal.params, setup->0) == Some(s.setup_field_elements)
    &&& rules.grinding_of(
        policy,
        key.final_group,
        key.precommitteds@,
        Seq::new(
            (n + 1) as nat,
            |i: int|
                LevelModel {
                    params: step_of(s, i).params@,
                    input_len: step_of(s, i).input_witness_len,
                    output_len: step_of(s, i).output_witness_len,
                },
        ),
        s.terminal.params,
    ) == Some(s.grinding)
}

/// Whether a level is chunked as its row says: not at all, or as the rules allow it,
/// to the depth to which the row is.
pub open spec fn is_chunked_as<R: ScheduleRules>(
    rules: R,
    params: CommittedGroupModel,
    chunks: u32,
    depth: nat,
) -> bool {
    &&& params.witness_chunk.num_chunks == chunks
    &&& chunks >= 1
    &&& chunks > 1 ==> rules.chunks_allowed(params.witness_chunk)
    &&& params.witness_chunk.num_activated_levels == if chunks == 1 {
        0
    } else {
        depth
    }
}

/// Whether the levels of a schedule are those of the row: as many, each chunked
/// as its fold says, and each leaving the witness that the rules give it.
pub open spec fn levels_are_the_rows<R: ScheduleRules>(
    rules: R,
    policy: PlannerPolicy,
    entry: EntryModel,
    key: AkitaScheduleLookupKey,
    s: PlannedFoldSchedule,
) -> bool {
    let n = s.recursive_folds@.len() as int;
    let field_bits = policy.decomposition.field_bits_spec();
    let depth = walk::activation_depth(
        entry.root.core.witness_chunks,
        Seq::new(
            entry.recursive_folds.len(),
            |k: int| entry.recursive_folds[k].core.witness_chunks,
        ),
    );
    &&& n == entry.recursive_folds.len()
    &&& is_chunked_as(rules, s.root.params@, entry.root.core.witness_chunks, depth)
    &&& Some(s.root.output_witness_len) == if key.precommitteds@.len() > 0 {
        rules.grouped_next_len_of(
            s.root.params@,
            field_bits,
            policy.claim_ext_degree,
            key.final_group,
            key.precommitteds@,
        )
    } else {
        rules.next_len_of(
            s.root.params@,
            field_bits,
            policy.claim_ext_degree,
            key.final_group.num_polynomials,
            s.root.params@.witness_chunk.num_chunks,
        )
    }
    &&& forall|k: int|
        0 <= k < n ==> {
            let step = #[trigger] s.recursive_folds@[k];
            &&& is_chunked_as(
                rules,
                step.params@,
                entry.recursive_folds[k].core.witness_chunks,
                depth,
            )
            &&& Some(step.output_witness_len) == rules.next_len_of(
                step.params@,
                field_bits,
                policy.claim_ext_degree,
                1,
                step.params@.witness_chunk.num_chunks,
            )
        }
}

/// Whether the root of a schedule is the expansion of the row's root over the layout
/// of the key: on the whole table, or beside the precommitted groups, each opened
/// as the row says and under the profile of the key.
#[verifier::opaque]
pub open spec fn root_expands<R: ScheduleRules>(
    rules: R,
    policy: PlannerPolicy,
    entry: EntryModel,
    key: AkitaScheduleLookupKey,
    s: PlannedFoldSchedule,
) -> bool {
    let root = entry.root;
    let groups = root.precommitted_groups;
    let opened = s.root.params@.precommitted_groups;
    let d = Derivation {
        rules,
        policy,
        group: root.core.group,
        role: GeneratedFoldExpansionRole::Root { num_digits_inner: root.num_digits_inner },
        payload_mode: CommitmentPayloadMode::Compressed,
        ring_relation_mode: root.core.ring_relation_mode,
        open: root.core.open_commit_matrix,
        layout: key.final_group,
        source: if key.precommitteds@.len() == 0 {
            LengthModel::Incoming {
                len: s.root.input_witness_len,
                num_claims: key.final_group.num_polynomials,
                prefix: None,
            }
        } else {
            LengthModel::Pinned { num_claims: key.final_group.num_polynomials, groups: opened }
        },
    };
    &&& d.admitted()
    &&& s.root.params@ == (CommittedGroupModel {
        witness_chunk: s.root.params@.witness_chunk,
        ..d.params()
    })
    &&& key.precommitteds@.len() > 0 ==> opened.len() == groups.len() && forall|i: int|
        0 <= i < groups.len() ==> Some(#[trigger] opened[i]) == expand::frozen_opening(
            rules,
            policy,
            groups[i].group,
            None,
            root.core.open_commit_matrix.log_basis,
            policy.witness_chunk.chunks_at(0) as usize,
        ) && opened[i].profile == key.precommitteds@[i]
}

/// Whether a recursive fold of a schedule is the expansion of the row's fold at its
/// level, on the witness that it takes in: one claim over as many variables as the
/// rules give that witness, with the setup prefix of the row.
#[verifier::opaque]
pub open spec fn fold_expands<R: ScheduleRules>(
    rules: R,
    policy: PlannerPolicy,
    fold: GeneratedRecursiveFold,
    k: int,
    step: FoldStep,
) -> bool {
    let vars = rules.opening_vars_of(step.input_witness_len);
    let d = Derivation {
        rules,
        policy,
        group: fold.core.group,
        role: GeneratedFoldExpansionRole::Recursive {
            fold_level: (k + 1) as usize,
            response_l2_sq_cap: fold.response_l2_sq_cap,
        },
        payload_mode: fold.payload_mode,
        ring_relation_mode: fold.core.ring_relation_mode,
        open: fold.core.open_commit_matrix,
        layout: PolynomialGroupLayout { num_vars: vars->0, num_polynomials: 1 },
        source: LengthModel::Incoming {
            len: step.input_witness_len,
            num_claims: 1,
            prefix: fold.setup_prefix,
        },
    };
    &&& vars is Some
    &&& d.admitted()
    &&& step.params@ == (CommittedGroupModel {
        witness_chunk: step.params@.witness_chunk,
        ..d.params()
    })
}

/// Whether the terminal fold of a schedule is the expansion of the row's at the
/// level behind the last fold, on the witness that it takes in.
#[verifier::opaque]
pub open spec fn terminal_expands<R: ScheduleRules>(
    rules: R,
    policy: PlannerPolicy,
    entry: EntryModel,
    s: PlannedFoldSchedule,
) -> bool {
    let t = TerminalDerivation {
        rules,
        policy,
        fold: entry.terminal,
        level: (s.recursive_folds@.len() + 1) as usize,
        input_len: s.terminal.input_witness_len,
    };
    &&& t.admitted()
    &&& s.terminal.params == t.params()
    &&& s.terminal.params.blocks.live_blocks * s.terminal.params.inner.matrix.output_rank
        <= usize::MAX
}

/// Whether a row is the key's own: the key is admitted, the row has its layout,
/// which is not empty and whose table fits, and the profiles of its groups.
pub open spec fn row_is_the_keys<R: ScheduleRules>(
    rules: R,
    policy: PlannerPolicy,
    entry: EntryModel,
    key: AkitaScheduleLookupKey,
) -> bool {
    let groups = entry.root.precommitted_groups;
    &&& rules.key_allowed(
        key.final_group,
        key.precommitteds@,
        policy.decomposition.field_bits_spec(),
    )
    &&& entry.final_group == key.final_group
    &&& key.final_group.num_polynomials > 0
    &&& pow2(key.final_group.num_vars as nat) <= usize::MAX
    &&& groups.len() == key.precommitteds@.len()
    &&& forall|i: int|
        0 <= i < groups.len() ==> (#[trigger] groups[i]).group.profile == key.precommitteds@[i]
}

/// Whether a schedule stands for a row under a key: the row is the key's own, every
/// level is the expansion of its fold, and all of the above holds of the schedule.
pub open spec fn stands_for<R: ScheduleRules>(
    rules: R,
    policy: PlannerPolicy,
    entry: EntryModel,
    key: AkitaScheduleLookupKey,
    s: PlannedFoldSchedule,
) -> bool {
    &&& row_is_the_keys(rules, policy, entry, key)
    &&& root_expands(rules, policy, entry, key, s)
    &&& forall|k: int|
        0 <= k < entry.recursive_folds.len() ==> fold_expands(
            rules,
            policy,
            entry.recursive_folds[k],
            k,
            #[trigger] s.recursive_folds@[k],
        )
    &&& terminal_expands(rules, policy, entry, s)
    &&& levels_are_the_rows(rules, policy, entry, key, s)
    &&& witnesses_chain(s, key.final_group.num_vars)
    &&& response_is_laid_out(s, entry.terminal)
    &&& bytes_add_up(s)
    &&& costs_are_ruled(rules, policy, key, s)
}

// ---------------------------------------------------------------------------
// Laws
// ---------------------------------------------------------------------------

/// The depth of chunking: none where the root has one chunk; otherwise the root
/// and the folds behind it up to the first that has one chunk.
pub proof fn law_chunked_levels_lead(root_chunks: u32, following: Seq<u32>)
    ensures
        ({
            let depth = walk::activation_depth(root_chunks, following);
            &&& depth == 0 <==> root_chunks <= 1
            &&& depth <= following.len() + 1
            &&& forall|k: int| 0 <= k < depth - 1 ==> #[trigger] following[k] > 1
            &&& 0 < depth <= following.len() ==> following[depth - 1] <= 1
        }),
{
    lemma_leading(following);
}

proof fn lemma_leading(chunks: Seq<u32>)
    ensures
        walk::leading_chunked(chunks) <= chunks.len(),
        forall|k: int| 0 <= k < walk::leading_chunked(chunks) ==> #[trigger] chunks[k] > 1,
        walk::leading_chunked(chunks) < chunks.len() ==> chunks[walk::leading_chunked(chunks) as int] <= 1,
    decreases chunks.len(),
{
    if chunks.len() > 0 && chunks[0] > 1 {
        let rest = chunks.drop_first();
        lemma_leading(rest);
        assert forall|k: int| 0 <= k < walk::leading_chunked(chunks) implies #[trigger] chunks[k]
            > 1 by {
            if k > 0 {
                assert(rest[k - 1] == chunks[k]);
            }
        }
        if walk::leading_chunked(chunks) < chunks.len() {
            assert(rest[walk::leading_chunked(rest) as int] == chunks[walk::leading_chunked(chunks) as int]);
        }
    }
}

/// A schedule that stands for a row holds what its own levels call for: the
/// response is laid out by the terminal parameters, the witnesses chain from the
/// table of the key to the terminal fold, the size is the sum of its parts, every
/// cost is what the rules say of the levels in it, and the levels are the row's.
pub proof fn law_schedules_hold_what_they_call_for<R: ScheduleRules>(
    w: Walk<R>,
    s: PlannedFoldSchedule,
)
    requires
        w.expands(),
        w.priced(),
        w.entry.recursive_folds.len() + 2 <= usize::MAX,
        w.schedule_is(s),
    ensures
        response_is_laid_out(s, w.entry.terminal),
        witnesses_chain(s, w.key.final_group.num_vars),
        bytes_add_up(s),
        costs_are_ruled(w.rules, w.policy, w.key, s),
        levels_are_the_rows(w.rules, w.policy, w.entry, w.key, s),
{
    lemma_schedule_levels(w, s);
    lemma_schedule_response(w, s);
    lemma_schedule_chain(w, s);
    lemma_schedule_bytes(w, s);
    lemma_schedule_costs(w, s);
}

proof fn lemma_schedule_step<R: ScheduleRules>(w: Walk<R>, s: PlannedFoldSchedule, i: int)
    requires
        w.schedule_is(s),
        0 <= i <= w.num_folds(),
    ensures
        w.step_is(step_of(s, i), i),
{
    if i > 0 {
        assert(w.step_is(s.recursive_folds@[i - 1], i));
    }
}

proof fn lemma_schedule_response<R: ScheduleRules>(w: Walk<R>, s: PlannedFoldSchedule)
    requires
        w.response_fits(),
        w.schedule_is(s),
    ensures
        response_is_laid_out(s, w.entry.terminal),
{
    let matrix = s.terminal.params.inner.matrix;
    let (width, rank, d) = (
        matrix.input_width as int,
        matrix.output_rank as int,
        matrix.ring_dimension as int,
    );
    let blocks = s.terminal.params.blocks.live_blocks as int;
    assert(s.terminal.response_shape.groups@[0] == w.response_group());
    assert(0 <= width * d && 0 <= blocks * d && 0 <= (blocks * rank) * d) by (nonlinear_arith)
        requires
            0 <= width,
            0 <= rank,
            0 <= d,
            0 <= blocks,
    ;
}

/// The first level of a row is its root, which takes in the table of the key.
proof fn lemma_first_level<R: ScheduleRules>(w: Walk<R>)
    requires
        w.levels(w.num_folds()) is Some,
    ensures
        w.all_levels().len() == w.num_folds() + 1,
        Some(w.all_levels()[0]) == w.root_level(),
{
    walk::lemma_levels_len(w, w.num_folds());
    walk::lemma_levels_prefix(w, 0, w.num_folds());
    assert((w.levels(0)->0)[0] == w.all_levels()[0]);
}

/// A later level of a row is its fold on what the level before leaves.
proof fn lemma_later_level<R: ScheduleRules>(w: Walk<R>, k: int)
    requires
        w.levels(w.num_folds()) is Some,
        0 <= k < w.num_folds(),
    ensures
        Some(w.all_levels()[k + 1]) == w.fold_level(k, w.all_levels()[k].output_len),
{
    let n = w.num_folds();
    walk::lemma_levels_len(w, n);
    walk::lemma_levels_prefix(w, (k + 1) as nat, n);
    walk::lemma_levels_len(w, (k + 1) as nat);
    walk::lemma_levels_prefix(w, k as nat, n);
    walk::lemma_levels_len(w, k as nat);
    assert(w.all_levels().take(k + 2)[k + 1] == w.all_levels()[k + 1]);
    assert(w.all_levels().take(k + 1)[k] == w.all_levels()[k]);
}

/// What a root level holds.
proof fn lemma_root_parts<R: ScheduleRules>(w: Walk<R>)
    requires
        w.root_level() is Some,
    ensures
        ({
            let level = w.root_level()->0;
            &&& level.input_len == w.root_len()
            &&& w.chunk(w.entry.root.core.witness_chunks) == Some(level.params.witness_chunk)
            &&& Some(level.output_len) == if w.grouped() {
                w.rules.grouped_next_len_of(
                    level.params,
                    w.field_bits(),
                    w.policy.claim_ext_degree,
                    w.key.final_group,
                    w.key.precommitteds@,
                )
            } else {
                w.rules.next_len_of(
                    level.params,
                    w.field_bits(),
                    w.policy.claim_ext_degree,
                    w.key.final_group.num_polynomials,
                    level.params.witness_chunk.num_chunks,
                )
            }
        }),
{
    reveal(Walk::root_level);
}

/// What the level of a recursive fold holds.
proof fn lemma_fold_parts<R: ScheduleRules>(w: Walk<R>, k: int, input_len: usize)
    requires
        w.fold_level(k, input_len) is Some,
    ensures
        ({
            let level = w.fold_level(k, input_len)->0;
            &&& level.input_len == input_len
            &&& w.chunk(w.entry.recursive_folds[k].core.witness_chunks) == Some(
                level.params.witness_chunk,
            )
            &&& Some(level.output_len) == w.rules.next_len_of(
                level.params,
                w.field_bits(),
                w.policy.claim_ext_degree,
                1,
                level.params.witness_chunk.num_chunks,
            )
        }),
{
    reveal(Walk::fold_level);
}

proof fn lemma_schedule_chain<R: ScheduleRules>(w: Walk<R>, s: PlannedFoldSchedule)
    requires
        w.levels(w.num_folds()) is Some,
        pow2(w.key.final_group.num_vars as nat) <= usize::MAX,
        w.schedule_is(s),
    ensures
        witnesses_chain(s, w.key.final_group.num_vars),
{
    let n = w.num_folds();
    lemma_first_level(w);
    lemma_root_parts(w);
    assert(s.root.input_witness_len == pow2(w.key.final_group.num_vars as nat));
    assert forall|i: int, j: int| 0 <= i < j <= n && j == i + 1 implies (#[trigger] step_of(
        s,
        j,
    )).input_witness_len == (#[trigger] step_of(s, i)).output_witness_len by {
        lemma_schedule_step(w, s, i);
        lemma_schedule_step(w, s, j);
        walk::law_levels_chain(w, n, j);
    }
    lemma_schedule_step(w, s, n as int);
}

proof fn lemma_schedule_bytes_upto<R: ScheduleRules>(w: Walk<R>, s: PlannedFoldSchedule, n: int)
    requires
        w.schedule_is(s),
        0 <= n <= w.num_folds() + 1,
    ensures
        step_bytes(s, n) == w.level_bytes(n),
    decreases n,
{
    if n > 0 {
        lemma_schedule_bytes_upto(w, s, n - 1);
        lemma_schedule_step(w, s, n - 1);
    }
}

proof fn lemma_schedule_bytes<R: ScheduleRules>(w: Walk<R>, s: PlannedFoldSchedule)
    requires
        w.priced(),
        w.schedule_is(s),
    ensures
        bytes_add_up(s),
{
    lemma_schedule_bytes_upto(w, s, w.num_levels());
    let bits = s.grinding.total_nonce_bits as int;
    let bytes = checked::ceil_div(bits, 8);
    assert(bytes == (bits + 7) / 8);
    assert(bits <= 8 * bytes < bits + 8);
}

proof fn lemma_schedule_payload<R: ScheduleRules>(w: Walk<R>, s: PlannedFoldSchedule, i: int)
    requires
        w.levels(w.num_folds()) is Some,
        w.schedule_is(s),
        0 <= i <= w.num_folds(),
    ensures
        step_payload(w.rules, w.key, s, i) == w.payload(i),
    decreases i,
{
    walk::lemma_levels_len(w, w.num_folds());
    lemma_schedule_step(w, s, i);
    if i > 0 {
        lemma_schedule_payload(w, s, i - 1);
    }
    if i < w.num_folds() {
        lemma_schedule_step(w, s, i + 1);
    }
}

proof fn lemma_schedule_setup<R: ScheduleRules>(w: Walk<R>, s: PlannedFoldSchedule, n: int)
    requires
        w.schedule_is(s),
        0 <= n <= w.num_folds() + 1,
    ensures
        step_setup(w.rules, s, n) == w.setup_fields(n),
    decreases n,
{
    if n > 0 {
        lemma_schedule_setup(w, s, n - 1);
        lemma_schedule_step(w, s, n - 1);
    }
}

proof fn lemma_schedule_costs<R: ScheduleRules>(w: Walk<R>, s: PlannedFoldSchedule)
    requires
        w.expands(),
        w.priced(),
        w.schedule_is(s),
    ensures
        costs_are_ruled(w.rules, w.policy, w.key, s),
{
    let n = w.num_folds() as int;
    walk::lemma_levels_len(w, w.num_folds());
    assert forall|i: int| 0 <= i <= n implies {
        let payload = #[trigger] step_payload(w.rules, w.key, s, i);
        &&& payload is Some
        &&& step_of(s, i).direct_payload_bytes == payload->0.direct
        &&& step_of(s, i).stage3_payload_bytes == payload->0.stage3
    } by {
        lemma_schedule_payload(w, s, i);
        lemma_schedule_step(w, s, i);
        assert(w.payload(i) is Some);
    }
    lemma_schedule_payload(w, s, n);
    lemma_schedule_setup(w, s, n + 1);
    lemma_schedule_response(w, s);
    assert(s.terminal.response_shape.groups@[0] == w.response_group());
    let levels = Seq::new(
        (n + 1) as nat,
        |i: int|
            LevelModel {
                params: step_of(s, i).params@,
                input_len: step_of(s, i).input_witness_len,
                output_len: step_of(s, i).output_witness_len,
            },
    );
    assert forall|i: int| 0 <= i <= n implies #[trigger] levels[i] == w.all_levels()[i] by {
        lemma_schedule_step(w, s, i);
    }
    assert(levels =~= w.all_levels());
}

proof fn lemma_schedule_levels<R: ScheduleRules>(w: Walk<R>, s: PlannedFoldSchedule)
    requires
        w.expands(),
        w.entry.recursive_folds.len() + 2 <= usize::MAX,
        w.schedule_is(s),
    ensures
        levels_are_the_rows(w.rules, w.policy, w.entry, w.key, s),
{
    let n = w.num_folds();
    let chunks = Seq::new(
        w.entry.recursive_folds.len(),
        |k: int| w.entry.recursive_folds[k].core.witness_chunks,
    );
    assert(chunks =~= walk::fold_chunks(w.entry.recursive_folds));
    law_chunked_levels_lead(w.entry.root.core.witness_chunks, chunks);
    lemma_first_level(w);
    lemma_root_parts(w);
    lemma_schedule_step(w, s, 0);
    assert forall|k: int| 0 <= k < n implies {
        let step = #[trigger] s.recursive_folds@[k];
        &&& is_chunked_as(
            w.rules,
            step.params@,
            w.entry.recursive_folds[k].core.witness_chunks,
            walk::activation_depth(w.entry.root.core.witness_chunks, chunks),
        )
        &&& Some(step.output_witness_len) == w.rules.next_len_of(
            step.params@,
            w.policy.decomposition.field_bits_spec(),
            w.policy.claim_ext_degree,
            1,
            step.params@.witness_chunk.num_chunks,
        )
    } by {
        lemma_schedule_step(w, s, k + 1);
        lemma_later_level(w, k);
        lemma_fold_parts(w, k, w.all_levels()[k].output_len);
    }
}

/// A row stands for the schedules that are its own expansion at their own price, and
/// for no others: the walk of a row gives a schedule exactly when one stands for it.
pub proof fn law_rows_stand_for_their_expansions<R: ScheduleRules>(
    w: Walk<R>,
    s: PlannedFoldSchedule,
)
    requires
        w.entry.recursive_folds.len() + 2 <= usize::MAX,
    ensures
        w.expands() && w.priced() && w.schedule_is(s) <==> stands_for(
            w.rules,
            w.policy,
            w.entry,
            w.key,
            s,
        ),
{
    if w.expands() && w.priced() && w.schedule_is(s) {
        law_schedules_hold_what_they_call_for(w, s);
        lemma_root_expands(w, s);
        lemma_row_is_the_keys(w);
        assert forall|k: int| 0 <= k < w.entry.recursive_folds.len() implies fold_expands(
            w.rules,
            w.policy,
            w.entry.recursive_folds[k],
            k,
            #[trigger] s.recursive_folds@[k],
        ) by {
            lemma_fold_expands(w, s, k);
        }
        lemma_terminal_expands(w, s);
    }
    if stands_for(w.rules, w.policy, w.entry, w.key, s) {
        lemma_standing_schedules(w, s);
    }
}

proof fn lemma_row_is_the_keys<R: ScheduleRules>(w: Walk<R>)
    requires
        w.key_fits(),
    ensures
        row_is_the_keys(w.rules, w.policy, w.entry, w.key),
{
    let groups = w.entry.root.precommitted_groups;
    assert(w.profiles().len() == groups.len());
    assert forall|i: int| 0 <= i < groups.len() implies (#[trigger] groups[i]).group.profile
        == w.key.precommitteds@[i] by {
        assert(w.profiles()[i] == groups[i].group.profile);
    }
}

proof fn lemma_root_expands<R: ScheduleRules>(w: Walk<R>, s: PlannedFoldSchedule)
    requires
        w.expands(),
        w.schedule_is(s),
    ensures
        root_expands(w.rules, w.policy, w.entry, w.key, s),
{
    reveal(root_expands);
    reveal(Walk::root_level);
    lemma_first_level(w);
    lemma_root_parts(w);
    lemma_schedule_step(w, s, 0);
    lemma_row_is_the_keys(w);
    let groups = w.entry.root.precommitted_groups;
    if w.grouped() {
        assert forall|i: int| 0 <= i < groups.len() implies Some(
            #[trigger] s.root.params@.precommitted_groups[i],
        ) == expand::frozen_opening(
            w.rules,
            w.policy,
            groups[i].group,
            None,
            w.entry.root.core.open_commit_matrix.log_basis,
            w.policy.witness_chunk.chunks_at(0) as usize,
        ) && s.root.params@.precommitted_groups[i].profile == w.key.precommitteds@[i] by {
            assert(w.precommitted_opening(i) is Some);
            expand::law_frozen_openings_keep_the_row(
                w.rules,
                w.policy,
                groups[i].group,
                None,
                w.entry.root.core.open_commit_matrix.log_basis,
                w.policy.witness_chunk.chunks_at(0) as usize,
            );
            assert(groups[i].group.profile == w.key.precommitteds@[i]);
        }
    }
}

proof fn lemma_fold_expands<R: ScheduleRules>(w: Walk<R>, s: PlannedFoldSchedule, k: int)
    requires
        w.expands(),
        w.schedule_is(s),
        0 <= k < s.recursive_folds@.len(),
    ensures
        fold_expands(
            w.rules,
            w.policy,
            w.entry.recursive_folds[k],
            k,
            s.recursive_folds@[k],
        ),
{
    reveal(fold_expands);
    reveal(Walk::fold_level);
    lemma_first_level(w);
    lemma_later_level(w, k);
    lemma_fold_parts(w, k, w.all_levels()[k].output_len);
    lemma_schedule_step(w, s, k + 1);
}

proof fn lemma_terminal_expands<R: ScheduleRules>(w: Walk<R>, s: PlannedFoldSchedule)
    requires
        w.expands(),
        w.schedule_is(s),
    ensures
        terminal_expands(w.rules, w.policy, w.entry, s),
{
    reveal(terminal_expands);
}

/// The level of a step.
spec fn level_of(step: FoldStep) -> LevelModel {
    LevelModel {
        params: step.params@,
        input_len: step.input_witness_len,
        output_len: step.output_witness_len,
    }
}

proof fn lemma_chunk_of<R: ScheduleRules>(w: Walk<R>, params: CommittedGroupModel, chunks: u32)
    requires
        w.entry.recursive_folds.len() + 2 <= usize::MAX,
        is_chunked_as(
            w.rules,
            params,
            chunks,
            walk::activation_depth(
                w.entry.root.core.witness_chunks,
                Seq::new(
                    w.entry.recursive_folds.len(),
                    |k: int| w.entry.recursive_folds[k].core.witness_chunks,
                ),
            ),
        ),
    ensures
        w.chunk(chunks) == Some(params.witness_chunk),
{
    let following = Seq::new(
        w.entry.recursive_folds.len(),
        |k: int| w.entry.recursive_folds[k].core.witness_chunks,
    );
    assert(following =~= walk::fold_chunks(w.entry.recursive_folds));
    law_chunked_levels_lead(w.entry.root.core.witness_chunks, following);
    assert(w.activated() == walk::activation_depth(w.entry.root.core.witness_chunks, following));
}

proof fn lemma_standing_key<R: ScheduleRules>(w: Walk<R>, s: PlannedFoldSchedule)
    requires
        row_is_the_keys(w.rules, w.policy, w.entry, w.key),
        root_expands(w.rules, w.policy, w.entry, w.key, s),
        costs_are_ruled(w.rules, w.policy, w.key, s),
    ensures
        w.key_fits(),
        w.precommitted_fit(),
        w.grouped() ==> w.precommitted_openings() == s.root.params@.precommitted_groups,
{
    reveal(root_expands);
    let groups = w.entry.root.precommitted_groups;
    let opened = s.root.params@.precommitted_groups;
    assert forall|i: int| 0 <= i < groups.len() implies #[trigger] w.profiles()[i]
        == w.key.precommitteds@[i] by {
        assert(groups[i].group.profile == w.key.precommitteds@[i]);
    }
    assert(w.profiles() =~= w.key.precommitteds@);
    if w.grouped() {
        assert forall|i: int| 0 <= i < groups.len() implies #[trigger] w.precommitted_opening(i)
            == Some(opened[i]) by {}
        assert(w.precommitted_openings() =~= opened);
    }
}

proof fn lemma_standing_root<R: ScheduleRules>(w: Walk<R>, s: PlannedFoldSchedule)
    requires
        w.entry.recursive_folds.len() + 2 <= usize::MAX,
        w.grouped() ==> w.precommitted_openings() == s.root.params@.precommitted_groups,
        root_expands(w.rules, w.policy, w.entry, w.key, s),
        levels_are_the_rows(w.rules, w.policy, w.entry, w.key, s),
        witnesses_chain(s, w.key.final_group.num_vars),
    ensures
        w.root_level() == Some(level_of(s.root)),
{
    reveal(root_expands);
    reveal(Walk::root_level);
    lemma_chunk_of(w, s.root.params@, w.entry.root.core.witness_chunks);
}

proof fn lemma_standing_fold<R: ScheduleRules>(w: Walk<R>, s: PlannedFoldSchedule, k: int)
    requires
        w.entry.recursive_folds.len() + 2 <= usize::MAX,
        0 <= k < w.entry.recursive_folds.len(),
        fold_expands(
            w.rules,
            w.policy,
            w.entry.recursive_folds[k],
            k,
            s.recursive_folds@[k],
        ),
        levels_are_the_rows(w.rules, w.policy, w.entry, w.key, s),
    ensures
        w.fold_level(k, s.recursive_folds@[k].input_witness_len) == Some(
            level_of(s.recursive_folds@[k]),
        ),
{
    reveal(fold_expands);
    reveal(Walk::fold_level);
    let step = s.recursive_folds@[k];
    lemma_chunk_of(w, step.params@, w.entry.recursive_folds[k].core.witness_chunks);
}

proof fn lemma_standing_levels<R: ScheduleRules>(w: Walk<R>, s: PlannedFoldSchedule, n: nat)
    requires
        w.entry.recursive_folds.len() + 2 <= usize::MAX,
        n <= w.entry.recursive_folds.len(),
        stands_for(w.rules, w.policy, w.entry, w.key, s),
        w.grouped() ==> w.precommitted_openings() == s.root.params@.precommitted_groups,
    ensures
        w.levels(n) == Some(Seq::new(n + 1, |i: int| level_of(step_of(s, i)))),
    decreases n,
{
    let all = Seq::new(n + 1, |i: int| level_of(step_of(s, i)));
    if n == 0 {
        lemma_standing_root(w, s);
        assert(step_of(s, 0) == s.root);
        assert(all =~= seq![level_of(s.root)]);
    } else {
        lemma_standing_levels(w, s, (n - 1) as nat);
        assert(fold_expands(
            w.rules,
            w.policy,
            w.entry.recursive_folds[n - 1],
            n - 1,
            s.recursive_folds@[n - 1],
        ));
        lemma_standing_fold(w, s, n - 1);
        assert(step_of(s, n as int) == s.recursive_folds@[n - 1]);
        let before = Seq::new(n as nat, |i: int| level_of(step_of(s, i)));
        assert(before.last() == level_of(step_of(s, n - 1)));
        assert(step_of(s, n as int).input_witness_len == step_of(s, n - 1).output_witness_len);
        assert(before.push(level_of(step_of(s, n as int))) =~= all);
    }
}

proof fn lemma_standing_terminal<R: ScheduleRules>(w: Walk<R>, s: PlannedFoldSchedule)
    requires
        s.recursive_folds@.len() == w.num_folds(),
        w.all_levels().last().output_len == s.terminal.input_witness_len,
        terminal_expands(w.rules, w.policy, w.entry, s),
    ensures
        w.terminal_derivation().admitted(),
        w.terminal() == s.terminal.params,
        s.terminal.params.blocks.live_blocks * s.terminal.params.inner.matrix.output_rank
            <= usize::MAX,
{
    reveal(terminal_expands);
}

proof fn lemma_standing_payload<R: ScheduleRules>(w: Walk<R>, s: PlannedFoldSchedule, i: int)
    requires
        w.all_levels() == Seq::new(
            w.num_folds() + 1,
            |i: int| level_of(step_of(s, i)),
        ),
        w.terminal() == s.terminal.params,
        s.recursive_folds@.len() == w.num_folds(),
        0 <= i <= w.num_folds(),
    ensures
        w.payload(i) == step_payload(w.rules, w.key, s, i),
    decreases i,
{
    if i > 0 {
        lemma_standing_payload(w, s, i - 1);
    }
    assert(w.all_levels()[i] == level_of(step_of(s, i)));
    if i < w.num_folds() {
        assert(w.all_levels()[i + 1] == level_of(step_of(s, i + 1)));
    }
}

proof fn lemma_standing_sums<R: ScheduleRules>(w: Walk<R>, s: PlannedFoldSchedule, n: int)
    requires
        w.all_levels() == Seq::new(
            w.num_folds() + 1,
            |i: int| level_of(step_of(s, i)),
        ),
        w.terminal() == s.terminal.params,
        s.recursive_folds@.len() == w.num_folds(),
        costs_are_ruled(w.rules, w.policy, w.key, s),
        0 <= n <= w.num_folds() + 1,
    ensures
        w.level_bytes(n) == step_bytes(s, n),
        w.setup_fields(n) == step_setup(w.rules, s, n),
        step_bytes(s, n) >= 0,
    decreases n,
{
    if n > 0 {
        lemma_standing_sums(w, s, n - 1);
        lemma_standing_payload(w, s, n - 1);
        assert(w.all_levels()[n - 1] == level_of(step_of(s, n - 1)));
        assert(step_payload(w.rules, w.key, s, n - 1) is Some);
    }
}

proof fn lemma_standing_schedules<R: ScheduleRules>(w: Walk<R>, s: PlannedFoldSchedule)
    requires
        w.entry.recursive_folds.len() + 2 <= usize::MAX,
        stands_for(w.rules, w.policy, w.entry, w.key, s),
    ensures
        w.expands(),
        w.priced(),
        w.schedule_is(s),
{
    let n = w.num_folds() as int;
    lemma_standing_key(w, s);
    lemma_standing_levels(w, s, w.num_folds());
    let levels = Seq::new(w.num_folds() + 1, |i: int| level_of(step_of(s, i)));
    assert(w.all_levels() == levels);
    assert(levels.last() == level_of(step_of(s, n)));
    lemma_standing_terminal(w, s);
    let group = s.terminal.response_shape.groups@[0];
    assert(w.response_group() == group);
    assert(s.terminal.response_shape.groups@ =~= seq![w.response_group()]);
    assert(w.response_fits());
    assert forall|i: int| 0 <= i <= w.num_folds() implies #[trigger] w.payload(i) is Some by {
        lemma_standing_payload(w, s, i);
        assert(step_payload(w.rules, w.key, s, i) is Some);
    }
    lemma_standing_payload(w, s, n);
    lemma_standing_sums(w, s, n + 1);
    let same = Seq::new(
        (n + 1) as nat,
        |i: int|
            LevelModel {
                params: step_of(s, i).params@,
                input_len: step_of(s, i).input_witness_len,
                output_len: step_of(s, i).output_witness_len,
            },
    );
    assert(same =~= levels);
    assert(w.grinding() == Some(s.grinding));
    let bits = s.grinding.total_nonce_bits as int;
    assert(checked::ceil_div(bits, 8) == (bits + 7) / 8);
    assert forall|i: int| 0 <= i <= n implies #[trigger] w.step_is(step_of(s, i), i) by {
        lemma_standing_payload(w, s, i);
        assert(w.all_levels()[i] == level_of(step_of(s, i)));
        assert(step_payload(w.rules, w.key, s, i) is Some);
    }
    assert(w.step_is(step_of(s, 0), 0));
    assert forall|i: int| 0 <= i < w.num_folds() implies w.step_is(
        #[trigger] s.recursive_folds@[i],
        i + 1,
    ) by {
        assert(w.step_is(step_of(s, i + 1), i + 1));
    }
}

} // verus!
