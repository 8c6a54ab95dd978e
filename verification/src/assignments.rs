//! Assignments of candidates to groups.
//!
//! Groups that share a profile and a policy are interchangeable: of the
//! assignments that differ by a permutation among them, only the one that
//! follows the order of the candidates is kept.

use crate::params::{GroupCommitPhaseParams, HonestFoldPolicySpec};
use vstd::prelude::*;

verus! {

/// The contents of a list of lists.
pub open spec fn views<T>(lists: Seq<Vec<T>>) -> Seq<Seq<T>> {
    lists.map_values(|v: Vec<T>| v@)
}

/// Every list with the same first element put in front.
pub open spec fn prepend<T>(first: T, lists: Seq<Seq<T>>) -> Seq<Seq<T>> {
    lists.map_values(|s: Seq<T>| seq![first] + s)
}

/// All lists of `width` elements of the domain from `minimum` on whose
/// positions in it do not decrease, in lexicographic order of the positions.
pub open spec fn nondecreasing<T>(domain: Seq<T>, width: nat, minimum: nat) -> Seq<Seq<T>>
    decreases width, domain.len() - minimum,
{
    if width == 0 {
        seq![Seq::empty()]
    } else if minimum >= domain.len() {
        Seq::empty()
    } else {
        prepend(
            domain[minimum as int],
            nondecreasing(domain, (width - 1) as nat, minimum),
        ) + nondecreasing(domain, width, minimum + 1)
    }
}

/// The positions of a domain of `n` elements.
pub open spec fn positions(n: nat) -> Seq<int> {
    Seq::new(n, |i: int| i)
}

/// Whether a list of positions does not decrease and stays from `minimum` on.
pub open spec fn is_nondecreasing(s: Seq<int>, n: nat, minimum: nat) -> bool {
    &&& forall|i: int| 0 <= i < s.len() ==> minimum <= #[trigger] s[i] < n
    &&& forall|i: int, j: int| 0 <= i <= j < s.len() ==> s[i] <= s[j]
}

/// Whether a list of positions comes before another of the same length.
pub open spec fn precedes(a: Seq<int>, b: Seq<int>) -> bool
    decreases a.len(),
{
    if a.len() == 0 || b.len() == 0 {
        false
    } else if a[0] != b[0] {
        a[0] < b[0]
    } else {
        precedes(a.drop_first(), b.drop_first())
    }
}

// ---------------------------------------------------------------------------
// Laws
// ---------------------------------------------------------------------------

/// Every selection of candidates with repetition is among the assignments, as
/// the list of its positions in order; and nothing else is.
pub proof fn law_assignments_complete(n: nat, width: nat, minimum: nat, s: Seq<int>)
    ensures
        nondecreasing(positions(n), width, minimum).contains(s) <==> s.len() == width
            && is_nondecreasing(s, n, minimum),
    decreases width, n - minimum,
{
    let domain = positions(n);
    let all = nondecreasing(domain, width, minimum);
    if width == 0 {
        if s.len() == 0 {
            assert(s =~= Seq::<int>::empty());
            assert(all[0] == s);
        }
    } else if minimum < n {
        let shorter = nondecreasing(domain, (width - 1) as nat, minimum);
        let head = prepend(domain[minimum as int], shorter);
        let tail = nondecreasing(domain, width, minimum + 1);
        assert(all == head + tail);
        law_assignments_complete(n, width, minimum + 1, s);
        if s.len() > 0 {
            law_assignments_complete(n, (width - 1) as nat, minimum, s.drop_first());
        }
        if all.contains(s) {
            let k = choose|k: int| 0 <= k < all.len() && all[k] == s;
            if k < head.len() {
                assert(s == seq![minimum as int] + shorter[k]);
                assert(s.drop_first() =~= shorter[k]);
                assert(shorter.contains(s.drop_first()));
                assert forall|i: int| 0 <= i < s.len() implies minimum <= #[trigger] s[i] < n by {
                    if i > 0 {
                        assert(s[i] == s.drop_first()[i - 1]);
                    }
                }
                assert forall|i: int, j: int| 0 <= i <= j < s.len() implies s[i] <= s[j] by {
                    if i > 0 {
                        assert(s[i] == s.drop_first()[i - 1]);
                        assert(s[j] == s.drop_first()[j - 1]);
                    }
                }
            } else {
                assert(tail[k - head.len()] == s);
                assert(tail.contains(s));
            }
        }
        if s.len() == width && is_nondecreasing(s, n, minimum) {
            if s[0] == minimum {
                let rest = s.drop_first();
                assert forall|i: int| 0 <= i < rest.len() implies minimum <= #[trigger] rest[i]
                    < n by {
                    assert(rest[i] == s[i + 1]);
                }
                assert forall|i: int, j: int| 0 <= i <= j < rest.len() implies rest[i]
                    <= rest[j] by {
                    assert(s[i + 1] <= s[j + 1]);
                }
                let k = choose|k: int| 0 <= k < shorter.len() && shorter[k] == rest;
                assert(seq![minimum as int] + rest =~= s);
                assert(all[k] == s);
            } else {
                assert forall|i: int| 0 <= i < s.len() implies minimum + 1 <= #[trigger] s[i]
                    < n by {
                    assert(s[0] <= s[i]);
                }
                let k = choose|k: int| 0 <= k < tail.len() && tail[k] == s;
                assert(all[head.len() + k] == s);
            }
        }
    } else {
        if s.len() == width && is_nondecreasing(s, n, minimum) {
            assert(minimum <= s[0] < n);
        }
    }
}

/// The assignments stand in strict lexicographic order, so that none occurs
/// twice.
pub proof fn law_assignments_ordered(n: nat, width: nat, minimum: nat, i: int, j: int)
    requires
        0 <= i < j < nondecreasing(positions(n), width, minimum).len(),
    ensures
        precedes(
            nondecreasing(positions(n), width, minimum)[i],
            nondecreasing(positions(n), width, minimum)[j],
        ),
    decreases width, n - minimum,
{
    let domain = positions(n);
    let all = nondecreasing(domain, width, minimum);
    if width > 0 && minimum < n {
        let shorter = nondecreasing(domain, (width - 1) as nat, minimum);
        let head = prepend(domain[minimum as int], shorter);
        let tail = nondecreasing(domain, width, minimum + 1);
        assert(all == head + tail);
        if j < head.len() {
            law_assignments_ordered(n, (width - 1) as nat, minimum, i, j);
            assert(all[i].drop_first() =~= shorter[i]);
            assert(all[j].drop_first() =~= shorter[j]);
        } else if i >= head.len() {
            law_assignments_ordered(n, width, minimum + 1, i - head.len(), j - head.len());
        } else {
            let k = j - head.len();
            assert(tail.contains(tail[k]));
            law_assignments_complete(n, width, minimum + 1, tail[k]);
            assert(all[j] == tail[k]);
            assert(all[i][0] == minimum);
        }
    }
}

/// The assignments of a domain are those of its positions, looked up in it.
pub proof fn law_assignments_by_position<T>(domain: Seq<T>, width: nat, minimum: nat)
    ensures
        nondecreasing(domain, width, minimum) == nondecreasing(
            positions(domain.len()),
            width,
            minimum,
        ).map_values(|s: Seq<int>| s.map_values(|i: int| domain[i])),
    decreases width, domain.len() - minimum,
{
    let look_up = |s: Seq<int>| s.map_values(|i: int| domain[i]);
    let all = nondecreasing(domain, width, minimum);
    let by_position = nondecreasing(positions(domain.len()), width, minimum);
    if width == 0 {
        assert(look_up(Seq::<int>::empty()) =~= Seq::<T>::empty());
        assert(all =~= by_position.map_values(look_up));
    } else if minimum < domain.len() {
        law_assignments_by_position(domain, (width - 1) as nat, minimum);
        law_assignments_by_position(domain, width, minimum + 1);
        let shorter = nondecreasing(domain, (width - 1) as nat, minimum);
        let short_positions = nondecreasing(
            positions(domain.len()),
            (width - 1) as nat,
            minimum,
        );
        let first = domain[minimum as int];
        assert forall|k: int| 0 <= k < shorter.len() implies #[trigger] prepend(first, shorter)[k]
            == look_up(prepend(minimum as int, short_positions)[k]) by {
            assert(seq![first] + look_up(short_positions[k]) =~= look_up(
                seq![minimum as int] + short_positions[k],
            ));
        }
        assert(all =~= by_position.map_values(look_up));
    } else {
        assert(all =~= by_position.map_values(look_up));
    }
}

// ---------------------------------------------------------------------------
// Executable assignments
// ---------------------------------------------------------------------------

/// A copy of a list.
pub fn copy_list<T: Copy>(list: &Vec<T>) -> (r: Vec<T>)
    ensures
        r@ == list@,
{
    let mut copy: Vec<T> = Vec::new();
    let mut k: usize = 0;
    while k < list.len()
        invariant
            k <= list@.len(),
            copy@ == list@.take(k as int),
        decreases list@.len() - k,
    {
        copy.push(list[k]);
        proof {
            assert(list@.take(k + 1) =~= list@.take(k as int).push(list@[k as int]));
        }
        k += 1;
    }
    assert(copy@ =~= list@);
    copy
}

/// Every list behind the same prefix.
pub open spec fn behind<T>(prefix: Seq<T>, lists: Seq<Seq<T>>) -> Seq<Seq<T>> {
    lists.map_values(|s: Seq<T>| prefix + s)
}

fn extend<T: Copy>(
    domain: &Vec<T>,
    width: usize,
    minimum: usize,
    prefix: &mut Vec<T>,
    output: &mut Vec<Vec<T>>,
)
    requires
        old(prefix)@.len() <= width,
        minimum <= domain@.len(),
    ensures
        final(prefix)@ == old(prefix)@,
        views(final(output)@) == views(old(output)@) + behind(
            old(prefix)@,
            nondecreasing(domain@, (width - old(prefix)@.len()) as nat, minimum as nat),
        ),
    decreases width - old(prefix)@.len(),
{
    let ghost start = prefix@;
    let ghost left = (width - start.len()) as nat;
    if prefix.len() == width {
        let ghost before = output@;
        let done = copy_list(prefix);
        output.push(done);
        proof {
            assert(start + Seq::<T>::empty() =~= start);
            assert(behind(start, nondecreasing(domain@, 0, minimum as nat)) =~= seq![start]);
            assert(views(output@) =~= views(before) + seq![start]);
        }
        return ;
    }
    let ghost before = views(output@);
    let mut index: usize = minimum;
    proof {
        assert(before + behind(start, nondecreasing(domain@, left, minimum as nat))
            =~= views(output@) + behind(start, nondecreasing(domain@, left, index as nat)));
    }
    while index < domain.len()
        invariant
            minimum <= index <= domain@.len(),
            prefix@ == start,
            start.len() < width,
            left == width - start.len(),
            start == old(prefix)@,
            before + behind(start, nondecreasing(domain@, left, minimum as nat)) == views(output@)
                + behind(start, nondecreasing(domain@, left, index as nat)),
        decreases domain@.len() - index,
    {
        let ghost so_far = views(output@);
        prefix.push(domain[index]);
        let ghost longer = start.push(domain@[index as int]);
        extend(domain, width, index, prefix, output);
        prefix.pop();
        proof {
            let shorter = nondecreasing(domain@, (left - 1) as nat, index as nat);
            let rest = nondecreasing(domain@, left, (index + 1) as nat);
            let first = domain@[index as int];
            assert forall|k: int| 0 <= k < shorter.len() implies #[trigger] behind(
                start,
                prepend(first, shorter),
            )[k] == behind(longer, shorter)[k] by {
                assert(start + (seq![first] + shorter[k]) =~= longer + shorter[k]);
            }
            assert(behind(start, prepend(first, shorter)) =~= behind(longer, shorter));
            assert(behind(start, prepend(first, shorter) + rest) =~= behind(longer, shorter)
                + behind(start, rest));
            assert(so_far + (behind(longer, shorter) + behind(start, rest)) =~= (so_far + behind(
                longer,
                shorter,
            )) + behind(start, rest));
            assert(prefix@ =~= start);
        }
        index += 1;
    }
    proof {
        assert(behind(start, nondecreasing(domain@, left, index as nat)) =~= Seq::empty());
        assert(views(output@) + Seq::<Seq<T>>::empty() =~= views(output@));
    }
}

/// Canonical assignments for interchangeable groups: every selection of
/// candidates with repetition, once.
pub fn nondecreasing_opening_assignments<T: Copy>(domain: &Vec<T>, width: usize) -> (r: Vec<Vec<T>>)
    ensures
        views(r@) == nondecreasing(domain@, width as nat, 0),
{
    let mut output: Vec<Vec<T>> = Vec::new();
    let mut prefix: Vec<T> = Vec::new();
    extend(domain, width, 0, &mut prefix, &mut output);
    proof {
        let all = nondecreasing(domain@, width as nat, 0);
        assert forall|k: int| 0 <= k < all.len() implies #[trigger] behind(
            Seq::empty(),
            all,
        )[k] == all[k] by {
            assert(Seq::<T>::empty() + all[k] =~= all[k]);
        }
        assert(views(output@) =~= all);
    }
    output
}

// ---------------------------------------------------------------------------
// Interchangeable groups
// ---------------------------------------------------------------------------

/// Whether two groups share their profile and their policy.
pub open spec fn interchangeable(
    profiles: Seq<GroupCommitPhaseParams>,
    policies: Seq<HonestFoldPolicySpec>,
    i: int,
    j: int,
) -> bool {
    profiles[i] == profiles[j] && policies[i] == policies[j]
}

/// Whether no earlier group is interchangeable with this one.
pub open spec fn is_first(
    profiles: Seq<GroupCommitPhaseParams>,
    policies: Seq<HonestFoldPolicySpec>,
    i: int,
) -> bool {
    forall|j: int| 0 <= j < i ==> !#[trigger] interchangeable(profiles, policies, j, i)
}

/// The groups below `n` that are interchangeable with group `i`, in order.
pub open spec fn members(
    profiles: Seq<GroupCommitPhaseParams>,
    policies: Seq<HonestFoldPolicySpec>,
    i: int,
    n: nat,
) -> Seq<usize>
    decreases n,
{
    if n == 0 {
        Seq::empty()
    } else {
        let before = members(profiles, policies, i, (n - 1) as nat);
        if interchangeable(profiles, policies, i, n - 1) {
            before.push((n - 1) as usize)
        } else {
            before
        }
    }
}

/// The classes of interchangeable groups whose first member is below `n`, by
/// their first members.
pub open spec fn classes(
    profiles: Seq<GroupCommitPhaseParams>,
    policies: Seq<HonestFoldPolicySpec>,
    n: nat,
) -> Seq<Seq<usize>>
    decreases n,
{
    if n == 0 {
        Seq::empty()
    } else {
        let before = classes(profiles, policies, (n - 1) as nat);
        if is_first(profiles, policies, n - 1) {
            before.push(members(profiles, policies, n - 1, profiles.len()))
        } else {
            before
        }
    }
}

/// The members of a class are the interchangeable groups, each once and in
/// order.
pub proof fn lemma_members(
    profiles: Seq<GroupCommitPhaseParams>,
    policies: Seq<HonestFoldPolicySpec>,
    i: int,
    n: nat,
)
    requires
        n <= usize::MAX,
    ensures
        forall|k: int|
            0 <= k < members(profiles, policies, i, n).len() ==> #[trigger] members(
                profiles,
                policies,
                i,
                n,
            )[k] < n && interchangeable(
                profiles,
                policies,
                i,
                members(profiles, policies, i, n)[k] as int,
            ),
        forall|j: int, k: int|
            0 <= j < k < members(profiles, policies, i, n).len() ==> members(
                profiles,
                policies,
                i,
                n,
            )[j] < members(profiles, policies, i, n)[k],
        forall|m: usize|
            m < n && interchangeable(profiles, policies, i, m as int) ==> #[trigger] members(
                profiles,
                policies,
                i,
                n,
            ).contains(m),
    decreases n,
{
    if n > 0 {
        lemma_members(profiles, policies, i, (n - 1) as nat);
        let before = members(profiles, policies, i, (n - 1) as nat);
        let all = members(profiles, policies, i, n);
        assert forall|m: usize|
            m < n && interchangeable(profiles, policies, i, m as int) implies #[trigger] all.contains(
        m) by {
            if m < n - 1 {
                assert(before.contains(m));
                let k = choose|k: int| 0 <= k < before.len() && before[k] == m;
                assert(all[k] == m);
            } else {
                assert(all[before.len() as int] == m);
            }
        }
    }
}

/// Every class below `n` starts with its first member and lists all groups that
/// are interchangeable with it.
pub proof fn lemma_class(
    profiles: Seq<GroupCommitPhaseParams>,
    policies: Seq<HonestFoldPolicySpec>,
    n: nat,
    c: int,
)
    requires
        n <= profiles.len() <= usize::MAX,
        0 <= c < classes(profiles, policies, n).len(),
    ensures
        ({
            let class = classes(profiles, policies, n)[c];
            &&& 0 < class.len() <= profiles.len()
            &&& class[0] < n
            &&& is_first(profiles, policies, class[0] as int)
            &&& class == members(profiles, policies, class[0] as int, profiles.len())
        }),
    decreases n,
{
    if n > 0 {
        let before = classes(profiles, policies, (n - 1) as nat);
        if c < before.len() {
            lemma_class(profiles, policies, (n - 1) as nat, c);
        } else {
            let i = n - 1;
            lemma_members(profiles, policies, i, profiles.len());
            let class = members(profiles, policies, i, profiles.len());
            assert(class.contains(i as usize));
            let k = choose|k: int| 0 <= k < class.len() && class[k] == i;
            if k > 0 {
                assert(class[0] < class[k]);
                assert(interchangeable(profiles, policies, i, class[0] as int));
                assert(interchangeable(profiles, policies, class[0] as int, i));
            }
            lemma_members_short(profiles, policies, i, profiles.len());
        }
    }
}

proof fn lemma_members_short(
    profiles: Seq<GroupCommitPhaseParams>,
    policies: Seq<HonestFoldPolicySpec>,
    i: int,
    n: nat,
)
    ensures
        members(profiles, policies, i, n).len() <= n,
    decreases n,
{
    if n > 0 {
        lemma_members_short(profiles, policies, i, (n - 1) as nat);
    }
}

/// The first group that is interchangeable with a group.
proof fn lemma_first_of(
    profiles: Seq<GroupCommitPhaseParams>,
    policies: Seq<HonestFoldPolicySpec>,
    i: int,
) -> (first: int)
    requires
        0 <= i,
    ensures
        0 <= first <= i,
        is_first(profiles, policies, first),
        interchangeable(profiles, policies, first, i),
    decreases i,
{
    if is_first(profiles, policies, i) {
        i
    } else {
        let j = choose|j: int|
            0 <= j < i && #[trigger] interchangeable(profiles, policies, j, i);
        lemma_first_of(profiles, policies, j)
    }
}

proof fn lemma_first_has_class(
    profiles: Seq<GroupCommitPhaseParams>,
    policies: Seq<HonestFoldPolicySpec>,
    n: nat,
    i: int,
) -> (c: int)
    requires
        0 <= i < n,
        is_first(profiles, policies, i),
    ensures
        0 <= c < classes(profiles, policies, n).len(),
        classes(profiles, policies, n)[c] == members(profiles, policies, i, profiles.len()),
    decreases n,
{
    if i == n - 1 {
        classes(profiles, policies, (n - 1) as nat).len() as int
    } else {
        lemma_first_has_class(profiles, policies, (n - 1) as nat, i)
    }
}

/// Every group is in a class, and two groups are in the same class exactly when
/// they are interchangeable.
pub proof fn law_classes_partition(
    profiles: Seq<GroupCommitPhaseParams>,
    policies: Seq<HonestFoldPolicySpec>,
    i: usize,
    j: usize,
)
    requires
        i < profiles.len(),
        j < profiles.len(),
        profiles.len() == policies.len(),
        profiles.len() <= usize::MAX,
    ensures
        exists|c: int|
            0 <= c < classes(profiles, policies, profiles.len()).len() && #[trigger] classes(
                profiles,
                policies,
                profiles.len(),
            )[c].contains(i),
        interchangeable(profiles, policies, i as int, j as int) <==> exists|c: int|
            0 <= c < classes(profiles, policies, profiles.len()).len() && (#[trigger] classes(
                profiles,
                policies,
                profiles.len(),
            )[c]).contains(i) && classes(profiles, policies, profiles.len())[c].contains(j),
{
    let all = classes(profiles, policies, profiles.len());
    let first = lemma_first_of(profiles, policies, i as int);
    let c = lemma_first_has_class(profiles, policies, profiles.len(), first);
    lemma_members(profiles, policies, first, profiles.len());
    assert(all[c].contains(i));
    if interchangeable(profiles, policies, i as int, j as int) {
        assert(interchangeable(profiles, policies, first, j as int));
        assert(all[c].contains(j));
    }
    if exists|c: int|
        0 <= c < all.len() && (#[trigger] all[c]).contains(i) && all[c].contains(j) {
        let c = choose|c: int|
            0 <= c < all.len() && (#[trigger] all[c]).contains(i) && all[c].contains(j);
        lemma_class(profiles, policies, profiles.len(), c);
        let head = all[c][0] as int;
        lemma_members(profiles, policies, head, profiles.len());
        assert(interchangeable(profiles, policies, head, i as int));
        assert(interchangeable(profiles, policies, head, j as int));
    }
}

/// Whether a group is the first of its kind.
fn check_first(
    profiles: &Vec<GroupCommitPhaseParams>,
    policies: &Vec<HonestFoldPolicySpec>,
    i: usize,
) -> (b: bool)
    requires
        profiles@.len() == policies@.len(),
        i < profiles@.len(),
    ensures
        b == is_first(profiles@, policies@, i as int),
{
    let mut j: usize = 0;
    while j < i
        invariant
            profiles@.len() == policies@.len(),
            j <= i < profiles@.len(),
            forall|m: int|
                0 <= m < j ==> !#[trigger] interchangeable(profiles@, policies@, m, i as int),
        decreases i - j,
    {
        if profiles[j] == profiles[i] && policies[j] == policies[i] {
            assert(interchangeable(profiles@, policies@, j as int, i as int));
            return false;
        }
        j += 1;
    }
    true
}

/// The classes of interchangeable groups.
pub fn precommitted_group_equivalence_classes(
    profiles: &Vec<GroupCommitPhaseParams>,
    policies: &Vec<HonestFoldPolicySpec>,
) -> (r: Vec<Vec<usize>>)
    requires
        profiles@.len() == policies@.len(),
    ensures
        views(r@) == classes(profiles@, policies@, profiles@.len()),
{
    let mut all: Vec<Vec<usize>> = Vec::new();
    let n: usize = profiles.len();
    let mut i: usize = 0;
    assert(views(all@) =~= Seq::empty());
    while i < n
        invariant
            n == profiles@.len(),
            profiles@.len() == policies@.len(),
            i <= n,
            views(all@) == classes(profiles@, policies@, i as nat),
        decreases n - i,
    {
        if check_first(profiles, policies, i) {
            let mut class: Vec<usize> = Vec::new();
            let mut j: usize = 0;
            while j < n
                invariant
                    n == profiles@.len(),
                    profiles@.len() == policies@.len(),
                    i < n,
                    j <= n,
                    class@ == members(profiles@, policies@, i as int, j as nat),
                decreases n - j,
            {
                if profiles[i] == profiles[j] && policies[i] == policies[j] {
                    class.push(j);
                }
                j += 1;
            }
            let ghost before = all@;
            let ghost class_view = class@;
            all.push(class);
            assert(views(all@) =~= views(before).push(class_view));
        }
        i += 1;
    }
    all
}

// ---------------------------------------------------------------------------
// Products over the classes
// ---------------------------------------------------------------------------

/// A partial assignment with the first `k` groups of a class filled in.
pub open spec fn filled<T>(
    product: Seq<Option<T>>,
    indices: Seq<usize>,
    assignment: Seq<T>,
    k: nat,
) -> Seq<Option<T>>
    decreases k,
{
    if k == 0 {
        product
    } else {
        filled(product, indices, assignment, (k - 1) as nat).update(
            indices[k - 1] as int,
            Some(assignment[k - 1]),
        )
    }
}

/// A partial assignment with every assignment of a class.
pub open spec fn fanned<T>(
    product: Seq<Option<T>>,
    indices: Seq<usize>,
    assignments: Seq<Seq<T>>,
) -> Seq<Seq<Option<T>>> {
    assignments.map_values(|a: Seq<T>| filled(product, indices, a, indices.len()))
}

/// The first `n` partial assignments with every assignment of a class.
pub open spec fn crossed<T>(
    products: Seq<Seq<Option<T>>>,
    indices: Seq<usize>,
    assignments: Seq<Seq<T>>,
    n: nat,
) -> Seq<Seq<Option<T>>>
    decreases n,
{
    if n == 0 {
        Seq::empty()
    } else {
        crossed(products, indices, assignments, (n - 1) as nat) + fanned(
            products[n - 1],
            indices,
            assignments,
        )
    }
}

/// Lists with every element present.
pub open spec fn complete<T>(lists: Seq<Seq<Option<T>>>) -> Seq<Seq<T>> {
    lists.map_values(|s: Seq<Option<T>>| s.map_values(|x: Option<T>| x->0))
}

/// Filling in a class leaves its groups present and the others as they were.
pub proof fn lemma_filled<T>(
    product: Seq<Option<T>>,
    indices: Seq<usize>,
    assignment: Seq<T>,
    k: nat,
)
    requires
        k <= indices.len(),
        forall|i: int| 0 <= i < indices.len() ==> #[trigger] indices[i] < product.len(),
    ensures
        filled(product, indices, assignment, k).len() == product.len(),
        forall|m: int|
            0 <= m < product.len() && product[m] is Some ==> #[trigger] filled(
                product,
                indices,
                assignment,
                k,
            )[m] is Some,
        forall|i: int|
            0 <= i < k ==> filled(
                product,
                indices,
                assignment,
                k,
            )[#[trigger] indices[i] as int] is Some,
    decreases k,
{
    if k > 0 {
        lemma_filled(product, indices, assignment, (k - 1) as nat);
    }
}

/// Every partial assignment with every assignment of a class.
pub fn cross<T: Copy>(
    products: &Vec<Vec<Option<T>>>,
    indices: &Vec<usize>,
    assignments: &Vec<Vec<T>>,
) -> (r: Vec<Vec<Option<T>>>)
    requires
        forall|p: int, i: int|
            0 <= p < products@.len() && 0 <= i < indices@.len() ==> #[trigger] indices@[i]
                < (#[trigger] products@[p])@.len(),
        forall|a: int|
            0 <= a < assignments@.len() ==> (#[trigger] assignments@[a])@.len() >= indices@.len(),
    ensures
        views(r@) == crossed(
            views(products@),
            indices@,
            views(assignments@),
            products@.len(),
        ),
{
    let mut next: Vec<Vec<Option<T>>> = Vec::new();
    let ghost lists = views(products@);
    let ghost choices = views(assignments@);
    assert(views(next@) =~= Seq::empty());
    let mut p: usize = 0;
    while p < products.len()
        invariant
            p <= products@.len(),
            lists == views(products@),
            choices == views(assignments@),
            forall|p: int, i: int|
                0 <= p < products@.len() && 0 <= i < indices@.len() ==> #[trigger] indices@[i]
                    < (#[trigger] products@[p])@.len(),
            forall|a: int|
                0 <= a < assignments@.len() ==> (#[trigger] assignments@[a])@.len()
                    >= indices@.len(),
            views(next@) == crossed(lists, indices@, choices, p as nat),
        decreases products@.len() - p,
    {
        let ghost done = views(next@);
        let ghost fan = fanned(lists[p as int], indices@, choices);
        let mut a: usize = 0;
        assert(fan.take(0) =~= Seq::empty());
        while a < assignments.len()
            invariant
                p < products@.len(),
                a <= assignments@.len(),
                lists == views(products@),
                choices == views(assignments@),
                fan == fanned(lists[p as int], indices@, choices),
                forall|i: int|
                    0 <= i < indices@.len() ==> #[trigger] indices@[i] < products@[p as int]@.len(),
                forall|a: int|
                    0 <= a < assignments@.len() ==> (#[trigger] assignments@[a])@.len()
                        >= indices@.len(),
                views(next@) == done + fan.take(a as int),
            decreases assignments@.len() - a,
        {
            let mut extended = copy_list(&products[p]);
            let assignment = &assignments[a];
            let mut k: usize = 0;
            while k < indices.len()
                invariant
                    p < products@.len(),
                    k <= indices@.len(),
                    lists == views(products@),
                    assignment@.len() >= indices@.len(),
                    forall|i: int|
                        0 <= i < indices@.len() ==> #[trigger] indices@[i]
                            < products@[p as int]@.len(),
                    extended@.len() == products@[p as int]@.len(),
                    extended@ == filled(lists[p as int], indices@, assignment@, k as nat),
                decreases indices@.len() - k,
            {
                extended.set(indices[k], Some(assignment[k]));
                k += 1;
            }
            let ghost before = next@;
            let ghost last = extended@;
            next.push(extended);
            proof {
                assert(fan[a as int] == last);
                assert(fan.take(a + 1) =~= fan.take(a as int).push(last));
                assert(views(next@) =~= views(before).push(last));
                assert(views(next@) =~= done + fan.take(a + 1));
            }
            a += 1;
        }
        assert(fan.take(a as int) =~= fan);
        p += 1;
    }
    next
}

} // verus!
