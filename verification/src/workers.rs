//! Offline planning: how many workers run, and how their results are put back
//! in order.

use crate::error;
use vstd::multiset::Multiset;
use vstd::prelude::*;

verus! {

/// The number of workers where none is configured. The search is bound by
/// memory, so it stays below the parallelism of the machine.
pub const DEFAULT_OFFLINE_PLANNING_WORKERS: usize = 3;

/// The number of workers asked for: the configured one where it is positive.
pub open spec fn wanted_workers(configured: Option<usize>) -> usize {
    match configured {
        Some(n) => if n > 0 {
            n
        } else {
            DEFAULT_OFFLINE_PLANNING_WORKERS
        },
        None => DEFAULT_OFFLINE_PLANNING_WORKERS,
    }
}

/// The smaller of two integers.
pub open spec fn least(a: int, b: int) -> int {
    if a <= b {
        a
    } else {
        b
    }
}

/// The number of workers for so many items: at most what the machine runs at
/// once, what was asked for and what there is to do. A machine that does not
/// say counts as one that runs one thread, and no work as one item.
pub fn offline_planning_worker_count(
    work_items: usize,
    configured: Option<usize>,
    available: Option<usize>,
) -> (n: usize)
    ensures
        n == least(
            least(
                match available {
                    Some(count) => count as int,
                    None => 1,
                },
                wanted_workers(configured) as int,
            ),
            if work_items == 0 {
                1
            } else {
                work_items as int
            },
        ),
{
    let wanted: usize = match configured {
        Some(n) => if n > 0 {
            n
        } else {
            DEFAULT_OFFLINE_PLANNING_WORKERS
        },
        None => DEFAULT_OFFLINE_PLANNING_WORKERS,
    };
    let mut count: usize = match available {
        Some(n) => n,
        None => 1,
    };
    if wanted < count {
        count = wanted;
    }
    let items: usize = if work_items == 0 {
        1
    } else {
        work_items
    };
    if items < count {
        count = items;
    }
    count
}

/// The results that were kept, in order.
pub open spec fn kept<R>(results: Seq<Option<R>>) -> Seq<R>
    decreases results.len(),
{
    if results.len() == 0 {
        Seq::empty()
    } else {
        match results.last() {
            Some(value) => kept(results.drop_last()).push(value),
            None => kept(results.drop_last()),
        }
    }
}

/// The results that were kept, each with its position.
pub open spec fn placed<R>(results: Seq<Option<R>>) -> Seq<(usize, R)>
    decreases results.len(),
{
    if results.len() == 0 {
        Seq::empty()
    } else {
        match results.last() {
            Some(value) => placed(results.drop_last()).push(((results.len() - 1) as usize, value)),
            None => placed(results.drop_last()),
        }
    }
}

/// The values of placed results.
pub open spec fn values<R>(pairs: Seq<(usize, R)>) -> Seq<R> {
    pairs.map_values(|p: (usize, R)| p.1)
}

/// Whether positions do not decrease.
pub open spec fn in_order<R>(pairs: Seq<(usize, R)>) -> bool {
    forall|i: int, j: int| 0 <= i < j < pairs.len() ==> pairs[i].0 <= pairs[j].0
}

/// Whether positions increase.
pub open spec fn increasing<R>(pairs: Seq<(usize, R)>) -> bool {
    forall|i: int, j: int| 0 <= i < j < pairs.len() ==> pairs[i].0 < pairs[j].0
}

/// Whether items were mapped one after the other: to the kept results of all, or
/// to the failure of the first that fails.
pub open spec fn mapped_in_order<T, R, F: Fn(&T) -> Result<Option<R>, String>>(
    map: F,
    items: Seq<T>,
    r: Result<Vec<R>, String>,
) -> bool {
    match r {
        Ok(out) => exists|results: Seq<Option<R>>|
            #![trigger kept(results)]
            results.len() == items.len() && out@ == kept(results) && forall|i: int|
                0 <= i < results.len() ==> call_ensures(
                    map,
                    (&items[i],),
                    Ok::<Option<R>, String>(#[trigger] results[i]),
                ),
        Err(e) => exists|results: Seq<Option<R>>| #[trigger]
            failed_after(map, items, results, e),
    }
}

/// Whether the items before one have results and that one fails.
pub open spec fn failed_after<T, R, F: Fn(&T) -> Result<Option<R>, String>>(
    map: F,
    items: Seq<T>,
    results: Seq<Option<R>>,
    e: String,
) -> bool {
    &&& results.len() < items.len()
    &&& call_ensures(map, (&items[results.len() as int],), Err::<Option<R>, String>(e))
    &&& forall|i: int|
        0 <= i < results.len() ==> call_ensures(
            map,
            (&items[i],),
            Ok::<Option<R>, String>(#[trigger] results[i]),
        )
}

/// The outcome of mapping items one after the other: the kept results, or the
/// first failure.
pub fn filter_map_in_order<T, R, F: Fn(&T) -> Result<Option<R>, String>>(
    items: &[T],
    map: F,
) -> (r: Result<Vec<R>, String>)
    requires
        forall|i: int| 0 <= i < items@.len() ==> call_requires(map, (&#[trigger] items@[i],)),
    ensures
        mapped_in_order(map, items@, r),
{
    let mut out: Vec<R> = Vec::new();
    let ghost mut results: Seq<Option<R>> = Seq::empty();
    let mut k: usize = 0;
    while k < items.len()
        invariant
            k <= items@.len(),
            results.len() == k,
            out@ == kept(results),
            forall|i: int|
                0 <= i < items@.len() ==> call_requires(map, (&#[trigger] items@[i],)),
            forall|i: int|
                0 <= i < k ==> call_ensures(
                    map,
                    (&items@[i],),
                    Ok::<Option<R>, String>(#[trigger] results[i]),
                ),
        decreases items@.len() - k,
    {
        match map(&items[k]) {
            Ok(result) => {
                let ghost before = results;
                proof {
                    results = results.push(result);
                    assert(results.drop_last() =~= before);
                }
                if let Some(value) = result {
                    out.push(value);
                }
            },
            Err(e) => {
                let r: Result<Vec<R>, String> = Err(e);
                proof {
                    assert(failed_after(map, items@, results, r->Err_0));
                    assert(mapped_in_order(map, items@, r));
                }
                return r;
            },
        }
        k += 1;
    }
    Ok(out)
}

/// How a worker ended.
pub enum WorkerOutput<R> {
    /// With results at the positions of their items.
    Finished(Vec<(usize, R)>),
    /// With the failure of one item.
    Failed(String),
    /// Without an answer.
    Panicked,
}

/// A source of positions that several workers may share.
pub trait PositionSource: Sized {
    /// The positions that were drawn through this handle, in order.
    spec fn drawn(&self) -> Seq<usize>;

    /// Draws a position.
    fn next(&mut self) -> (p: usize)
        ensures
            final(self).drawn() == old(self).drawn().push(p),
    ;
}

/// A handle on a function that hands out positions, such as one that advances a
/// shared counter.
pub struct Drawing<N: Fn() -> usize> {
    source: N,
    positions: Ghost<Seq<usize>>,
}

impl<N: Fn() -> usize> Drawing<N> {
    /// The function can be called.
    #[verifier::type_invariant]
    spec fn callable(self) -> bool {
        call_requires(self.source, ())
    }

    /// The function that positions come from.
    pub closed spec fn function(self) -> N {
        self.source
    }

    /// A handle that nothing was drawn through.
    pub fn new(source: N) -> (r: Self)
        requires
            call_requires(source, ()),
        ensures
            r.drawn() == Seq::<usize>::empty(),
            r.function() == source,
    {
        Drawing { source, positions: Ghost(Seq::empty()) }
    }
}

impl<N: Fn() -> usize> PositionSource for Drawing<N> {
    closed spec fn drawn(&self) -> Seq<usize> {
        self.positions@
    }

    fn next(&mut self) -> (p: usize)
        ensures
            call_ensures(old(self).function(), (), p),
            final(self).function() == old(self).function(),
    {
        proof {
            use_type_invariant(&*self);
        }
        let p: usize = (self.source)();
        self.positions = Ghost(self.positions@.push(p));
        p
    }
}

/// The positions that a worker took items at, of those that it drew: all but one
/// past the last item, at which it stops.
pub open spec fn taken_of(drawn: Seq<usize>, n: nat) -> Seq<usize> {
    if drawn.len() > 0 && drawn.last() >= n {
        drawn.drop_last()
    } else {
        drawn
    }
}

/// Whether results are outcomes of a function on the items at some positions.
pub open spec fn mapped<T, R, F: Fn(&T) -> Result<Option<R>, String>>(
    map: F,
    items: Seq<T>,
    taken: Seq<usize>,
    found: Seq<Option<R>>,
) -> bool {
    &&& found.len() == taken.len()
    &&& forall|t: int|
        0 <= t < taken.len() ==> (#[trigger] taken[t]) < items.len() && call_ensures(
            map,
            (&items[taken[t] as int],),
            Ok::<Option<R>, String>(found[t]),
        )
}

/// What a worker makes of the positions that it drew.
///
/// It finishes once it has drawn a position past the last item, or as many
/// positions as there are items, with the results of the items at the positions
/// before. It fails with the first failure, at the last position that it drew.
pub open spec fn ran<T, R, F: Fn(&T) -> Result<Option<R>, String>>(
    map: F,
    items: Seq<T>,
    drawn: Seq<usize>,
    output: WorkerOutput<R>,
) -> bool {
    let taken = taken_of(drawn, items.len());
    match output {
        WorkerOutput::Finished(pairs) => {
            &&& taken.len() < drawn.len() || taken.len() == items.len()
            &&& taken.len() <= items.len()
            &&& exists|found: Seq<Option<R>>|
                mapped(map, items, taken, found) && pairs@ == #[trigger] kept_at(taken, found)
        },
        WorkerOutput::Failed(e) => {
            &&& 0 < drawn.len() <= items.len()
            &&& drawn.last() < items.len()
            &&& call_ensures(
                map,
                (&items[drawn.last() as int],),
                Err::<Option<R>, String>(e),
            )
            &&& exists|found: Seq<Option<R>>| #[trigger]
                mapped(map, items, drawn.drop_last(), found)
        },
        WorkerOutput::Panicked => false,
    }
}

/// What one worker makes of the items at the positions that it draws, up to the
/// first position past the last item. It takes no more items than there are.
pub fn run_worker<T, R, S: PositionSource, F: Fn(&T) -> Result<Option<R>, String>>(
    items: &[T],
    next: &mut S,
    map: F,
) -> (r: WorkerOutput<R>)
    requires
        forall|i: int| 0 <= i < items@.len() ==> call_requires(map, (&#[trigger] items@[i],)),
    ensures
        old(next).drawn().len() <= final(next).drawn().len(),
        final(next).drawn().take(old(next).drawn().len() as int) == old(next).drawn(),
        ran(map, items@, final(next).drawn().skip(old(next).drawn().len() as int), r),
{
    let ghost before = next.drawn();
    let ghost start = before.len() as int;
    let mut pairs: Vec<(usize, R)> = Vec::new();
    let ghost mut taken: Seq<usize> = Seq::empty();
    let ghost mut found: Seq<Option<R>> = Seq::empty();
    let mut turn: usize = 0;
    assert(next.drawn() =~= before + taken);
    while turn < items.len()
        invariant
            turn <= items@.len(),
            before == old(next).drawn(),
            start == before.len(),
            taken.len() == turn,
            next.drawn() == before + taken,
            pairs@ == kept_at(taken, found),
            forall|i: int|
                0 <= i < items@.len() ==> call_requires(map, (&#[trigger] items@[i],)),
            mapped(map, items@, taken, found),
        decreases items@.len() - turn,
    {
        let position: usize = next.next();
        proof {
            assert(next.drawn() =~= before + taken.push(position));
            assert(next.drawn().skip(start) =~= taken.push(position));
            assert(next.drawn().take(start) =~= before);
            assert(taken.push(position).drop_last() =~= taken);
        }
        if position >= items.len() {
            return WorkerOutput::Finished(pairs);
        }
        match map(&items[position]) {
            Ok(result) => {
                proof {
                    let (earlier, found_earlier) = (taken, found);
                    taken = taken.push(position);
                    found = found.push(result);
                    lemma_kept_at_prefix(earlier, found_earlier, found);
                }
                if let Some(value) = result {
                    pairs.push((position, value));
                }
            },
            Err(e) => {
                return WorkerOutput::Failed(e);
            },
        }
        turn += 1;
    }
    proof {
        assert(next.drawn().skip(start) =~= taken);
        assert(next.drawn().take(start) =~= before);
        if taken.len() > 0 {
            assert(taken[taken.len() - 1] < items@.len());
        }
    }
    WorkerOutput::Finished(pairs)
}

/// The results of all workers, one worker after the other.
pub open spec fn gathered<R>(outputs: Seq<WorkerOutput<R>>) -> Seq<(usize, R)>
    decreases outputs.len(),
{
    if outputs.len() == 0 {
        Seq::empty()
    } else {
        gathered(outputs.drop_last()) + (outputs.last()->Finished_0)@
    }
}

/// What is reported of a worker that did not finish.
pub open spec fn failure_text<R>(output: WorkerOutput<R>) -> Seq<char> {
    match output {
        WorkerOutput::Failed(e) => e@,
        _ => "schedule generation worker panicked"@,
    }
}

/// Whether all results are there and a list holds their values by position.
pub open spec fn merged<R>(outputs: Seq<WorkerOutput<R>>, out: Seq<R>) -> bool {
    exists|s: Seq<(usize, R)>|
        in_order(s) && s.to_multiset() == gathered(outputs).to_multiset() && out == #[trigger] values(
            s,
        )
}

/// Whether the first worker that did not finish stands at a position.
pub open spec fn first_unfinished<R>(outputs: Seq<WorkerOutput<R>>, at: int) -> bool {
    &&& 0 <= at < outputs.len()
    &&& !(outputs[at] is Finished)
    &&& forall|i: int| 0 <= i < at ==> #[trigger] outputs[i] is Finished
}

// ---------------------------------------------------------------------------
// Laws
// ---------------------------------------------------------------------------

proof fn lemma_placed<R>(results: Seq<Option<R>>)
    requires
        results.len() <= usize::MAX,
    ensures
        increasing(placed(results)),
        forall|i: int|
            0 <= i < placed(results).len() ==> (#[trigger] placed(results)[i]).0 < results.len(),
        values(placed(results)) == kept(results),
    decreases results.len(),
{
    if results.len() > 0 {
        lemma_placed(results.drop_last());
        let before = placed(results.drop_last());
        match results.last() {
            Some(value) => {
                let pair = ((results.len() - 1) as usize, value);
                assert(placed(results) == before.push(pair));
                assert forall|i: int| 0 <= i < placed(results).len() implies (
                #[trigger] placed(results)[i]).0 < results.len() by {
                    if i < before.len() {
                        assert(placed(results)[i] == before[i]);
                    }
                }
                assert(values(before.push(pair)) =~= values(before).push(value));
            },
            None => {},
        }
    } else {
        assert(values(placed(results)) =~= kept(results));
    }
}

/// Lists with the same pairs, ordered by positions that do not repeat, are the
/// same.
pub proof fn law_order_is_unique<R>(s: Seq<(usize, R)>, t: Seq<(usize, R)>)
    requires
        in_order(s),
        increasing(t),
        s.to_multiset() == t.to_multiset(),
    ensures
        s == t,
    decreases s.len(),
{
    vstd::seq_lib::to_multiset_len(s);
    vstd::seq_lib::to_multiset_len(t);
    if s.len() > 0 {
        let n = s.len() as int;
        let a = s.last();
        let b = t.last();
        assert(s.contains(a)) by {
            assert(s[n - 1] == a);
        }
        assert(t.contains(b)) by {
            assert(t[n - 1] == b);
        }
        vstd::seq_lib::to_multiset_contains(s, a);
        vstd::seq_lib::to_multiset_contains(t, a);
        vstd::seq_lib::to_multiset_contains(s, b);
        vstd::seq_lib::to_multiset_contains(t, b);
        let j = choose|j: int| 0 <= j < t.len() && t[j] == a;
        let i = choose|i: int| 0 <= i < s.len() && s[i] == b;
        if j < n - 1 {
            assert(t[j].0 < t[n - 1].0);
        }
        if i < n - 1 {
            assert(s[i].0 <= s[n - 1].0);
        }
        assert(a == b);
        vstd::seq_lib::to_multiset_remove(s, n - 1);
        vstd::seq_lib::to_multiset_remove(t, n - 1);
        assert(s.remove(n - 1) =~= s.drop_last());
        assert(t.remove(n - 1) =~= t.drop_last());
        law_order_is_unique(s.drop_last(), t.drop_last());
        assert(s =~= s.drop_last().push(a));
        assert(t =~= t.drop_last().push(b));
    } else {
        assert(s =~= t);
    }
}

/// However the items were shared out, merging gives the results that mapping the
/// items one after the other keeps.
pub proof fn law_merging_restores_input_order<R>(
    results: Seq<Option<R>>,
    outputs: Seq<WorkerOutput<R>>,
    out: Seq<R>,
)
    requires
        results.len() <= usize::MAX,
        gathered(outputs).to_multiset() == placed(results).to_multiset(),
        merged(outputs, out),
    ensures
        out == kept(results),
{
    lemma_placed(results);
    let s = choose|s: Seq<(usize, R)>|
        in_order(s) && s.to_multiset() == gathered(outputs).to_multiset() && out == #[trigger] values(
            s,
        );
    law_order_is_unique(s, placed(results));
}

/// What a worker makes of the items that it took: the results that were kept,
/// each with the position of its item.
pub open spec fn kept_at<R>(taken: Seq<usize>, found: Seq<Option<R>>) -> Seq<(usize, R)>
    decreases taken.len(),
{
    if taken.len() == 0 {
        Seq::empty()
    } else {
        let before = kept_at(taken.drop_last(), found);
        match found[taken.len() - 1] {
            Some(value) => before.push((taken.last(), value)),
            None => before,
        }
    }
}

/// Whether a worker finished with the results of the items that it took.
pub open spec fn worked<R>(
    output: WorkerOutput<R>,
    taken: Seq<usize>,
    results: Seq<Option<R>>,
) -> bool {
    &&& forall|t: int| 0 <= t < taken.len() ==> #[trigger] taken[t] < results.len()
    &&& output matches WorkerOutput::Finished(pairs) && pairs@ == kept_at(
        taken,
        taken.map_values(|i: usize| results[i as int]),
    )
}

/// The items that workers took, one worker after the other.
pub open spec fn all_taken(taken: Seq<Seq<usize>>) -> Seq<usize>
    decreases taken.len(),
{
    if taken.len() == 0 {
        Seq::empty()
    } else {
        all_taken(taken.drop_last()) + taken.last()
    }
}

/// How often each item was taken: each of the first `n` once, and no other.
pub open spec fn each_once(taken: Seq<Seq<usize>>, n: nat) -> bool {
    forall|i: usize| #[trigger]
        all_taken(taken).to_multiset().count(i) == if i < n {
            1nat
        } else {
            0
        }
}

/// How often one worker kept one result.
proof fn lemma_kept_count<R>(taken: Seq<usize>, results: Seq<Option<R>>, pair: (usize, R))
    requires
        forall|t: int| 0 <= t < taken.len() ==> #[trigger] taken[t] < results.len(),
    ensures
        kept_at(taken, taken.map_values(|i: usize| results[i as int])).to_multiset().count(pair)
            == if pair.0 < results.len() && results[pair.0 as int] == Some(pair.1) {
            taken.to_multiset().count(pair.0)
        } else {
            0
        },
    decreases taken.len(),
{
    broadcast use vstd::multiset::group_multiset_axioms;

    let look = |i: usize| results[i as int];
    let found = taken.map_values(look);
    if taken.len() == 0 {
        lemma_nothing(taken);
        lemma_nothing(kept_at(taken, found));
    } else {
        let rest = taken.drop_last();
        lemma_kept_count(rest, results, pair);
        lemma_kept_at_prefix(rest, rest.map_values(look), found);
        vstd::seq_lib::to_multiset_build(rest, taken.last());
        assert(rest.push(taken.last()) =~= taken);
        let before = kept_at(rest, found);
        match found[taken.len() - 1] {
            Some(value) => {
                vstd::seq_lib::to_multiset_build(before, (taken.last(), value));
            },
            None => {},
        }
    }
}

/// Only the results of the taken items matter.
proof fn lemma_kept_at_prefix<R>(
    taken: Seq<usize>,
    found: Seq<Option<R>>,
    longer: Seq<Option<R>>,
)
    requires
        taken.len() <= found.len(),
        taken.len() <= longer.len(),
        forall|t: int| 0 <= t < taken.len() ==> #[trigger] found[t] == longer[t],
    ensures
        kept_at(taken, found) == kept_at(taken, longer),
    decreases taken.len(),
{
    if taken.len() > 0 {
        lemma_kept_at_prefix(taken.drop_last(), found, longer);
        assert(found[taken.len() - 1] == longer[taken.len() - 1]);
    }
}

/// How often all workers kept one result.
proof fn lemma_gathered_count<R>(
    outputs: Seq<WorkerOutput<R>>,
    taken: Seq<Seq<usize>>,
    results: Seq<Option<R>>,
    pair: (usize, R),
)
    requires
        outputs.len() == taken.len(),
        forall|w: int| 0 <= w < outputs.len() ==> worked(#[trigger] outputs[w], taken[w], results),
    ensures
        gathered(outputs).to_multiset().count(pair) == if pair.0 < results.len()
            && results[pair.0 as int] == Some(pair.1) {
            all_taken(taken).to_multiset().count(pair.0)
        } else {
            0
        },
    decreases outputs.len(),
{
    broadcast use vstd::multiset::group_multiset_axioms;

    if outputs.len() == 0 {
        lemma_nothing(gathered(outputs));
        lemma_nothing(all_taken(taken));
    } else {
        let last = outputs.last();
        lemma_gathered_count(outputs.drop_last(), taken.drop_last(), results, pair);
        assert(worked(outputs[outputs.len() - 1], taken.last(), results));
        lemma_kept_count(taken.last(), results, pair);
        vstd::seq_lib::lemma_multiset_commutative(
            gathered(outputs.drop_last()),
            (last->Finished_0)@,
        );
        vstd::seq_lib::lemma_multiset_commutative(all_taken(taken.drop_last()), taken.last());
    }
}

/// How often one result stands among the placed ones.
proof fn lemma_placed_count<R>(results: Seq<Option<R>>, pair: (usize, R))
    requires
        results.len() <= usize::MAX,
    ensures
        placed(results).to_multiset().count(pair) == if pair.0 < results.len()
            && results[pair.0 as int] == Some(pair.1) {
            1nat
        } else {
            0
        },
    decreases results.len(),
{
    broadcast use vstd::multiset::group_multiset_axioms;

    if results.len() == 0 {
        lemma_nothing(placed(results));
    } else {
        let before = results.drop_last();
        lemma_placed_count(before, pair);
        match results.last() {
            Some(value) => {
                vstd::seq_lib::to_multiset_build(
                    placed(before),
                    ((results.len() - 1) as usize, value),
                );
            },
            None => {},
        }
    }
}

/// Several workers agree with one: where each item was taken once, by whichever
/// worker and in whichever order, the merged results are those that mapping the
/// items one after the other keeps.
pub proof fn law_workers_agree_with_one<R>(
    outputs: Seq<WorkerOutput<R>>,
    taken: Seq<Seq<usize>>,
    results: Seq<Option<R>>,
    out: Seq<R>,
)
    requires
        results.len() <= usize::MAX,
        outputs.len() == taken.len(),
        forall|w: int| 0 <= w < outputs.len() ==> worked(#[trigger] outputs[w], taken[w], results),
        each_once(taken, results.len()),
        merged(outputs, out),
    ensures
        out == kept(results),
{
    assert forall|pair: (usize, R)| #[trigger]
        gathered(outputs).to_multiset().count(pair) == placed(results).to_multiset().count(pair) by {
        lemma_gathered_count(outputs, taken, results, pair);
        lemma_placed_count(results, pair);
        assert(all_taken(taken).to_multiset().count(pair.0) == if pair.0 < results.len() {
            1nat
        } else {
            0
        });
    }
    assert(gathered(outputs).to_multiset() =~= placed(results).to_multiset());
    law_merging_restores_input_order(results, outputs, out);
}

/// Whether two outcomes are the same.
pub open spec fn same_outcome<R>(
    a: Result<Option<R>, String>,
    b: Result<Option<R>, String>,
) -> bool {
    match (a, b) {
        (Ok(x), Ok(y)) => x == y,
        (Err(e), Err(f)) => e@ == f@,
        _ => false,
    }
}

/// Whether a function has one outcome for each item.
pub open spec fn determined<T, R, F: Fn(&T) -> Result<Option<R>, String>>(
    map: F,
    items: Seq<T>,
    outcomes: Seq<Result<Option<R>, String>>,
) -> bool {
    &&& outcomes.len() == items.len()
    &&& forall|i: int, r: Result<Option<R>, String>|
        0 <= i < items.len() && #[trigger] call_ensures(map, (&items[i],), r) ==> same_outcome(
            r,
            outcomes[i],
        )
}

/// Whether no item fails.
pub open spec fn all_succeed<R>(outcomes: Seq<Result<Option<R>, String>>) -> bool {
    forall|i: int| 0 <= i < outcomes.len() ==> (#[trigger] outcomes[i]) is Ok
}

/// The results of items that do not fail.
pub open spec fn results_of<R>(outcomes: Seq<Result<Option<R>, String>>) -> Seq<Option<R>> {
    outcomes.map_values(|r: Result<Option<R>, String>| r->Ok_0)
}

/// Whether all workers together drew the positions of one counter: the first ones,
/// each once.
pub open spec fn counted(drawn: Seq<Seq<usize>>) -> bool {
    each_once(drawn, all_taken(drawn).len())
}

/// The positions that each worker took items at.
pub open spec fn takes(drawn: Seq<Seq<usize>>, n: nat) -> Seq<Seq<usize>> {
    drawn.map_values(|d: Seq<usize>| taken_of(d, n))
}

/// Stopping positions aside, workers took what they drew.
proof fn lemma_takes_count(drawn: Seq<Seq<usize>>, n: nat, i: usize)
    requires
        i < n,
    ensures
        all_taken(takes(drawn, n)).to_multiset().count(i) == all_taken(drawn).to_multiset().count(
            i,
        ),
    decreases drawn.len(),
{
    broadcast use vstd::multiset::group_multiset_axioms;

    let taken = takes(drawn, n);
    if drawn.len() == 0 {
        assert(taken =~= drawn);
    } else {
        let (d, t) = (drawn.last(), taken.last());
        lemma_takes_count(drawn.drop_last(), n, i);
        assert(taken.drop_last() =~= takes(drawn.drop_last(), n));
        vstd::seq_lib::lemma_multiset_commutative(all_taken(drawn.drop_last()), d);
        vstd::seq_lib::lemma_multiset_commutative(all_taken(taken.drop_last()), t);
        if d.len() > 0 && d.last() >= n {
            vstd::seq_lib::to_multiset_build(d.drop_last(), d.last());
            assert(d.drop_last().push(d.last()) =~= d);
        }
    }
}

/// What one worker took is among what all took.
proof fn lemma_among_all(taken: Seq<Seq<usize>>, w: int, t: int)
    requires
        0 <= w < taken.len(),
        0 <= t < taken[w].len(),
    ensures
        all_taken(taken).contains(taken[w][t]),
        all_taken(taken).len() >= taken[w].len(),
    decreases taken.len(),
{
    let before = all_taken(taken.drop_last());
    let all = all_taken(taken);
    if w == taken.len() - 1 {
        assert(all[before.len() + t] == taken[w][t]);
    } else {
        lemma_among_all(taken.drop_last(), w, t);
        let at = choose|at: int| 0 <= at < before.len() && before[at] == taken[w][t];
        assert(all[at] == taken[w][t]);
    }
}

/// What all took was taken by one.
proof fn lemma_taken_by_one(taken: Seq<Seq<usize>>, p: usize) -> (at: (int, int))
    requires
        all_taken(taken).contains(p),
    ensures
        0 <= at.0 < taken.len(),
        0 <= at.1 < taken[at.0].len(),
        taken[at.0][at.1] == p,
    decreases taken.len(),
{
    let before = all_taken(taken.drop_last());
    let at = choose|at: int| 0 <= at < all_taken(taken).len() && all_taken(taken)[at] == p;
    if taken.len() == 0 {
        (0, 0)
    } else if at < before.len() {
        assert(before[at] == p);
        lemma_taken_by_one(taken.drop_last(), p)
    } else {
        (taken.len() - 1, at - before.len())
    }
}

/// Workers that all finished took every item once.
proof fn lemma_all_items_taken<T, R, F: Fn(&T) -> Result<Option<R>, String>>(
    map: F,
    items: Seq<T>,
    drawn: Seq<Seq<usize>>,
    outputs: Seq<WorkerOutput<R>>,
)
    requires
        0 < outputs.len() == drawn.len(),
        forall|w: int| 0 <= w < outputs.len() ==> ran(map, items, drawn[w], #[trigger] outputs[w]),
        forall|w: int| 0 <= w < outputs.len() ==> (#[trigger] outputs[w]) is Finished,
        counted(drawn),
    ensures
        each_once(takes(drawn, items.len()), items.len()),
{
    broadcast use vstd::multiset::group_multiset_axioms;

    let n = items.len();
    let all = all_taken(drawn);
    let taken = takes(drawn, n);
    assert(ran(map, items, drawn[0], outputs[0]) && outputs[0] is Finished);
    // The counter went past the last item.
    assert(n <= all.len()) by {
        let d = drawn[0];
        if d.len() > 0 {
            lemma_among_all(drawn, 0, d.len() - 1);
            vstd::seq_lib::to_multiset_contains(all, d.last());
            assert(all.to_multiset().count(d.last()) == if d.last() < all.len() {
                1nat
            } else {
                0
            });
        }
    }
    assert forall|i: usize| #[trigger]
        all_taken(taken).to_multiset().count(i) == if i < n {
            1nat
        } else {
            0
        } by {
        if i < n {
            lemma_takes_count(drawn, n, i);
            assert(all.to_multiset().count(i) == 1nat);
        } else {
            vstd::seq_lib::to_multiset_contains(all_taken(taken), i);
            if all_taken(taken).contains(i) {
                let at = lemma_taken_by_one(taken, i);
                assert(ran(map, items, drawn[at.0], outputs[at.0]));
                assert(outputs[at.0] is Finished);
                let t = taken_of(drawn[at.0], n);
                let found = choose|found: Seq<Option<R>>|
                    mapped(map, items, t, found) && (outputs[at.0]->Finished_0)@
                        == #[trigger] kept_at(t, found);
                assert(t[at.1] < n);
            }
        }
    }
}

/// A worker that finished has the results of the items that it took.
proof fn lemma_ran_is_work<T, R, F: Fn(&T) -> Result<Option<R>, String>>(
    map: F,
    items: Seq<T>,
    drawn: Seq<usize>,
    output: WorkerOutput<R>,
    outcomes: Seq<Result<Option<R>, String>>,
)
    requires
        ran(map, items, drawn, output),
        output is Finished,
        determined(map, items, outcomes),
    ensures
        worked(output, taken_of(drawn, items.len()), results_of(outcomes)),
        forall|t: int|
            0 <= t < taken_of(drawn, items.len()).len() ==> (outcomes[(
            #[trigger] taken_of(drawn, items.len())[t]) as int]) is Ok,
{
    let taken = taken_of(drawn, items.len());
    let results = results_of(outcomes);
    let pairs = output->Finished_0;
    let found = choose|found: Seq<Option<R>>|
        mapped(map, items, taken, found) && pairs@ == #[trigger] kept_at(taken, found);
    let looked = taken.map_values(|i: usize| results[i as int]);
    assert forall|t: int| 0 <= t < taken.len() implies #[trigger] found[t] == looked[t]
        && outcomes[taken[t] as int] is Ok && taken[t] < results.len() by {
        let i = taken[t] as int;
        assert(call_ensures(map, (&items[i],), Ok::<Option<R>, String>(found[t])));
        assert(same_outcome(Ok::<Option<R>, String>(found[t]), outcomes[i]));
    }
    assert forall|t: int| 0 <= t < taken.len() implies (outcomes[(
    #[trigger] taken[t]) as int]) is Ok by {
        assert(found[t] == looked[t]);
    }
    assert forall|t: int| 0 <= t < taken.len() implies #[trigger] taken[t] < results.len() by {
        assert(found[t] == looked[t]);
    }
    lemma_kept_at_prefix(taken, found, looked);
}

/// The map over workers that share a counter agrees with the map of one item
/// after the other, for a function with one outcome for each item.
///
/// All workers finish exactly where no item fails. Each item was then mapped once,
/// and the merged results are those of the items in order, however many workers
/// there are. A worker that fails reports the failure of an item.
pub proof fn law_threads_agree_with_one<T, R, F: Fn(&T) -> Result<Option<R>, String>>(
    map: F,
    items: Seq<T>,
    drawn: Seq<Seq<usize>>,
    outputs: Seq<WorkerOutput<R>>,
    outcomes: Seq<Result<Option<R>, String>>,
)
    requires
        items.len() <= usize::MAX,
        0 < outputs.len() == drawn.len(),
        forall|w: int| 0 <= w < outputs.len() ==> ran(map, items, drawn[w], #[trigger] outputs[w]),
        counted(drawn),
        determined(map, items, outcomes),
    ensures
        (forall|w: int| 0 <= w < outputs.len() ==> (#[trigger] outputs[w]) is Finished)
            <==> all_succeed(outcomes),
        all_succeed(outcomes) ==> each_once(takes(drawn, items.len()), items.len()),
        forall|out: Seq<R>| all_succeed(outcomes) && #[trigger] merged(outputs, out) ==> out
            == kept(results_of(outcomes)),
        forall|w: int|
            0 <= w < outputs.len() ==> ((#[trigger] outputs[w]) matches WorkerOutput::Failed(e)
                ==> fails_with(outcomes, e@)),
{
    let n = items.len();
    let results = results_of(outcomes);
    let taken = takes(drawn, n);
    assert forall|w: int| 0 <= w < outputs.len() implies ((
    #[trigger] outputs[w]) matches WorkerOutput::Failed(e) ==> fails_with(outcomes, e@)) by {
        if let WorkerOutput::Failed(e) = outputs[w] {
            let i = drawn[w].last() as int;
            assert(ran(map, items, drawn[w], outputs[w]));
            assert(call_ensures(map, (&items[i],), Err::<Option<R>, String>(e)));
            assert(same_outcome(Err::<Option<R>, String>(e), outcomes[i]));
        }
    }
    if all_succeed(outcomes) {
        assert forall|w: int| 0 <= w < outputs.len() implies (#[trigger] outputs[w]) is Finished by {
            assert(ran(map, items, drawn[w], outputs[w]));
            if let WorkerOutput::Failed(e) = outputs[w] {
                assert(fails_with(outcomes, e@));
            }
        }
    }
    if forall|w: int| 0 <= w < outputs.len() ==> (#[trigger] outputs[w]) is Finished {
        lemma_all_items_taken(map, items, drawn, outputs);
        assert forall|w: int| 0 <= w < outputs.len() implies worked(
            #[trigger] outputs[w],
            taken[w],
            results,
        ) by {
            lemma_ran_is_work(map, items, drawn[w], outputs[w], outcomes);
        }
        assert forall|i: int| 0 <= i < outcomes.len() implies (#[trigger] outcomes[i]) is Ok by {
            let p = i as usize;
            assert(all_taken(taken).to_multiset().count(p) == 1nat);
            vstd::seq_lib::to_multiset_contains(all_taken(taken), p);
            let at = lemma_taken_by_one(taken, p);
            assert(ran(map, items, drawn[at.0], outputs[at.0]));
            lemma_ran_is_work(map, items, drawn[at.0], outputs[at.0], outcomes);
            assert(taken_of(drawn[at.0], n)[at.1] == p);
        }
        assert forall|out: Seq<R>| #[trigger] merged(outputs, out) implies out == kept(results) by {
            law_workers_agree_with_one(outputs, taken, results, out);
        }
    }
}

/// Whether some item fails with a text.
pub open spec fn fails_with<R>(outcomes: Seq<Result<Option<R>, String>>, text: Seq<char>) -> bool {
    exists|i: int|
        0 <= i < outcomes.len() && ((#[trigger] outcomes[i]) matches Err(f) && f@ == text)
}

/// Mapping items one after the other gives the results of the items in order, or
/// the first failure, for a function with one outcome for each item.
pub proof fn law_one_worker_maps_in_order<T, R, F: Fn(&T) -> Result<Option<R>, String>>(
    map: F,
    items: Seq<T>,
    r: Result<Vec<R>, String>,
    outcomes: Seq<Result<Option<R>, String>>,
)
    requires
        mapped_in_order(map, items, r),
        determined(map, items, outcomes),
    ensures
        r is Ok <==> all_succeed(outcomes),
        r matches Ok(out) ==> out@ == kept(results_of(outcomes)),
        r matches Err(e) ==> fails_with(outcomes, e@),
{
    match r {
        Ok(out) => {
            let results = choose|results: Seq<Option<R>>|
                #![trigger kept(results)]
                results.len() == items.len() && out@ == kept(results) && forall|i: int|
                    0 <= i < results.len() ==> call_ensures(
                        map,
                        (&items[i],),
                        Ok::<Option<R>, String>(#[trigger] results[i]),
                    );
            assert forall|i: int| 0 <= i < outcomes.len() implies (#[trigger] outcomes[i]) is Ok
                && results[i] == results_of(outcomes)[i] by {
                assert(call_ensures(
                    map,
                    (&items[i],),
                    Ok::<Option<R>, String>(results[i]),
                ));
                assert(same_outcome(Ok::<Option<R>, String>(results[i]), outcomes[i]));
            }
            assert forall|i: int| 0 <= i < results.len() implies #[trigger] results[i]
                == results_of(outcomes)[i] by {
                assert(outcomes[i] is Ok);
            }
            assert(results =~= results_of(outcomes));
        },
        Err(e) => {
            let results = choose|results: Seq<Option<R>>| #[trigger]
                failed_after(map, items, results, e);
            let at = results.len() as int;
            assert(same_outcome(Err::<Option<R>, String>(e), outcomes[at]));
        },
    }
}

/// An empty list has no elements.
proof fn lemma_nothing<A>(s: Seq<A>)
    requires
        s.len() == 0,
    ensures
        s.to_multiset() == Multiset::<A>::empty(),
{
    broadcast use vstd::multiset::group_multiset_axioms;

    assert forall|a: A| s.to_multiset().count(a) == 0 by {
        vstd::seq_lib::to_multiset_contains(s, a);
    }
    assert(s.to_multiset() =~= Multiset::<A>::empty());
}

fn is_finished<R>(output: &WorkerOutput<R>) -> (b: bool)
    ensures
        b == (output is Finished),
{
    match output {
        WorkerOutput::Finished(_) => true,
        _ => false,
    }
}

fn report<R>(output: &WorkerOutput<R>) -> (r: String)
    ensures
        r@ == failure_text(*output),
{
    match output {
        WorkerOutput::Failed(e) => error::message(e.as_str()),
        _ => error::message("schedule generation worker panicked"),
    }
}

/// Puts one result before the first that is not ahead of it.
fn insert_one<R>(sorted: Vec<(usize, R)>, pair: (usize, R)) -> (r: Vec<(usize, R)>)
    requires
        in_order(sorted@),
    ensures
        in_order(r@),
        r@.to_multiset() == sorted@.to_multiset().insert(pair),
{
    let mut out = sorted;
    let mut at: usize = 0;
    while at < out.len() && out[at].0 < pair.0
        invariant
            out@ == sorted@,
            at <= out@.len(),
            forall|i: int| 0 <= i < at ==> #[trigger] out@[i].0 < pair.0,
        decreases out@.len() - at,
    {
        at += 1;
    }
    let ghost before = out@;
    proof {
        vstd::seq_lib::to_multiset_insert(before, at as int, pair);
    }
    out.insert(at, pair);
    proof {
        assert forall|i: int, j: int| 0 <= i < j < out@.len() implies out@[i].0 <= out@[j].0 by {
            let a = if i < at {
                i
            } else {
                i - 1
            };
            let b = if j < at {
                j
            } else {
                j - 1
            };
            if i == at {
                assert(out@[j] == before[b]);
                assert(before[at as int].0 <= before[b].0);
            } else if j == at {
                assert(out@[i] == before[a]);
            } else {
                assert(out@[i] == before[a] && out@[j] == before[b]);
            }
        }
    }
    out
}

/// Puts the results of one worker among others.
fn insert_all<R>(sorted: Vec<(usize, R)>, pairs: Vec<(usize, R)>) -> (r: Vec<(usize, R)>)
    requires
        in_order(sorted@),
    ensures
        in_order(r@),
        r@.to_multiset() == sorted@.to_multiset().add(pairs@.to_multiset()),
{
    let mut out = sorted;
    let mut rest = pairs;
    loop
        invariant
            in_order(out@),
            out@.to_multiset().add(rest@.to_multiset()) == sorted@.to_multiset().add(
                pairs@.to_multiset(),
            ),
        ensures
            rest@.len() == 0,
        decreases rest@.len(),
    {
        let ghost before = rest@;
        let ghost older = out@;
        match rest.pop() {
            Some(pair) => {
                out = insert_one(out, pair);
                proof {
                    broadcast use vstd::multiset::group_multiset_axioms;

                    vstd::seq_lib::to_multiset_build(rest@, pair);
                    assert(rest@.push(pair) =~= before);
                    assert(out@.to_multiset().add(rest@.to_multiset()) =~= older.to_multiset().add(
                        before.to_multiset(),
                    ));
                }
            },
            None => {
                break;
            },
        }
    }
    proof {
        broadcast use vstd::multiset::group_multiset_axioms;

        lemma_nothing(rest@);
        assert(out@.to_multiset() =~= out@.to_multiset().add(rest@.to_multiset()));
    }
    out
}

/// Takes the positions off.
fn strip<R>(sorted: Vec<(usize, R)>) -> (r: Vec<R>)
    ensures
        r@ == values(sorted@),
{
    let ghost all = sorted@;
    let mut rest = sorted;
    let mut reversed: Vec<R> = Vec::new();
    loop
        invariant
            rest@ == all.take(rest@.len() as int),
            rest@.len() <= all.len(),
            reversed@.len() == all.len() - rest@.len(),
            forall|i: int|
                0 <= i < reversed@.len() ==> #[trigger] reversed@[i] == all[all.len() - 1 - i].1,
        ensures
            rest@.len() == 0,
        decreases rest@.len(),
    {
        match rest.pop() {
            Some(pair) => {
                reversed.push(pair.1);
                proof {
                    assert(rest@ =~= all.take(rest@.len() as int));
                }
            },
            None => {
                break;
            },
        }
    }
    let mut out: Vec<R> = Vec::new();
    loop
        invariant
            reversed@.len() + out@.len() == all.len(),
            forall|i: int|
                0 <= i < reversed@.len() ==> #[trigger] reversed@[i] == all[all.len() - 1 - i].1,
            forall|i: int| 0 <= i < out@.len() ==> #[trigger] out@[i] == all[i].1,
        ensures
            reversed@.len() == 0,
        decreases reversed@.len(),
    {
        match reversed.pop() {
            Some(value) => {
                out.push(value);
            },
            None => {
                break;
            },
        }
    }
    proof {
        assert(out@ =~= values(all));
    }
    out
}

/// Puts the results of workers back in the order of their items. The first
/// worker that did not finish decides the failure.
pub fn merge_outputs<R>(outputs: Vec<WorkerOutput<R>>) -> (r: Result<Vec<R>, String>)
    ensures
        match r {
            Ok(out) => (forall|i: int|
                0 <= i < outputs@.len() ==> #[trigger] outputs@[i] is Finished) && merged(
                outputs@,
                out@,
            ),
            Err(e) => exists|at: int|
                #[trigger] first_unfinished(outputs@, at) && e@ == failure_text(outputs@[at]),
        },
{
    let ghost all = outputs@;
    let mut at: usize = 0;
    while at < outputs.len() && is_finished(&outputs[at])
        invariant
            outputs@ == all,
            at <= all.len(),
            forall|i: int| 0 <= i < at ==> #[trigger] all[i] is Finished,
        decreases all.len() - at,
    {
        at += 1;
    }
    if at < outputs.len() {
        proof {
            assert(first_unfinished(all, at as int));
        }
        return Err(report(&outputs[at]));
    }
    let mut rest = outputs;
    let mut sorted: Vec<(usize, R)> = Vec::new();
    proof {
        broadcast use vstd::multiset::group_multiset_axioms;

        assert(all.take(all.len() as int) =~= all);
        assert(gathered(all).to_multiset().add(sorted@.to_multiset()) =~= gathered(
            all,
        ).to_multiset()) by {
            lemma_nothing(sorted@);
        }
    }
    loop
        invariant
            rest@ == all.take(rest@.len() as int),
            rest@.len() <= all.len(),
            forall|i: int| 0 <= i < all.len() ==> #[trigger] all[i] is Finished,
            in_order(sorted@),
            gathered(rest@).to_multiset().add(sorted@.to_multiset()) == gathered(
                all,
            ).to_multiset(),
        ensures
            rest@.len() == 0,
        decreases rest@.len(),
    {
        let ghost before = rest@;
        match rest.pop() {
            Some(WorkerOutput::Finished(pairs)) => {
                proof {
                    assert(before.drop_last() =~= rest@);
                    assert(all.take(before.len() - 1) =~= rest@);
                    vstd::seq_lib::lemma_multiset_commutative(gathered(rest@), pairs@);
                }
                let ghost older = sorted@;
                sorted = insert_all(sorted, pairs);
                proof {
                    broadcast use vstd::multiset::group_multiset_axioms;

                    assert(gathered(rest@).to_multiset().add(sorted@.to_multiset()) =~= gathered(
                        before,
                    ).to_multiset().add(older.to_multiset()));
                }
            },
            Some(_) => {
                proof {
                    assert(all[before.len() - 1] is Finished);
                    assert(false);
                }
                break;
            },
            None => {
                break;
            },
        }
    }
    proof {
        broadcast use vstd::multiset::group_multiset_axioms;

        lemma_nothing(gathered(rest@));
        assert(sorted@.to_multiset() =~= gathered(all).to_multiset());
    }
    let ghost s = sorted@;
    let out = strip(sorted);
    proof {
        assert(out@ == values(s));
    }
    Ok(out)
}

} // verus!
