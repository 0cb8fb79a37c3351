//! A whole pass at once: from the sources and the answers that came for
//! them to the aggregated result, and what holds of every such pass.

use vstd::prelude::*;
use vstd::multiset::Multiset;
use vstd::seq_lib::{group_to_multiset_ensures, lemma_multiset_commutative};
use crate::coordinator::{closed_slots, Coordinator, CoordinatorError, Phase};
use crate::fetch::Completion;
use crate::item::{has_key, keys_distinct, keys_present, ItemView};
use crate::merge::{lemma_merge_order_independent, lemma_merged, lemma_merged_keys_present, merged};
use crate::order::in_order;
use crate::outcome::{entry_of, failure_count, AggregatedResult, EntryView, OutcomeView, ResultView};
use crate::source::SourceDescriptor;
use crate::unit::{
    lemma_failure_has_no_items,
    lemma_late_answer_is_timeout,
    lemma_outcome_keys_present,
    outcome_of,
};

verus! {

/// The outcome of each source, in the order of the sources.
pub open spec fn outcomes_of(
    sources: Seq<SourceDescriptor>,
    completions: Seq<Option<Completion>>,
    started_at: int,
    deadline: int,
) -> Seq<OutcomeView> {
    Seq::new(sources.len(), |i: int| outcome_of(sources[i], completions[i], started_at, deadline))
}

/// The items of the outcomes from the `k`-th on, one source after another.
pub open spec fn gathered_from(outs: Seq<OutcomeView>, k: int) -> Seq<ItemView>
    decreases outs.len() - k,
{
    if k < 0 || k >= outs.len() {
        Seq::empty()
    } else {
        outs[k].items + gathered_from(outs, k + 1)
    }
}

/// The items of all outcomes.
pub open spec fn gathered(outs: Seq<OutcomeView>) -> Seq<ItemView> {
    gathered_from(outs, 0)
}

pub open spec fn entries_of(outs: Seq<OutcomeView>) -> Seq<EntryView> {
    Seq::new(outs.len(), |i: int| entry_of(outs[i]))
}

/// The result of a pass over `sources` for which the answers
/// `completions` came, one for each source or none.
pub open spec fn aggregated(
    sources: Seq<SourceDescriptor>,
    completions: Seq<Option<Completion>>,
    started_at: int,
    deadline: int,
) -> ResultView {
    let outs = outcomes_of(sources, completions, started_at, deadline);
    ResultView { items: merged(gathered(outs)), outcomes: entries_of(outs) }
}

/// The `i`-th outcome holds `item`.
pub open spec fn delivers(outs: Seq<OutcomeView>, i: int, item: ItemView) -> bool {
    0 <= i < outs.len() && outs[i].items.contains(item)
}

/// An outcome other than the `j`-th holds `item`.
pub open spec fn delivered_by_another(outs: Seq<OutcomeView>, j: int, item: ItemView) -> bool {
    exists|i: int| i != j && #[trigger] delivers(outs, i, item)
}

/// What is gathered from the `k`-th outcome on holds each item of each of
/// those outcomes, and nothing else.
pub proof fn lemma_gathered(outs: Seq<OutcomeView>, k: int)
    requires
        0 <= k,
    ensures
        forall|i: int, item: ItemView|
            k <= i && #[trigger] delivers(outs, i, item) ==> gathered_from(outs, k).contains(item),
        forall|item: ItemView| #[trigger]
            gathered_from(outs, k).contains(item) ==> exists|i: int|
                k <= i && #[trigger] delivers(outs, i, item),
    decreases outs.len() - k,
{
    let g = gathered_from(outs, k);
    if k < outs.len() {
        lemma_gathered(outs, k + 1);
        let rest = gathered_from(outs, k + 1);
        let head = outs[k].items;
        assert(g == head + rest);
        assert forall|i: int, item: ItemView| k <= i && #[trigger] delivers(outs, i, item) implies g.contains(
            item,
        ) by {
            if i == k {
                let x = choose|x: int| 0 <= x < head.len() && head[x] == item;
                assert(g[x] == item);
            } else {
                assert(rest.contains(item));
                let m = choose|m: int| 0 <= m < rest.len() && rest[m] == item;
                assert(g[head.len() + m] == item);
            }
        }
        assert forall|item: ItemView| #[trigger] g.contains(item) implies exists|i: int|
            k <= i && #[trigger] delivers(outs, i, item) by {
            let m = choose|m: int| 0 <= m < g.len() && g[m] == item;
            if m < head.len() {
                assert(head[m] == item);
                assert(delivers(outs, k, item));
            } else {
                assert(rest[m - head.len()] == item);
                assert(rest.contains(item));
                let i = choose|i: int| k + 1 <= i && #[trigger] delivers(outs, i, item);
                assert(k <= i && delivers(outs, i, item));
            }
        }
    } else {
        assert(g.len() == 0);
    }
}

/// The items of all outcomes, each as often as it occurs, in no order.
pub open spec fn items_of_all(outs: Seq<OutcomeView>) -> Multiset<ItemView>
    decreases outs.len(),
{
    if outs.len() == 0 {
        Multiset::empty()
    } else {
        items_of_all(outs.drop_last()).add(outs.last().items.to_multiset())
    }
}

proof fn lemma_gathered_without_last(outs: Seq<OutcomeView>, k: int)
    requires
        0 <= k < outs.len(),
    ensures
        gathered_from(outs, k) == gathered_from(outs.drop_last(), k) + outs.last().items,
    decreases outs.len() - k,
{
    let init = outs.drop_last();
    if k + 1 < outs.len() {
        lemma_gathered_without_last(outs, k + 1);
        assert(init[k] == outs[k]);
        assert(outs[k].items + (gathered_from(init, k + 1) + outs.last().items) =~= (outs[k].items
            + gathered_from(init, k + 1)) + outs.last().items);
    } else {
        assert(gathered_from(init, k) =~= Seq::<ItemView>::empty());
        assert(gathered_from(outs, k + 1) =~= Seq::<ItemView>::empty());
        assert(outs[k].items + Seq::<ItemView>::empty() =~= Seq::<ItemView>::empty()
            + outs.last().items);
    }
}

/// What is gathered holds the items of all outcomes, each as often as it
/// occurs.
pub proof fn lemma_gathered_holds_all(outs: Seq<OutcomeView>)
    ensures
        gathered(outs).to_multiset() == items_of_all(outs),
    decreases outs.len(),
{
    broadcast use group_to_multiset_ensures;

    if outs.len() == 0 {
        assert(gathered(outs).to_multiset().len() == 0);
        assert(gathered(outs).to_multiset() =~= Multiset::<ItemView>::empty());
    } else {
        lemma_gathered_without_last(outs, 0);
        lemma_gathered_holds_all(outs.drop_last());
        lemma_multiset_commutative(gathered(outs.drop_last()), outs.last().items);
    }
}

proof fn lemma_items_of_all_without(outs: Seq<OutcomeView>, k: int)
    requires
        0 <= k < outs.len(),
    ensures
        items_of_all(outs) == items_of_all(outs.remove(k)).add(outs[k].items.to_multiset()),
    decreases outs.len(),
{
    broadcast use vstd::multiset::group_multiset_axioms;

    if k == outs.len() - 1 {
        assert(outs.remove(k) =~= outs.drop_last());
    } else {
        let init = outs.drop_last();
        lemma_items_of_all_without(init, k);
        assert(outs.remove(k).drop_last() =~= init.remove(k));
        assert(outs.remove(k).last() == outs.last());
        assert(init[k] == outs[k]);
        assert(items_of_all(init.remove(k)).add(outs[k].items.to_multiset()).add(
            outs.last().items.to_multiset(),
        ) =~= items_of_all(init.remove(k)).add(outs.last().items.to_multiset()).add(
            outs[k].items.to_multiset(),
        ));
    }
}

/// The items of all outcomes do not depend on the order of the outcomes.
pub proof fn lemma_items_of_all_unordered(a: Seq<OutcomeView>, b: Seq<OutcomeView>)
    requires
        a.to_multiset() == b.to_multiset(),
    ensures
        items_of_all(a) == items_of_all(b),
    decreases a.len(),
{
    broadcast use {group_to_multiset_ensures, vstd::multiset::group_multiset_axioms};

    assert(a.len() == b.len()) by {
        vstd::seq_lib::to_multiset_len(a);
        vstd::seq_lib::to_multiset_len(b);
    }
    if a.len() > 0 {
        let x = a.last();
        assert(a.contains(x)) by {
            assert(a[a.len() - 1] == x);
        }
        assert(b.to_multiset().count(x) > 0);
        assert(b.contains(x));
        let k = choose|k: int| 0 <= k < b.len() && b[k] == x;
        assert(a.drop_last() =~= a.remove(a.len() - 1));
        assert(a.remove(a.len() - 1).to_multiset() == a.to_multiset().remove(x));
        assert(b.remove(k).to_multiset() == b.to_multiset().remove(x));
        lemma_items_of_all_unordered(a.drop_last(), b.remove(k));
        lemma_items_of_all_without(b, k);
    }
}

/// The merged items of a pass do not depend on the order in which the
/// outcomes stand: the same outcomes, in whatever order they came to be,
/// give the same items in the same order.
pub proof fn lemma_outcome_order_is_irrelevant(a: Seq<OutcomeView>, b: Seq<OutcomeView>)
    requires
        a.to_multiset() == b.to_multiset(),
    ensures
        merged(gathered(a)) == merged(gathered(b)),
{
    lemma_items_of_all_unordered(a, b);
    lemma_gathered_holds_all(a);
    lemma_gathered_holds_all(b);
    lemma_merge_order_independent(gathered(a), gathered(b));
}

/// Nothing is gathered from outcomes that hold no items.
pub proof fn lemma_gathered_nothing(outs: Seq<OutcomeView>, k: int)
    requires
        0 <= k,
        forall|i: int| k <= i < outs.len() ==> (#[trigger] outs[i]).items.len() == 0,
    ensures
        gathered_from(outs, k).len() == 0,
    decreases outs.len() - k,
{
    if k < outs.len() {
        lemma_gathered_nothing(outs, k + 1);
        assert(outs[k].items.len() == 0);
    }
}

/// The count of failures among entries of which `failing` report one.
pub proof fn lemma_failure_count(es: Seq<EntryView>)
    ensures
        failure_count(es) <= es.len(),
        (forall|i: int| 0 <= i < es.len() ==> (#[trigger] es[i]).failure is Some) ==> failure_count(
            es,
        ) == es.len(),
        (forall|i: int| 0 <= i < es.len() ==> (#[trigger] es[i]).failure is None) ==> failure_count(
            es,
        ) == 0,
        forall|j: int|
            0 <= j < es.len() && es[j].failure is Some && (forall|i: int|
                0 <= i < es.len() && i != j ==> (#[trigger] es[i]).failure is None)
                ==> failure_count(es) == 1,
    decreases es.len(),
{
    if es.len() > 0 {
        let init = es.drop_last();
        lemma_failure_count(init);
        assert forall|j: int|
            0 <= j < es.len() && es[j].failure is Some && (forall|i: int|
                0 <= i < es.len() && i != j ==> (#[trigger] es[i]).failure is None) implies failure_count(
            es,
        ) == 1 by {
            if j == es.len() - 1 {
                assert forall|i: int| 0 <= i < init.len() implies (#[trigger] init[i]).failure is None by {
                    assert(es[i].failure is None);
                }
            } else {
                assert(init[j].failure is Some);
                assert forall|i: int| 0 <= i < init.len() && i != j implies (
                #[trigger] init[i]).failure is None by {
                    assert(es[i].failure is None);
                }
                assert(es[es.len() - 1].failure is None);
            }
        }
        if forall|i: int| 0 <= i < es.len() ==> (#[trigger] es[i]).failure is Some {
            assert forall|i: int| 0 <= i < init.len() implies (#[trigger] init[i]).failure is Some by {
                assert(es[i].failure is Some);
            }
            assert(es[es.len() - 1].failure is Some);
        }
        if forall|i: int| 0 <= i < es.len() ==> (#[trigger] es[i]).failure is None {
            assert forall|i: int| 0 <= i < init.len() implies (#[trigger] init[i]).failure is None by {
                assert(es[i].failure is None);
            }
            assert(es[es.len() - 1].failure is None);
        }
    }
}

/// What holds of the result of every pass. Its items are in display
/// order, no two of them share a key, and each has a key. There is one
/// entry for each source, in the order of the sources, and an entry that
/// reports a failure reports no items.
pub proof fn lemma_result_is_sound(
    sources: Seq<SourceDescriptor>,
    completions: Seq<Option<Completion>>,
    started_at: int,
    deadline: int,
)
    requires
        completions.len() == sources.len(),
    ensures
        ({
            let r = aggregated(sources, completions, started_at, deadline);
            &&& in_order(r.items)
            &&& keys_distinct(r.items)
            &&& keys_present(r.items)
            &&& r.outcomes.len() == sources.len()
            &&& forall|i: int|
                0 <= i < sources.len() ==> (#[trigger] r.outcomes[i]).source == sources[i].id@
            &&& forall|i: int|
                0 <= i < sources.len() && (#[trigger] r.outcomes[i]).failure is Some
                    ==> r.outcomes[i].delivered == 0
        }),
{
    let outs = outcomes_of(sources, completions, started_at, deadline);
    let r = aggregated(sources, completions, started_at, deadline);
    let g = gathered(outs);
    lemma_gathered(outs, 0);
    assert forall|m: int| 0 <= m < g.len() implies (#[trigger] g[m]).key.len() > 0 by {
        assert(g.contains(g[m]));
        let i = choose|i: int| 0 <= i && #[trigger] delivers(outs, i, g[m]);
        lemma_outcome_keys_present(sources[i], completions[i], started_at, deadline);
        let x = choose|x: int| 0 <= x < outs[i].items.len() && outs[i].items[x] == g[m];
        assert(outs[i].items[x].key.len() > 0);
    }
    lemma_merged(g);
    lemma_merged_keys_present(g);
    assert forall|i: int| 0 <= i < sources.len() implies (#[trigger] r.outcomes[i]).source
        == sources[i].id@ && (r.outcomes[i].failure is Some ==> r.outcomes[i].delivered == 0) by {
        lemma_failure_has_no_items(sources[i], completions[i], started_at, deadline);
    }
}

/// Where the `j`-th source is the only one that fails, the entries of
/// the result hold exactly one failure, that of the `j`-th source.
pub proof fn lemma_one_failure_entry(
    sources: Seq<SourceDescriptor>,
    completions: Seq<Option<Completion>>,
    started_at: int,
    deadline: int,
    j: int,
)
    requires
        completions.len() == sources.len(),
        0 <= j < sources.len(),
        outcomes_of(sources, completions, started_at, deadline)[j].failure is Some,
        forall|i: int|
            0 <= i < sources.len() && i != j ==> (#[trigger] outcomes_of(
                sources,
                completions,
                started_at,
                deadline,
            )[i]).failure is None,
    ensures
        aggregated(sources, completions, started_at, deadline).outcomes.len() == sources.len(),
        failure_count(aggregated(sources, completions, started_at, deadline).outcomes) == 1,
        aggregated(sources, completions, started_at, deadline).outcomes[j].failure is Some,
{
    let outs = outcomes_of(sources, completions, started_at, deadline);
    let es = entries_of(outs);
    lemma_failure_count(es);
    assert(es[j].failure is Some);
    assert forall|i: int| 0 <= i < es.len() && i != j implies (#[trigger] es[i]).failure is None by {
        assert(outs[i].failure is None);
    }
}

/// Where exactly one source fails, in whatever way, and the others
/// succeed, the result has one entry for each source, exactly one of them
/// a failure, that of the failing source; every item of every other
/// source is in the result by its key; nothing is in the result that no
/// other source delivered; and where no key occurs twice, nothing is
/// missing.
pub proof fn lemma_partial_failure_is_contained(
    sources: Seq<SourceDescriptor>,
    completions: Seq<Option<Completion>>,
    started_at: int,
    deadline: int,
    j: int,
)
    requires
        completions.len() == sources.len(),
        0 <= j < sources.len(),
        outcomes_of(sources, completions, started_at, deadline)[j].failure is Some,
        forall|i: int|
            0 <= i < sources.len() && i != j ==> (#[trigger] outcomes_of(
                sources,
                completions,
                started_at,
                deadline,
            )[i]).failure is None,
    ensures
        ({
            let outs = outcomes_of(sources, completions, started_at, deadline);
            let r = aggregated(sources, completions, started_at, deadline);
            &&& r.outcomes.len() == sources.len()
            &&& failure_count(r.outcomes) == 1
            &&& r.outcomes[j].failure is Some
            &&& forall|i: int, item: ItemView|
                i != j && #[trigger] delivers(outs, i, item) ==> has_key(r.items, item.key)
            &&& forall|m: int|
                0 <= m < r.items.len() ==> delivered_by_another(outs, j, #[trigger] r.items[m])
            &&& keys_distinct(gathered(outs)) ==> r.items.to_multiset() == gathered(
                outs,
            ).to_multiset()
        }),
{
    let outs = outcomes_of(sources, completions, started_at, deadline);
    let r = aggregated(sources, completions, started_at, deadline);
    let g = gathered(outs);
    lemma_one_failure_entry(sources, completions, started_at, deadline, j);
    lemma_gathered(outs, 0);
    lemma_merged(g);
    lemma_failure_has_no_items(sources[j], completions[j], started_at, deadline);
    assert(outs[j].items.len() == 0);
    assert forall|i: int, item: ItemView| i != j && #[trigger] delivers(outs, i, item) implies has_key(
        r.items,
        item.key,
    ) by {
        assert(g.contains(item));
        let m = choose|m: int| 0 <= m < g.len() && g[m] == item;
        assert(g[m].key == item.key);
        assert(has_key(g, item.key));
    }
    assert forall|m: int| 0 <= m < r.items.len() implies delivered_by_another(
        outs,
        j,
        #[trigger] r.items[m],
    ) by {
        assert(g.contains(r.items[m]));
        let i = choose|i: int| 0 <= i && #[trigger] delivers(outs, i, r.items[m]);
        assert(i != j);
        assert(delivers(outs, i, r.items[m]));
    }
}

/// Where every source fails, the result holds no item and one failure
/// entry for each source.
pub proof fn lemma_full_failure(
    sources: Seq<SourceDescriptor>,
    completions: Seq<Option<Completion>>,
    started_at: int,
    deadline: int,
)
    requires
        completions.len() == sources.len(),
        forall|i: int|
            0 <= i < sources.len() ==> (#[trigger] outcomes_of(
                sources,
                completions,
                started_at,
                deadline,
            )[i]).failure is Some,
    ensures
        ({
            let r = aggregated(sources, completions, started_at, deadline);
            &&& r.items.len() == 0
            &&& r.outcomes.len() == sources.len()
            &&& failure_count(r.outcomes) == sources.len()
            &&& forall|i: int| 0 <= i < sources.len() ==> (#[trigger] r.outcomes[i]).failure is Some
        }),
{
    let outs = outcomes_of(sources, completions, started_at, deadline);
    let r = aggregated(sources, completions, started_at, deadline);
    assert forall|i: int| 0 <= i < outs.len() implies (#[trigger] outs[i]).items.len() == 0 by {
        lemma_failure_has_no_items(sources[i], completions[i], started_at, deadline);
    }
    lemma_gathered_nothing(outs, 0);
    lemma_merged(gathered(outs));
    assert forall|i: int| 0 <= i < sources.len() implies (#[trigger] r.outcomes[i]).failure is Some by {
        assert(outs[i].failure is Some);
    }
    lemma_failure_count(r.outcomes);
}

/// Runs a whole pass: every answer that came is taken, every source
/// without one is a timeout, and the outcomes are merged. The pass fails
/// only where no source is given or the answers do not fit the sources;
/// no failure of a source makes it fail.
pub fn aggregate(
    sources: Vec<SourceDescriptor>,
    completions: Vec<Option<Completion>>,
    started_at: i64,
    deadline: i64,
) -> (r: Result<AggregatedResult, CoordinatorError>)
    ensures
        r is Err <==> sources@.len() == 0 || completions@.len() != sources@.len(),
        r matches Ok(result) ==> {
            &&& result@ == aggregated(sources@, completions@, started_at as int, deadline as int)
            &&& result@.outcomes.len() == sources@.len()
            &&& in_order(result@.items)
            &&& keys_distinct(result@.items)
            &&& keys_present(result@.items)
        },
{
    if completions.len() != sources.len() {
        return Err(CoordinatorError::InvalidInput);
    }
    let ghost srcs = sources@;
    let ghost comps = completions@;
    let ghost outs = outcomes_of(srcs, comps, started_at as int, deadline as int);
    let n = sources.len();
    let mut coordinator = match Coordinator::new(sources, started_at, deadline) {
        Ok(c) => c,
        Err(e) => {
            return Err(e);
        },
    };
    let _requests = coordinator.dispatch();
    let mut completions = completions;
    proof {
        assert(coordinator.pool_view() =~= gathered_from(outs, n as int));
    }
    while completions.len() > 0
        invariant
            coordinator.well_formed(),
            coordinator.sources@ == srcs,
            coordinator.started_at == started_at,
            coordinator.deadline == deadline,
            coordinator.phase == Phase::AwaitingResults,
            n == srcs.len() == comps.len(),
            outs == outcomes_of(srcs, comps, started_at as int, deadline as int),
            completions@.len() <= n,
            forall|i: int| 0 <= i < completions@.len() ==> completions@[i] == comps[i],
            forall|i: int|
                0 <= i < completions@.len() ==> #[trigger] coordinator.slots_view()[i]
                    == None::<EntryView>,
            forall|i: int|
                completions@.len() <= i < n ==> #[trigger] coordinator.slots_view()[i] == (
                if comps[i] is Some {
                    Some(entry_of(outs[i]))
                } else {
                    None
                }),
            coordinator.pool_view().to_multiset() == gathered_from(
                outs,
                completions@.len() as int,
            ).to_multiset(),
        decreases completions@.len(),
    {
        let i = completions.len() - 1;
        let ghost pool_before = coordinator.pool_view();
        let ghost slots_before = coordinator.slots_view();
        let ghost rest = gathered_from(outs, i + 1);
        proof {
            assert(coordinator.slots_view()[i as int] == None::<EntryView>);
            assert(coordinator.slots@[i as int] is None);
        }
        match completions.pop() {
            Some(Some(done)) => {
                let accepted = coordinator.record(i, done);
                proof {
                    assert(accepted);
                    assert(comps[i as int] == Some(done));
                    lemma_multiset_commutative(pool_before, outs[i as int].items);
                    lemma_multiset_commutative(outs[i as int].items, rest);
                    assert(pool_before.to_multiset().add(outs[i as int].items.to_multiset())
                        =~= outs[i as int].items.to_multiset().add(rest.to_multiset()));
                }
            },
            _ => {
                proof {
                    assert(comps[i as int] is None);
                    lemma_late_answer_is_timeout(
                        srcs[i as int],
                        comps[i as int],
                        started_at as int,
                        deadline as int,
                    );
                    assert(outs[i as int].items =~= Seq::empty());
                    assert(gathered_from(outs, i as int) =~= rest);
                    assert(slots_before[i as int] == None::<EntryView>);
                }
            },
        }
    }
    let ghost pool = coordinator.pool_view();
    let ghost slots = coordinator.slots_view();
    coordinator.expire();
    proof {
        assert(coordinator.pool_view() == pool);
        assert(coordinator.slots_view() == slots);
    }
    let result = coordinator.finish();
    proof {
        lemma_merge_order_independent(pool, gathered(outs));
        lemma_merged(gathered(outs));
        let closed = closed_slots(srcs, slots);
        assert forall|i: int| 0 <= i < n implies closed[i] == entries_of(outs)[i] by {
            assert(slots[i] == (if comps[i] is Some {
                Some(entry_of(outs[i]))
            } else {
                None
            }));
            assert(outs[i] == outcome_of(srcs[i], comps[i], started_at as int, deadline as int));
            if comps[i] is None {
                lemma_late_answer_is_timeout(srcs[i], comps[i], started_at as int, deadline as int);
            }
        }
        assert(result@.outcomes =~= entries_of(outs));
    }
    Ok(result)
}

} // verus!
