//! The aggregation coordinator: one pass over all sources.
//!
//! The coordinator decides and the host acts. The host asks for the
//! requests, performs them in any order and at any degree of parallelism,
//! and hands each answer back as it comes; when the overall deadline has
//! passed, or every answer is in, it asks for the result. Each source has
//! a slot of its own for its outcome, so that no answer can touch what
//! another source came to.

use vstd::prelude::*;
use vstd::seq_lib::lemma_multiset_commutative;
use crate::bytes::copy_of;
use crate::fetch::{timed_out, timeout_failure, Completion};
use crate::item::{item_views, keys_distinct, keys_present, ItemView, NormalizedItem};
use crate::merge::{lemma_merge_order_independent, merge_items, merged};
use crate::order::in_order;
use crate::outcome::{
    entry_of,
    failed_outcome,
    AggregatedResult,
    EntryView,
    FailureKind,
    OutcomeEntry,
    OutcomeView,
    SourceOutcome,
};
use crate::source::{deadline_for, unit_deadline, SourceDescriptor};
use crate::unit::{outcome_of, process};

verus! {

/// Where a pass stands. A pass that is done is gone: `finish` takes the
/// coordinator and gives the result in its place.
#[derive(Clone, Copy, Debug, PartialEq, Eq, Structural)]
pub enum Phase {
    /// Nothing has been handed out yet.
    Dispatching,
    /// The requests are out; answers are taken.
    AwaitingResults,
    /// No answer is taken any more.
    Merging,
}

/// Why a pass could not be started.
#[derive(Clone, Copy, Debug, PartialEq, Eq, Structural)]
pub enum CoordinatorError {
    /// No source was given, or the answers do not fit the sources.
    InvalidInput,
}

/// What the host is to retrieve for the source at `index`, and by when.
#[derive(Clone, Debug, PartialEq, Eq)]
pub struct FetchRequest {
    pub index: usize,
    pub url: Vec<u8>,
    pub deadline: i64,
}

/// The state of one pass.
pub struct Coordinator {
    pub sources: Vec<SourceDescriptor>,
    pub started_at: i64,
    pub deadline: i64,
    pub phase: Phase,
    /// For each source, the entry of its outcome once that is known.
    pub slots: Vec<Option<OutcomeEntry>>,
    /// The items of all outcomes taken so far.
    pub pool: Vec<NormalizedItem>,
}

pub open spec fn slot_view(slot: Option<OutcomeEntry>) -> Option<EntryView> {
    match slot {
        Some(e) => Some(e@),
        None => None,
    }
}

pub open spec fn slot_views(s: Seq<Option<OutcomeEntry>>) -> Seq<Option<EntryView>> {
    Seq::new(s.len(), |i: int| slot_view(s[i]))
}

/// The entry of a source that did not answer in time.
pub open spec fn timeout_entry(source: SourceDescriptor) -> EntryView {
    entry_of(failed_outcome(source.id@, FailureKind::Timeout, timeout_failure().message))
}

/// The entry of a source at the end of a pass: that of its outcome, or,
/// where none was taken, a timeout.
pub open spec fn closed_slot(source: SourceDescriptor, slot: Option<EntryView>) -> EntryView {
    match slot {
        Some(e) => e,
        None => timeout_entry(source),
    }
}

pub open spec fn closed_slots(sources: Seq<SourceDescriptor>, slots: Seq<Option<EntryView>>) -> Seq<
    EntryView,
> {
    Seq::new(sources.len(), |i: int| closed_slot(sources[i], slots[i]))
}

/// The slots after the outcome of the source at `index` was taken.
pub open spec fn slots_after(slots: Seq<Option<EntryView>>, index: int, outcome: OutcomeView) -> Seq<
    Option<EntryView>,
> {
    slots.update(index, Some(entry_of(outcome)))
}

/// The pool after an outcome was taken.
pub open spec fn pool_after(pool: Seq<ItemView>, outcome: OutcomeView) -> Seq<ItemView> {
    pool + outcome.items
}

impl Coordinator {
    /// There is a source, each source has its slot, and every item in
    /// the pool has its key.
    pub open spec fn well_formed(&self) -> bool {
        &&& self.sources@.len() > 0
        &&& self.slots@.len() == self.sources@.len()
        &&& keys_present(self.pool_view())
    }

    pub open spec fn slots_view(&self) -> Seq<Option<EntryView>> {
        slot_views(self.slots@)
    }

    pub open spec fn pool_view(&self) -> Seq<ItemView> {
        item_views(self.pool@)
    }

    /// Starts a pass over `sources` at the time `started_at`, to end at
    /// `deadline`. A pass needs at least one source.
    pub fn new(sources: Vec<SourceDescriptor>, started_at: i64, deadline: i64) -> (r: Result<
        Coordinator,
        CoordinatorError,
    >)
        ensures
            r is Err <==> sources@.len() == 0,
            r matches Ok(c) ==> {
                &&& c.well_formed()
                &&& c.sources == sources
                &&& c.started_at == started_at
                &&& c.deadline == deadline
                &&& c.phase == Phase::Dispatching
                &&& c.pool@.len() == 0
                &&& forall|i: int| 0 <= i < c.slots@.len() ==> c.slots@[i] is None
            },
    {
        if sources.len() == 0 {
            return Err(CoordinatorError::InvalidInput);
        }
        let mut slots: Vec<Option<OutcomeEntry>> = Vec::new();
        let mut i: usize = 0;
        while i < sources.len()
            invariant
                i <= sources.len(),
                slots@.len() == i,
                forall|j: int| 0 <= j < i ==> slots@[j] is None,
            decreases sources.len() - i,
        {
            slots.push(None);
            i += 1;
        }
        Ok(
            Coordinator {
                sources: sources,
                started_at: started_at,
                deadline: deadline,
                phase: Phase::Dispatching,
                slots: slots,
                pool: Vec::new(),
            },
        )
    }

    /// Hands out one request for each source, each with the deadline of
    /// its unit, and goes on to await the answers. Once the requests are
    /// out there are none left to hand out.
    pub fn dispatch(&mut self) -> (requests: Vec<FetchRequest>)
        requires
            old(self).well_formed(),
        ensures
            final(self).well_formed(),
            final(self).sources == old(self).sources,
            final(self).started_at == old(self).started_at,
            final(self).deadline == old(self).deadline,
            final(self).slots == old(self).slots,
            final(self).pool == old(self).pool,
            old(self).phase == Phase::Dispatching ==> {
                &&& final(self).phase == Phase::AwaitingResults
                &&& requests@.len() == old(self).sources@.len()
                &&& forall|i: int|
                    0 <= i < requests@.len() ==> {
                        &&& (#[trigger] requests@[i]).index == i
                        &&& requests@[i].url@ == old(self).sources@[i].url@
                        &&& requests@[i].deadline == unit_deadline(
                            old(self).sources@[i].timeout_ms,
                            old(self).started_at as int,
                            old(self).deadline as int,
                        )
                    }
            },
            old(self).phase != Phase::Dispatching ==> final(self).phase == old(self).phase
                && requests@.len() == 0,
    {
        let mut requests: Vec<FetchRequest> = Vec::new();
        match self.phase {
            Phase::Dispatching => {},
            _ => {
                return requests;
            },
        }
        let mut i: usize = 0;
        while i < self.sources.len()
            invariant
                i <= self.sources.len(),
                requests@.len() == i,
                *self == *old(self),
                forall|j: int|
                    0 <= j < i ==> {
                        &&& (#[trigger] requests@[j]).index == j
                        &&& requests@[j].url@ == self.sources@[j].url@
                        &&& requests@[j].deadline == unit_deadline(
                            self.sources@[j].timeout_ms,
                            self.started_at as int,
                            self.deadline as int,
                        )
                    },
            decreases self.sources.len() - i,
        {
            let request = FetchRequest {
                index: i,
                url: copy_of(self.sources[i].url.as_slice()),
                deadline: deadline_for(&self.sources[i], self.started_at, self.deadline),
            };
            requests.push(request);
            i += 1;
        }
        self.phase = Phase::AwaitingResults;
        requests
    }

    /// Takes the answer for the source at `index`, if answers are awaited,
    /// there is such a source and its slot is free. The outcome goes to
    /// that slot and its items to the pool; nothing else changes. An
    /// answer that is not taken changes nothing.
    pub fn record(&mut self, index: usize, completion: Completion) -> (accepted: bool)
        requires
            old(self).well_formed(),
        ensures
            accepted == (old(self).phase == Phase::AwaitingResults && index < old(self).slots@.len()
                && old(self).slots@[index as int] is None),
            !accepted ==> *final(self) == *old(self),
            accepted ==> {
                let outcome = outcome_of(
                    old(self).sources@[index as int],
                    Some(completion),
                    old(self).started_at as int,
                    old(self).deadline as int,
                );
                &&& final(self).well_formed()
                &&& final(self).sources == old(self).sources
                &&& final(self).started_at == old(self).started_at
                &&& final(self).deadline == old(self).deadline
                &&& final(self).phase == Phase::AwaitingResults
                &&& final(self).slots_view() == slots_after(
                    old(self).slots_view(),
                    index as int,
                    outcome,
                )
                &&& final(self).pool_view() == pool_after(old(self).pool_view(), outcome)
            },
    {
        match self.phase {
            Phase::AwaitingResults => {},
            _ => {
                return false;
            },
        }
        if index >= self.slots.len() || self.slots[index].is_some() {
            return false;
        }
        let outcome = process(&self.sources[index], Some(completion), self.started_at, self.deadline);
        let ghost taken = outcome@;
        let SourceOutcome { source, failure, items } = outcome;
        let mut items = items;
        let entry = OutcomeEntry { source: source, failure: failure, delivered: items.len() };
        assert(entry@ == entry_of(taken));
        self.pool.append(&mut items);
        self.slots[index] = Some(entry);
        proof {
            assert(self.slots_view() =~= old(self).slots_view().update(
                index as int,
                Some(entry_of(taken)),
            ));
            assert(self.pool_view() =~= old(self).pool_view() + taken.items);
            assert forall|i: int| 0 <= i < self.pool_view().len() implies (
            #[trigger] self.pool_view()[i]).key.len() > 0 by {
                if i < old(self).pool_view().len() {
                    assert(old(self).pool_view()[i].key.len() > 0);
                } else {
                    assert(taken.items[i - old(self).pool_view().len()].key.len() > 0);
                }
            }
        }
        true
    }

    /// Whether the outcome of every source is known.
    pub fn is_complete(&self) -> (r: bool)
        ensures
            r == forall|i: int| 0 <= i < self.slots@.len() ==> self.slots@[i] is Some,
    {
        let mut i: usize = 0;
        while i < self.slots.len()
            invariant
                i <= self.slots.len(),
                forall|j: int| 0 <= j < i ==> self.slots@[j] is Some,
            decreases self.slots.len() - i,
        {
            if self.slots[i].is_none() {
                return false;
            }
            i += 1;
        }
        true
    }

    /// Ends the taking of answers: the overall deadline has passed. From
    /// now on no answer is taken, so that what a straggler brings cannot
    /// reach the result.
    pub fn expire(&mut self)
        ensures
            old(self).well_formed() ==> final(self).well_formed(),
            final(self).phase == Phase::Merging,
            final(self).sources == old(self).sources,
            final(self).started_at == old(self).started_at,
            final(self).deadline == old(self).deadline,
            final(self).slots == old(self).slots,
            final(self).pool == old(self).pool,
    {
        self.phase = Phase::Merging;
    }

    /// Ends the pass and gives its result: the pool merged, and for each
    /// source, in the order of the sources, the entry of its outcome, or
    /// of a timeout where no answer was taken.
    pub fn finish(self) -> (result: AggregatedResult)
        requires
            self.well_formed(),
        ensures
            result@.items == merged(self.pool_view()),
            result@.outcomes == closed_slots(self.sources@, self.slots_view()),
            in_order(result@.items),
            keys_distinct(result@.items),
            keys_present(result@.items),
    {
        let Coordinator { sources, started_at, deadline, phase, slots, pool } = self;
        let ghost slots_before = slots@;
        let n = slots.len();
        let mut slots = slots;
        let mut backwards: Vec<OutcomeEntry> = Vec::new();
        while slots.len() > 0
            invariant
                n == slots_before.len() == sources@.len(),
                slots@.len() + backwards@.len() == n,
                forall|j: int| 0 <= j < slots@.len() ==> slots@[j] == slots_before[j],
                forall|j: int|
                    0 <= j < backwards@.len() ==> (#[trigger] backwards@[j])@ == closed_slot(
                        sources@[n - 1 - j],
                        slot_view(slots_before[n - 1 - j]),
                    ),
            decreases slots@.len(),
        {
            let i = slots.len() - 1;
            let entry = match slots.pop() {
                Some(Some(e)) => e,
                _ => {
                    let f = timed_out();
                    OutcomeEntry {
                        source: copy_of(sources[i].id.as_slice()),
                        failure: Some(f),
                        delivered: 0,
                    }
                },
            };
            backwards.push(entry);
        }
        let mut outcomes: Vec<OutcomeEntry> = Vec::new();
        while backwards.len() > 0
            invariant
                backwards@.len() + outcomes@.len() == n,
                n == slots_before.len() == sources@.len(),
                forall|j: int|
                    0 <= j < backwards@.len() ==> (#[trigger] backwards@[j])@ == closed_slot(
                        sources@[n - 1 - j],
                        slot_view(slots_before[n - 1 - j]),
                    ),
                forall|j: int|
                    0 <= j < outcomes@.len() ==> (#[trigger] outcomes@[j])@ == closed_slot(
                        sources@[j],
                        slot_view(slots_before[j]),
                    ),
            decreases backwards@.len(),
        {
            match backwards.pop() {
                Some(e) => {
                    outcomes.push(e);
                },
                None => {},
            }
        }
        let items = merge_items(pool);
        let result = AggregatedResult { items: items, outcomes: outcomes };
        assert(result@.outcomes =~= closed_slots(sources@, slot_views(slots_before)));
        result
    }
}

/// Two answers for two sources can be taken in either order: the slots
/// come out the same, and so does what the pool is merged to.
pub proof fn lemma_answers_commute(
    slots: Seq<Option<EntryView>>,
    pool: Seq<ItemView>,
    i: int,
    first: OutcomeView,
    j: int,
    second: OutcomeView,
)
    requires
        0 <= i < slots.len(),
        0 <= j < slots.len(),
        i != j,
    ensures
        slots_after(slots_after(slots, i, first), j, second) == slots_after(
            slots_after(slots, j, second),
            i,
            first,
        ),
        merged(pool_after(pool_after(pool, first), second)) == merged(
            pool_after(pool_after(pool, second), first),
        ),
{
    assert(slots_after(slots_after(slots, i, first), j, second) =~= slots_after(
        slots_after(slots, j, second),
        i,
        first,
    ));
    let a = pool_after(pool_after(pool, first), second);
    let b = pool_after(pool_after(pool, second), first);
    lemma_multiset_commutative(pool + first.items, second.items);
    lemma_multiset_commutative(pool, first.items);
    lemma_multiset_commutative(pool + second.items, first.items);
    lemma_multiset_commutative(pool, second.items);
    assert(a.to_multiset() =~= b.to_multiset());
    lemma_merge_order_independent(a, b);
}

/// Two passes over the same sources that took the same answers, in
/// whatever order, end in the same result.
pub proof fn lemma_completion_order_is_irrelevant(a: Coordinator, b: Coordinator)
    requires
        a.sources@ == b.sources@,
        a.slots_view() == b.slots_view(),
        a.pool_view().to_multiset() == b.pool_view().to_multiset(),
    ensures
        merged(a.pool_view()) == merged(b.pool_view()),
        closed_slots(a.sources@, a.slots_view()) == closed_slots(b.sources@, b.slots_view()),
{
    lemma_merge_order_independent(a.pool_view(), b.pool_view());
}

} // verus!
