//! What one source came to in one pass, and the result of the whole pass.

use vstd::prelude::*;
use crate::item::{item_views, ItemView, NormalizedItem};

verus! {

/// The ways in which one source can fail. None of them ends the pass.
#[derive(Clone, Copy, Debug, PartialEq, Eq, Structural)]
pub enum FailureKind {
    /// The source did not answer before its deadline.
    Timeout,
    /// The transport failed.
    Unreachable,
    /// The source answered with a status that is no success.
    BadStatus,
    /// No parser claims the payload.
    UnknownFormat,
    /// The payload is not well-formed in its format.
    MalformedPayload,
}

/// A failure: its kind and a short description.
#[derive(Clone, Debug, PartialEq, Eq)]
pub struct Failure {
    pub kind: FailureKind,
    pub message: Vec<u8>,
}

pub struct FailureView {
    pub kind: FailureKind,
    pub message: Seq<u8>,
}

impl View for Failure {
    type V = FailureView;

    open spec fn view(&self) -> FailureView {
        FailureView { kind: self.kind, message: self.message@ }
    }
}

pub open spec fn failure_view(f: Option<Failure>) -> Option<FailureView> {
    match f {
        Some(x) => Some(x@),
        None => None,
    }
}

/// What one unit of work came to: the items of the source, or the failure,
/// and then no items.
#[derive(Clone, Debug, PartialEq, Eq)]
pub struct SourceOutcome {
    pub source: Vec<u8>,
    pub failure: Option<Failure>,
    pub items: Vec<NormalizedItem>,
}

pub struct OutcomeView {
    pub source: Seq<u8>,
    pub failure: Option<FailureView>,
    pub items: Seq<ItemView>,
}

impl View for SourceOutcome {
    type V = OutcomeView;

    open spec fn view(&self) -> OutcomeView {
        OutcomeView {
            source: self.source@,
            failure: failure_view(self.failure),
            items: item_views(self.items@),
        }
    }
}

/// The outcome of a source that failed.
pub open spec fn failed_outcome(source: Seq<u8>, kind: FailureKind, message: Seq<u8>) -> OutcomeView {
    OutcomeView {
        source: source,
        failure: Some(FailureView { kind: kind, message: message }),
        items: Seq::empty(),
    }
}

/// The entry of one source in the report of a pass: whether it failed, and
/// how many items it delivered.
#[derive(Clone, Debug, PartialEq, Eq)]
pub struct OutcomeEntry {
    pub source: Vec<u8>,
    pub failure: Option<Failure>,
    pub delivered: usize,
}

pub struct EntryView {
    pub source: Seq<u8>,
    pub failure: Option<FailureView>,
    pub delivered: int,
}

impl View for OutcomeEntry {
    type V = EntryView;

    open spec fn view(&self) -> EntryView {
        EntryView {
            source: self.source@,
            failure: failure_view(self.failure),
            delivered: self.delivered as int,
        }
    }
}

/// The entry that reports the outcome `o`.
pub open spec fn entry_of(o: OutcomeView) -> EntryView {
    EntryView { source: o.source, failure: o.failure, delivered: o.items.len() as int }
}

pub open spec fn entry_views(s: Seq<OutcomeEntry>) -> Seq<EntryView> {
    Seq::new(s.len(), |i: int| s[i]@)
}

/// How many of the entries report a failure.
pub open spec fn failure_count(s: Seq<EntryView>) -> nat
    decreases s.len(),
{
    if s.len() == 0 {
        0
    } else {
        failure_count(s.drop_last()) + if s.last().failure is Some {
            1nat
        } else {
            0nat
        }
    }
}

/// The result of one pass: the items of all sources, merged, and one entry
/// for each source, in the order in which the sources were given.
#[derive(Clone, Debug, PartialEq, Eq)]
pub struct AggregatedResult {
    pub items: Vec<NormalizedItem>,
    pub outcomes: Vec<OutcomeEntry>,
}

pub struct ResultView {
    pub items: Seq<ItemView>,
    pub outcomes: Seq<EntryView>,
}

impl View for AggregatedResult {
    type V = ResultView;

    open spec fn view(&self) -> ResultView {
        ResultView { items: item_views(self.items@), outcomes: entry_views(self.outcomes@) }
    }
}

} // verus!
