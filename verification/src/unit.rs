//! One unit of work: from the answer for one source to its outcome, by way
//! of the fetcher's decision, the format, the parser and the normalizer.

use vstd::prelude::*;
use vstd::string::StringSliceAdditionalSpecFns;
use crate::format::Malformation;
use crate::parse::{parse, parsed};
use crate::bytes::copy_of;
use crate::fetch::{classify, fetched, timeout_failure, Completion, RawFetchResult, RawView};
use crate::format::{detect, detected};
use crate::identity::lemma_identity_key_present;
use crate::item::{keys_present, NormalizedItem};
use crate::normalize::{normalize_all, normalized_items};
use crate::outcome::{failed_outcome, Failure, FailureKind, OutcomeView, SourceOutcome};
use crate::source::{deadline_for, unit_deadline, SourceDescriptor};

verus! {

/// The words that say why a payload is malformed.
pub open spec fn malformation_message(m: Malformation) -> Seq<u8> {
    match m {
        Malformation::BrokenMarkup => "broken markup".spec_bytes(),
        Malformation::WrongRoot => "wrong root element".spec_bytes(),
        Malformation::Mismatch => "mismatched end tag".spec_bytes(),
        Malformation::Unclosed => "unclosed element".spec_bytes(),
        Malformation::Misplaced => "misplaced token".spec_bytes(),
    }
}

pub open spec fn unknown_format_message() -> Seq<u8> {
    "no known format".spec_bytes()
}

/// The time at which the answer came, or the deadline if none came.
pub open spec fn fetch_time(completion: Option<Completion>, deadline: int) -> int {
    match completion {
        Some(c) => c.finished_at as int,
        None => deadline,
    }
}

/// The outcome of a source from which the payload `bytes` came at the
/// time `fetch_time`, with the content type `content_type`.
pub open spec fn payload_outcome(
    source: SourceDescriptor,
    content_type: Seq<u8>,
    bytes: Seq<u8>,
    fetch_time: int,
) -> OutcomeView {
    match detected(source.format_hint, content_type, bytes) {
        None => failed_outcome(source.id@, FailureKind::UnknownFormat, unknown_format_message()),
        Some(kind) => match parsed(kind, bytes) {
            Err(m) => failed_outcome(
                source.id@,
                FailureKind::MalformedPayload,
                malformation_message(m),
            ),
            Ok(drafts) => OutcomeView {
                source: source.id@,
                failure: None,
                items: normalized_items(drafts, source.id@, fetch_time),
            },
        },
    }
}

/// The outcome of the source `source` in a pass that started at
/// `started_at` with the overall deadline `overall`, given the answer
/// `completion` of the network capability, if one came.
#[verifier::opaque]
pub open spec fn outcome_of(
    source: SourceDescriptor,
    completion: Option<Completion>,
    started_at: int,
    overall: int,
) -> OutcomeView {
    let deadline = unit_deadline(source.timeout_ms, started_at, overall);
    match fetched(completion, started_at, deadline) {
        RawView::Failed(f) => failed_outcome(source.id@, f.kind, f.message),
        RawView::Payload { content_type, bytes, duration_ms } => payload_outcome(
            source,
            content_type,
            bytes,
            fetch_time(completion, deadline),
        ),
    }
}

/// A source that fails delivers no items.
pub proof fn lemma_failure_has_no_items(
    source: SourceDescriptor,
    completion: Option<Completion>,
    started_at: int,
    overall: int,
)
    ensures
        outcome_of(source, completion, started_at, overall).failure is Some ==> outcome_of(
            source,
            completion,
            started_at,
            overall,
        ).items.len() == 0,
        outcome_of(source, completion, started_at, overall).source == source.id@,
{
    reveal(outcome_of);
}

/// Every item of an outcome has a key that is not empty.
pub proof fn lemma_outcome_keys_present(
    source: SourceDescriptor,
    completion: Option<Completion>,
    started_at: int,
    overall: int,
)
    ensures
        keys_present(outcome_of(source, completion, started_at, overall).items),
{
    reveal(outcome_of);
    let items = outcome_of(source, completion, started_at, overall).items;
    assert forall|i: int| 0 <= i < items.len() implies (#[trigger] items[i]).key.len() > 0 by {
        let it = items[i];
        lemma_identity_key_present(it.source, it.link, it.title, it.body);
    }
}

/// An answer that comes after the overall deadline, by however little, is
/// a timeout, and nothing that it holds is used. The same holds where no
/// answer comes.
pub proof fn lemma_late_answer_is_timeout(
    source: SourceDescriptor,
    completion: Option<Completion>,
    started_at: int,
    overall: int,
)
    requires
        completion matches Some(c) ==> c.finished_at > overall,
    ensures
        outcome_of(source, completion, started_at, overall) == failed_outcome(
            source.id@,
            FailureKind::Timeout,
            timeout_failure().message,
        ),
        outcome_of(source, completion, started_at, overall).items.len() == 0,
{
    reveal(outcome_of);
}

/// The same holds of the deadline that a source has of its own: an answer
/// that comes after it is a timeout, though the pass goes on.
pub proof fn lemma_answer_after_own_deadline_is_timeout(
    source: SourceDescriptor,
    completion: Completion,
    started_at: int,
    overall: int,
)
    requires
        completion.finished_at > unit_deadline(source.timeout_ms, started_at, overall),
    ensures
        outcome_of(source, Some(completion), started_at, overall) == failed_outcome(
            source.id@,
            FailureKind::Timeout,
            timeout_failure().message,
        ),
{
    reveal(outcome_of);
}

fn malformation_words(m: Malformation) -> (v: Vec<u8>)
    ensures
        v@ == malformation_message(m),
{
    match m {
        Malformation::BrokenMarkup => copy_of("broken markup".as_bytes()),
        Malformation::WrongRoot => copy_of("wrong root element".as_bytes()),
        Malformation::Mismatch => copy_of("mismatched end tag".as_bytes()),
        Malformation::Unclosed => copy_of("unclosed element".as_bytes()),
        Malformation::Misplaced => copy_of("misplaced token".as_bytes()),
    }
}

/// Reads the payload of one source: finds the format, parses and
/// normalizes.
pub fn read_payload(
    source: &SourceDescriptor,
    content_type: &[u8],
    bytes: &[u8],
    fetch_time: i64,
) -> (outcome: SourceOutcome)
    ensures
        outcome@ == payload_outcome(*source, content_type@, bytes@, fetch_time as int),
        outcome.failure is Some ==> outcome.items@.len() == 0,
{
    let id = copy_of(source.id.as_slice());
    match detect(source.format_hint, content_type, bytes) {
        None => {
            let message = copy_of("no known format".as_bytes());
            let items: Vec<NormalizedItem> = Vec::new();
            let outcome = SourceOutcome {
                source: id,
                failure: Some(Failure { kind: FailureKind::UnknownFormat, message: message }),
                items: items,
            };
            assert(outcome@.items =~= Seq::empty());
            outcome
        },
        Some(kind) => match parse(kind, bytes) {
            Err(m) => {
                let message = malformation_words(m);
                let items: Vec<NormalizedItem> = Vec::new();
                let outcome = SourceOutcome {
                    source: id,
                    failure: Some(Failure { kind: FailureKind::MalformedPayload, message: message }),
                    items: items,
                };
                assert(outcome@.items =~= Seq::empty());
                outcome
            },
            Ok(drafts) => {
                let items = normalize_all(&drafts, source.id.as_slice(), fetch_time);
                SourceOutcome { source: id, failure: None, items: items }
            },
        },
    }
}

/// Does the work of one unit: decides what the answer comes to and reads
/// the payload, if there is one. Whatever goes wrong becomes the failure
/// of this source's outcome.
pub fn process(
    source: &SourceDescriptor,
    completion: Option<Completion>,
    started_at: i64,
    overall: i64,
) -> (outcome: SourceOutcome)
    ensures
        outcome@ == outcome_of(*source, completion, started_at as int, overall as int),
        outcome.failure is Some ==> outcome.items@.len() == 0,
        keys_present(outcome@.items),
{
    proof {
        reveal(outcome_of);
        lemma_outcome_keys_present(*source, completion, started_at as int, overall as int);
    }
    let deadline = deadline_for(source, started_at, overall);
    let fetch_time = match &completion {
        Some(c) => c.finished_at,
        None => deadline,
    };
    match classify(completion, started_at, deadline) {
        RawFetchResult::Failed(f) => {
            let id = copy_of(source.id.as_slice());
            let items: Vec<NormalizedItem> = Vec::new();
            let outcome = SourceOutcome { source: id, failure: Some(f), items: items };
            assert(outcome@.items =~= Seq::empty());
            outcome
        },
        RawFetchResult::Payload { content_type, bytes, duration_ms } => read_payload(
            source,
            content_type.as_slice(),
            bytes.as_slice(),
            fetch_time,
        ),
    }
}

} // verus!
