//! The source fetcher's part that decides: what the answer of the network
//! capability, and the time at which it came, make of one retrieval.

use vstd::prelude::*;
use vstd::string::StringSliceAdditionalSpecFns;
use crate::bytes::copy_of;
use crate::outcome::{Failure, FailureKind, FailureView};

verus! {

/// What the network capability answered.
#[derive(Clone, Debug, PartialEq, Eq)]
pub enum FetchReply {
    /// The payload and the content type that came with it.
    Body { content_type: Vec<u8>, bytes: Vec<u8> },
    /// The capability gave up waiting.
    TimedOut,
    /// The transport failed; `detail` says how.
    Unreachable { detail: Vec<u8> },
    /// The source answered with a status that is no success.
    BadStatus { status: u16 },
}

/// An answer and the time at which it came, in milliseconds since the epoch.
#[derive(Clone, Debug, PartialEq, Eq)]
pub struct Completion {
    pub reply: FetchReply,
    pub finished_at: i64,
}

/// What one retrieval came to.
#[derive(Clone, Debug, PartialEq, Eq)]
pub enum RawFetchResult {
    Payload { content_type: Vec<u8>, bytes: Vec<u8>, duration_ms: u64 },
    Failed(Failure),
}

pub enum RawView {
    Payload { content_type: Seq<u8>, bytes: Seq<u8>, duration_ms: int },
    Failed(FailureView),
}

impl View for RawFetchResult {
    type V = RawView;

    open spec fn view(&self) -> RawView {
        match self {
            RawFetchResult::Payload { content_type, bytes, duration_ms } => RawView::Payload {
                content_type: content_type@,
                bytes: bytes@,
                duration_ms: *duration_ms as int,
            },
            RawFetchResult::Failed(f) => RawView::Failed(f@),
        }
    }
}

/// The decimal digits of `n`.
pub open spec fn decimal(n: nat) -> Seq<u8>
    decreases n,
{
    if n < 10 {
        seq![(48 + n) as u8]
    } else {
        decimal(n / 10).push((48 + n % 10) as u8)
    }
}

pub open spec fn timeout_message() -> Seq<u8> {
    "deadline exceeded".spec_bytes()
}

/// The failure of a unit that did not answer in time.
pub open spec fn timeout_failure() -> FailureView {
    FailureView { kind: FailureKind::Timeout, message: timeout_message() }
}

/// How long a retrieval took, in milliseconds; zero if the clock went back.
pub open spec fn duration(started_at: int, finished_at: int) -> int {
    if finished_at > started_at {
        finished_at - started_at
    } else {
        0
    }
}

/// What an answer comes to. No answer, or one that came after the
/// deadline, is a timeout, whatever the answer holds. Else a payload is
/// handed on with its content type and the time it took; a transport
/// failure is `Unreachable` with its detail; a bad status is `BadStatus`
/// with the status in decimal digits.
pub open spec fn fetched(completion: Option<Completion>, started_at: int, deadline: int) -> RawView {
    match completion {
        None => RawView::Failed(timeout_failure()),
        Some(c) => if c.finished_at > deadline {
            RawView::Failed(timeout_failure())
        } else {
            match c.reply {
                FetchReply::Body { content_type, bytes } => RawView::Payload {
                    content_type: content_type@,
                    bytes: bytes@,
                    duration_ms: duration(started_at, c.finished_at as int),
                },
                FetchReply::TimedOut => RawView::Failed(timeout_failure()),
                FetchReply::Unreachable { detail } => RawView::Failed(
                    FailureView { kind: FailureKind::Unreachable, message: detail@ },
                ),
                FetchReply::BadStatus { status } => RawView::Failed(
                    FailureView { kind: FailureKind::BadStatus, message: decimal(status as nat) },
                ),
            }
        },
    }
}

fn push_decimal(out: &mut Vec<u8>, n: u16)
    ensures
        final(out)@ == old(out)@ + decimal(n as nat),
    decreases n,
{
    if n < 10 {
        out.push(48 + n as u8);
        assert(out@ =~= old(out)@ + decimal(n as nat));
    } else {
        push_decimal(out, n / 10);
        out.push(48 + (n % 10) as u8);
        assert(out@ =~= old(out)@ + decimal(n as nat));
    }
}

/// The failure of a unit that did not answer in time.
pub fn timed_out() -> (f: Failure)
    ensures
        f@ == timeout_failure(),
{
    Failure { kind: FailureKind::Timeout, message: copy_of("deadline exceeded".as_bytes()) }
}

/// Decides what an answer of the network capability comes to.
pub fn classify(completion: Option<Completion>, started_at: i64, deadline: i64) -> (r:
    RawFetchResult)
    ensures
        r@ == fetched(completion, started_at as int, deadline as int),
{
    match completion {
        None => RawFetchResult::Failed(timed_out()),
        Some(c) => {
            if c.finished_at > deadline {
                RawFetchResult::Failed(timed_out())
            } else {
                let finished_at = c.finished_at;
                match c.reply {
                    FetchReply::Body { content_type, bytes } => {
                        let duration_ms: u64 = if finished_at > started_at {
                            (finished_at as i128 - started_at as i128) as u64
                        } else {
                            0
                        };
                        RawFetchResult::Payload { content_type, bytes, duration_ms }
                    },
                    FetchReply::TimedOut => RawFetchResult::Failed(timed_out()),
                    FetchReply::Unreachable { detail } => RawFetchResult::Failed(
                        Failure { kind: FailureKind::Unreachable, message: detail },
                    ),
                    FetchReply::BadStatus { status } => {
                        let mut message: Vec<u8> = Vec::new();
                        push_decimal(&mut message, status);
                        assert(message@ =~= decimal(status as nat));
                        RawFetchResult::Failed(
                            Failure { kind: FailureKind::BadStatus, message: message },
                        )
                    },
                }
            }
        },
    }
}

} // verus!
