//! The description of one feed source.

use vstd::prelude::*;
use crate::format::FormatKind;

verus! {

/// One feed to poll. The engine reads it and never changes it.
#[derive(Clone, Debug, PartialEq, Eq)]
pub struct SourceDescriptor {
    /// Identifier, unique among the sources of one pass.
    pub id: Vec<u8>,
    /// Where the feed is retrieved from.
    pub url: Vec<u8>,
    /// The format of the feed, where it is known beforehand.
    pub format_hint: Option<FormatKind>,
    /// How long this source may take, in milliseconds, where that is less
    /// than the whole pass may take.
    pub timeout_ms: Option<u64>,
}

/// The deadline of one unit of work: the end of its own timeout, counted
/// from the start of the pass, or the overall deadline, whichever is
/// earlier.
pub open spec fn unit_deadline(timeout_ms: Option<u64>, started_at: int, overall: int) -> int {
    match timeout_ms {
        Some(ms) => if started_at + ms < overall {
            started_at + ms
        } else {
            overall
        },
        None => overall,
    }
}

/// Computes the deadline of one unit of work.
pub fn deadline_for(source: &SourceDescriptor, started_at: i64, overall: i64) -> (d: i64)
    ensures
        d == unit_deadline(source.timeout_ms, started_at as int, overall as int),
        d <= overall,
{
    match source.timeout_ms {
        Some(ms) => {
            let own: i128 = started_at as i128 + ms as i128;
            if own < overall as i128 {
                own as i64
            } else {
                overall
            }
        },
        None => overall,
    }
}

} // verus!
