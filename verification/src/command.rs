//! The boundary of the engine: the one operation that the presentation
//! layer sees, with its configuration and its single error channel.

use vstd::prelude::*;
use crate::coordinator::CoordinatorError;
use crate::fetch::Completion;
use crate::item::{keys_distinct, keys_present};
use crate::order::in_order;
use crate::outcome::AggregatedResult;
use crate::pass::{aggregate, aggregated};
use crate::source::SourceDescriptor;

verus! {

/// How long a pass may take unless the configuration says otherwise, in
/// milliseconds.
pub const DEFAULT_DEADLINE_MS: u64 = 10000;

/// What a pass is run with.
#[derive(Clone, Copy, Debug, PartialEq, Eq, Structural)]
pub struct PassConfig {
    /// How long the whole pass may take, in milliseconds.
    pub deadline_ms: u64,
    /// How many retrievals may be in flight at once; `None` for as many
    /// as there are sources.
    pub max_concurrent_fetches: Option<usize>,
}

impl Default for PassConfig {
    fn default() -> (c: PassConfig)
        ensures
            c.deadline_ms == DEFAULT_DEADLINE_MS,
            c.max_concurrent_fetches is None,
    {
        PassConfig { deadline_ms: DEFAULT_DEADLINE_MS, max_concurrent_fetches: None }
    }
}

/// The deadline of a pass that starts at `started_at` and may take
/// `budget_ms`: their sum, or the latest instant there is if the sum is
/// later than that.
pub open spec fn deadline_after(started_at: int, budget_ms: int) -> int {
    if started_at + budget_ms > i64::MAX {
        i64::MAX as int
    } else {
        started_at + budget_ms
    }
}

/// How many retrievals may be in flight at once for `source_count`
/// sources: the configured cap where there is one of at least one and
/// below the number of sources, else the number of sources.
pub open spec fn fan_out_of(max_concurrent: Option<usize>, source_count: int) -> int {
    match max_concurrent {
        Some(m) => if 1 <= m < source_count {
            m as int
        } else {
            source_count
        },
        None => source_count,
    }
}

/// What can be amiss with what the command is given.
#[derive(Clone, Copy, Debug, PartialEq, Eq, Structural)]
pub enum CommandError {
    /// No source is configured. The caller may be told; it is no fault,
    /// and the command answers with an empty result.
    NoSourcesConfigured,
    /// The answers do not fit the sources.
    InvalidInput,
}

/// What is amiss with `source_count` sources and `answer_count` answers,
/// if anything.
pub open spec fn input_fault(source_count: int, answer_count: int) -> Option<CommandError> {
    if source_count == 0 {
        Some(CommandError::NoSourcesConfigured)
    } else if answer_count != source_count {
        Some(CommandError::InvalidInput)
    } else {
        None
    }
}

/// The words for an error of the coordinator.
pub open spec fn error_text(e: CoordinatorError) -> Seq<char> {
    match e {
        CoordinatorError::InvalidInput => "invalid input: the answers do not fit the sources"@,
    }
}

/// Computes the overall deadline of a pass.
pub fn overall_deadline(started_at: i64, budget_ms: u64) -> (d: i64)
    ensures
        d == deadline_after(started_at as int, budget_ms as int),
        d >= started_at,
{
    let sum: i128 = started_at as i128 + budget_ms as i128;
    if sum > i64::MAX as i128 {
        i64::MAX
    } else {
        sum as i64
    }
}

/// Computes how many retrievals may be in flight at once.
pub fn fan_out(config: &PassConfig, source_count: usize) -> (n: usize)
    ensures
        n == fan_out_of(config.max_concurrent_fetches, source_count as int),
        n <= source_count,
{
    match config.max_concurrent_fetches {
        Some(m) => {
            if 1 <= m && m < source_count {
                m
            } else {
                source_count
            }
        },
        None => source_count,
    }
}

/// Looks at what the command is given before a pass is started.
pub fn check_input(source_count: usize, answer_count: usize) -> (r: Result<(), CommandError>)
    ensures
        match r {
            Ok(_) => input_fault(source_count as int, answer_count as int) is None,
            Err(e) => input_fault(source_count as int, answer_count as int) == Some(e),
        },
{
    if source_count == 0 {
        Err(CommandError::NoSourcesConfigured)
    } else if answer_count != source_count {
        Err(CommandError::InvalidInput)
    } else {
        Ok(())
    }
}

/// Says in words what went wrong, for the one error channel of the
/// boundary.
pub fn describe(e: CoordinatorError) -> (text: String)
    ensures
        text@ == error_text(e),
{
    match e {
        CoordinatorError::InvalidInput => "invalid input: the answers do not fit the sources".to_owned(),
    }
}

/// Runs the command on the sources that are configured and the answers
/// that came for them. With no source configured the result is empty,
/// and that is no error. Else the result is that of the pass; no failure
/// of a source, nor of all of them, is an error. The one error is a row
/// of answers that does not fit the row of sources.
pub fn run_command(
    sources: Vec<SourceDescriptor>,
    completions: Vec<Option<Completion>>,
    started_at: i64,
    deadline: i64,
) -> (r: Result<AggregatedResult, String>)
    ensures
        r is Err <==> input_fault(sources@.len() as int, completions@.len() as int) == Some(
            CommandError::InvalidInput,
        ),
        r matches Err(text) ==> text@ == error_text(CoordinatorError::InvalidInput),
        r matches Ok(result) ==> {
            &&& sources@.len() == 0 ==> result@.items.len() == 0 && result@.outcomes.len() == 0
            &&& sources@.len() > 0 ==> result@ == aggregated(
                sources@,
                completions@,
                started_at as int,
                deadline as int,
            )
            &&& result@.outcomes.len() == sources@.len()
            &&& in_order(result@.items)
            &&& keys_distinct(result@.items)
            &&& keys_present(result@.items)
        },
{
    match check_input(sources.len(), completions.len()) {
        Err(CommandError::NoSourcesConfigured) => {
            let result = AggregatedResult { items: Vec::new(), outcomes: Vec::new() };
            Ok(result)
        },
        Err(CommandError::InvalidInput) => Err(describe(CoordinatorError::InvalidInput)),
        Ok(_) => match aggregate(sources, completions, started_at, deadline) {
            Ok(result) => Ok(result),
            Err(e) => Err(describe(e)),
        },
    }
}

} // verus!
