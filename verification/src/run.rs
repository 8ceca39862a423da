//! From the lines of a history to the verdict on it.

use vstd::prelude::*;
use crate::check::{overall, weak_key_of, CheckError, Checker};
use crate::partition::{partition, scan};
use crate::store::{load, parse_history, texts, LoadError, SkippedLine};
use crate::timeline::{build, orderly, times_apart, Tally, Timeline};
use crate::types::{Consistency, HistoryError, KeyType, OpSpan};

verus! {

/// Why a history got no verdict.
#[derive(Debug, Clone, Copy, PartialEq, Eq, Structural)]
pub enum RunError {
    /// The text could not be read.
    Load(LoadError),
    /// The text records no event.
    EmptyHistory,
    /// A client's number is the largest that the machine holds.
    TooManyClients,
    /// The events are no legal trace.
    History(HistoryError),
    /// A search reached its bound before it could decide.
    Inconclusive,
}

/// The verdict on a history, and the first key that is not linearizable
/// where there is one.
pub type Verdict = Result<(Consistency, Option<KeyType>), RunError>;

/// The tally that the lines of a history fold into. A history must record an
/// event.
pub open spec fn history_tally(lines: Seq<Seq<char>>) -> Result<Tally, RunError> {
    match load(lines) {
        Err(e) => Err(RunError::Load(e)),
        Ok(end) => if end.events.len() == 0 {
            Err(RunError::EmptyHistory)
        } else if end.cursor.max_client == usize::MAX {
            Err(RunError::TooManyClients)
        } else {
            match build(Tally::start((end.cursor.max_client + 1) as nat), end.events) {
                Err(e) => Err(RunError::History(e)),
                Ok(st) => Ok(st),
            }
        },
    }
}

/// The verdict on sub-timelines with their keys.
pub open spec fn keys_verdict(
    subs: Seq<Seq<Seq<crate::check::CkSpan>>>,
    keys: Seq<KeyType>,
    bound: Option<usize>,
) -> Verdict {
    match overall(subs, bound) {
        Err(_) => Err(RunError::Inconclusive),
        Ok(level) => Ok((level, weak_key_of(subs, keys, bound))),
    }
}

/// The verdict on the queues of a timeline.
pub open spec fn timeline_verdict(queues: Seq<Seq<OpSpan>>, bound: Option<usize>) -> Verdict {
    keys_verdict(partition(queues), scan(queues), bound)
}

/// The verdict on the lines of a history.
pub open spec fn history_verdict(lines: Seq<Seq<char>>, bound: Option<usize>) -> Verdict {
    match history_tally(lines) {
        Err(e) => Err(e),
        Ok(st) => timeline_verdict(st.queues, bound),
    }
}

/// The exit code of a run. It is 0 where the history is linearizable and 1
/// where it is not, 2 where a search gave up, and 101 where the history
/// could not be read or is no legal trace.
pub open spec fn exit_code_of(verdict: Verdict) -> i32 {
    match verdict {
        Ok((Consistency::Linearizable, _)) => 0,
        Ok(_) => 1,
        Err(RunError::Inconclusive) => 2,
        Err(_) => 101,
    }
}

/// A timeline, and the lines that were passed over on the way to it.
#[derive(Debug, Clone)]
pub struct Loaded {
    pub timeline: Timeline,
    pub skipped: Vec<SkippedLine>,
}

/// Reads the lines of a history and folds its events into a timeline.
pub fn load_timeline(lines: &Vec<String>) -> (r: Result<Loaded, RunError>)
    ensures
        match history_tally(texts(lines@)) {
            Ok(st) => r matches Ok(l) && l.timeline.summarizes(st) && orderly(
                l.timeline.spans(),
                st.last_time,
            ) && times_apart(l.timeline.spans()) && l.skipped@ == load(texts(lines@))->Ok_0.skipped,
            Err(e) => r matches Err(x) && x == e,
        },
{
    let history = match parse_history(lines) {
        Ok(h) => h,
        Err(e) => {
            return Err(RunError::Load(e));
        },
    };
    if history.events.len() == 0 {
        return Err(RunError::EmptyHistory);
    }
    if history.max_client == usize::MAX {
        return Err(RunError::TooManyClients);
    }
    match Timeline::new(history.events, history.max_client) {
        Ok(timeline) => Ok(Loaded { timeline, skipped: history.skipped }),
        Err(e) => Err(RunError::History(e)),
    }
}

/// Checks every key and gives the verdict, with the first key that is not
/// linearizable where there is one.
pub fn judge(checker: &mut Checker) -> (r: Verdict)
    requires
        old(checker).wf(),
    ensures
        final(checker).wf(),
        final(checker).keys() == old(checker).keys(),
        final(checker).sub_timelines() == old(checker).sub_timelines(),
        final(checker).bound() == old(checker).bound(),
        r == keys_verdict(old(checker).sub_timelines(), old(checker).keys(), old(checker).bound()),
{
    match checker.check() {
        Err(CheckError::Inconclusive) => Err(RunError::Inconclusive),
        Ok(level) => {
            let weak = checker.weak_key();
            Ok((level, weak))
        },
    }
}

/// Reads a history from its lines and checks it. Each search gives up after
/// `bound` nodes where there is a bound.
pub fn check_history(lines: &Vec<String>, bound: Option<usize>) -> (r: Verdict)
    ensures
        r == history_verdict(texts(lines@), bound),
{
    let loaded = match load_timeline(lines) {
        Ok(loaded) => loaded,
        Err(e) => {
            return Err(e);
        },
    };
    let mut checker = match bound {
        Some(b) => Checker::with_bound(loaded.timeline, b),
        None => Checker::new(loaded.timeline),
    };
    judge(&mut checker)
}

/// The exit code of a run.
pub fn exit_code(verdict: &Verdict) -> (code: i32)
    ensures
        code == exit_code_of(*verdict),
{
    match verdict {
        Ok((Consistency::Linearizable, _)) => 0,
        Ok(_) => 1,
        Err(RunError::Inconclusive) => 2,
        Err(_) => 101,
    }
}

} // verus!
