//! Folding a sequence of events into per-client queues of operation spans.

use std::collections::HashMap;
use vstd::prelude::*;
use crate::counts::{counts_hold, lemma_build_counts};
use crate::stats::{average, largest, mean, median, middle, seq_max, seq_min, smallest};
use crate::types::{
    ClientId,
    Event,
    EventType,
    HistoryError,
    KeyType,
    OpData,
    OpSpan,
    Timestamp,
};

verus! {

broadcast use vstd::std_specs::hash::group_hash_axioms;

/// Slot of the invocations in a triple of counters.
pub const INVOKED: usize = 0;

/// Slot of the completions in a triple of counters.
pub const COMPLETED: usize = 1;

/// Slot of the failures in a triple of counters.
pub const FAILED: usize = 2;

/// What the fold knows after a prefix of the events.
pub struct Tally {
    /// The spans retained so far, one queue per client.
    pub queues: Seq<Seq<OpSpan>>,
    /// The time of the last event.
    pub last_time: Timestamp,
    /// Invocations, completions and failures of reads.
    pub reads: Seq<nat>,
    /// Invocations, completions and failures of writes.
    pub writes: Seq<nat>,
    /// Invocations, completions and failures of compare-and-swaps.
    pub cas: Seq<nat>,
    /// The keys on which an operation completed, in the order of their first
    /// completion.
    pub keys: Seq<KeyType>,
    /// The number of operations completed on each of those keys.
    pub key_ops: Map<KeyType, nat>,
}

impl Tally {
    /// Before any event: `clients` empty queues and all counters at zero.
    pub open spec fn start(clients: nat) -> Tally {
        Tally {
            queues: Seq::new(clients, |c: int| Seq::<OpSpan>::empty()),
            last_time: 0,
            reads: seq![0nat, 0nat, 0nat],
            writes: seq![0nat, 0nat, 0nat],
            cas: seq![0nat, 0nat, 0nat],
            keys: Seq::empty(),
            key_ops: Map::empty(),
        }
    }

    /// The tally with one more operation of the kind of `data` counted in
    /// `slot`.
    pub open spec fn counted(self, data: OpData, slot: int) -> Tally {
        match data {
            OpData::Read { .. } => Tally {
                reads: self.reads.update(slot, self.reads[slot] + 1),
                ..self
            },
            OpData::Write { .. } => Tally {
                writes: self.writes.update(slot, self.writes[slot] + 1),
                ..self
            },
            OpData::Rmw { .. } => Tally { cas: self.cas.update(slot, self.cas[slot] + 1), ..self },
        }
    }

    /// The tally with one more completion on `key`.
    pub open spec fn completed_on(self, key: KeyType) -> Tally {
        if self.key_ops.contains_key(key) {
            Tally { key_ops: self.key_ops.insert(key, self.key_ops[key] + 1), ..self }
        } else {
            Tally { keys: self.keys.push(key), key_ops: self.key_ops.insert(key, 1), ..self }
        }
    }

    /// The number of operations that completed.
    pub open spec fn completions(self) -> nat {
        self.reads[1] + self.writes[1] + self.cas[1]
    }
}

/// Whether the client whose queue this is has an operation in flight.
pub open spec fn inflight(queue: Seq<OpSpan>) -> bool {
    queue.len() > 0 && queue.last().finish == 0
}

/// One step of the fold.
///
/// Every event must be later than the one before it and name a known client.
/// An invocation needs the client to have nothing in flight, and appends a
/// span with its result fields cleared. A completion needs a matching
/// operation in flight, and closes it with the reported results. A failure,
/// or an outcome that stays unknown, needs an operation in flight and drops
/// it.
pub open spec fn step(st: Tally, e: Event) -> Result<Tally, HistoryError> {
    if e.time <= st.last_time {
        Err(HistoryError::TimeNotIncreasing { client: e.client, time: e.time })
    } else if e.client >= st.queues.len() {
        Err(HistoryError::UnknownClient { client: e.client, time: e.time })
    } else {
        let c = e.client as int;
        let queue = st.queues[c];
        let timed = Tally { last_time: e.time, ..st };
        match e.etype {
            EventType::Invoke => if inflight(queue) {
                Err(HistoryError::InvokeWhileInflight { client: e.client, time: e.time })
            } else {
                let span = OpSpan {
                    invoke: e.time,
                    finish: 0,
                    data: e.opdata.scrubbed(),
                    client: e.client,
                };
                Ok(
                    Tally { queues: st.queues.update(c, queue.push(span)), ..timed }.counted(
                        e.opdata,
                        0,
                    ),
                )
            },
            EventType::Okay => if !inflight(queue) {
                Err(HistoryError::OkayWithoutInflight { client: e.client, time: e.time })
            } else if !e.opdata.matches_previous(queue.last().data) {
                Err(
                    HistoryError::PayloadMismatch {
                        client: e.client,
                        time: e.time,
                        got: e.opdata,
                        expected: queue.last().data,
                    },
                )
            } else {
                let span = OpSpan {
                    finish: e.time,
                    data: queue.last().data.overwritten_by(e.opdata),
                    ..queue.last()
                };
                Ok(
                    Tally {
                        queues: st.queues.update(c, queue.update(queue.len() - 1, span)),
                        ..timed
                    }.counted(queue.last().data, 1).completed_on(span.data.spec_key()),
                )
            },
            _ => if !inflight(queue) {
                Err(HistoryError::FailWithoutInflight { client: e.client, time: e.time })
            } else {
                Ok(
                    Tally { queues: st.queues.update(c, queue.drop_last()), ..timed }.counted(
                        queue.last().data,
                        2,
                    ),
                )
            },
        }
    }
}

/// The fold over a sequence of events: the tally after the last event, or the
/// error of the first event that is not legal where it stands.
pub open spec fn build(st: Tally, events: Seq<Event>) -> Result<Tally, HistoryError>
    decreases events.len(),
{
    if events.len() == 0 {
        Ok(st)
    } else {
        match build(st, events.drop_last()) {
            Ok(mid) => step(mid, events.last()),
            Err(e) => Err(e),
        }
    }
}

/// An error on a prefix of the events is the error on all of them.
pub proof fn lemma_build_error(st: Tally, events: Seq<Event>, upto: int)
    requires
        0 <= upto <= events.len(),
        build(st, events.take(upto)) is Err,
    ensures
        build(st, events) == build(st, events.take(upto)),
    decreases events.len() - upto,
{
    if upto < events.len() {
        assert(events.take(upto + 1).drop_last() =~= events.take(upto));
        lemma_build_error(st, events, upto + 1);
    } else {
        assert(events.take(upto) =~= events);
    }
}

/// The queues keep to the order of time: every span was invoked at a time
/// above zero by the client whose queue holds it; only the last span of a
/// queue can be in flight; a completed span finished after it was invoked,
/// and no later than `now`; and each span was invoked after the one before
/// it had finished.
pub open spec fn orderly(queues: Seq<Seq<OpSpan>>, now: Timestamp) -> bool {
    forall|c: int, i: int|
        0 <= c < queues.len() && 0 <= i < queues[c].len() ==> {
            let s = #[trigger] queues[c][i];
            &&& s.client == c
            &&& 0 < s.invoke <= now
            &&& s.finish <= now
            &&& s.finish == 0 || s.invoke < s.finish
            &&& i + 1 < queues[c].len() ==> 0 < s.finish < queues[c][i + 1].invoke
        }
}

/// A legal event keeps the queues orderly.
pub proof fn lemma_step_orderly(st: Tally, e: Event)
    requires
        orderly(st.queues, st.last_time),
        step(st, e) is Ok,
    ensures
        orderly(step(st, e)->Ok_0.queues, step(st, e)->Ok_0.last_time),
        step(st, e)->Ok_0.queues.len() == st.queues.len(),
        step(st, e)->Ok_0.last_time == e.time,
{
    let next = step(st, e)->Ok_0;
    let c0 = e.client as int;
    assert forall|c: int, i: int| 0 <= c < next.queues.len() && 0 <= i < next.queues[c].len() implies {
        let s = #[trigger] next.queues[c][i];
        &&& s.client == c
        &&& 0 < s.invoke <= next.last_time
        &&& s.finish <= next.last_time
        &&& s.finish == 0 || s.invoke < s.finish
        &&& i + 1 < next.queues[c].len() ==> 0 < s.finish < next.queues[c][i + 1].invoke
    } by {
        if c != c0 {
            assert(next.queues[c] == st.queues[c]);
        }
    }
}

/// A legal sequence of events leaves orderly queues, one per client.
pub proof fn lemma_build_orderly(clients: nat, events: Seq<Event>)
    requires
        build(Tally::start(clients), events) is Ok,
    ensures
        ({
            let end = build(Tally::start(clients), events)->Ok_0;
            &&& end.queues.len() == clients
            &&& orderly(end.queues, end.last_time)
        }),
    decreases events.len(),
{
    if events.len() > 0 {
        lemma_build_orderly(clients, events.drop_last());
        let mid = build(Tally::start(clients), events.drop_last())->Ok_0;
        lemma_step_orderly(mid, events.last());
    }
}

/// No span finished at the very time at which another was invoked.
pub open spec fn times_apart(queues: Seq<Seq<OpSpan>>) -> bool {
    forall|c: int, i: int, d: int, j: int|
        0 <= c < queues.len() && 0 <= i < queues[c].len() && 0 <= d < queues.len() && 0 <= j
            < queues[d].len() && (c != d || i != j) ==> (#[trigger] queues[c][i]).finish != (
        #[trigger] queues[d][j]).invoke
}

/// A legal event keeps the times of the spans apart.
pub proof fn lemma_step_apart(st: Tally, e: Event)
    requires
        orderly(st.queues, st.last_time),
        times_apart(st.queues),
        step(st, e) is Ok,
    ensures
        times_apart(step(st, e)->Ok_0.queues),
{
    let next = step(st, e)->Ok_0;
    let c0 = e.client as int;
    assert forall|c: int, i: int, d: int, j: int|
        0 <= c < next.queues.len() && 0 <= i < next.queues[c].len() && 0 <= d < next.queues.len()
            && 0 <= j < next.queues[d].len() && (c != d || i != j) implies (
    #[trigger] next.queues[c][i]).finish != (#[trigger] next.queues[d][j]).invoke by {
        if c != c0 {
            assert(next.queues[c] == st.queues[c]);
        }
        if d != c0 {
            assert(next.queues[d] == st.queues[d]);
        }
    }
}

/// A legal sequence of events leaves the times of the spans apart.
pub proof fn lemma_build_apart(clients: nat, events: Seq<Event>)
    requires
        build(Tally::start(clients), events) is Ok,
    ensures
        times_apart(build(Tally::start(clients), events)->Ok_0.queues),
    decreases events.len(),
{
    if events.len() > 0 {
        lemma_build_apart(clients, events.drop_last());
        lemma_build_orderly(clients, events.drop_last());
        let mid = build(Tally::start(clients), events.drop_last())->Ok_0;
        lemma_step_apart(mid, events.last());
    }
}

/// Every prefix of a legal sequence of events is legal.
pub proof fn lemma_build_prefix(st: Tally, events: Seq<Event>, upto: int)
    requires
        0 <= upto <= events.len(),
        build(st, events) is Ok,
    ensures
        build(st, events.take(upto)) is Ok,
        upto < events.len() ==> build(st, events.take(upto + 1)) == step(
            build(st, events.take(upto))->Ok_0,
            events[upto],
        ),
{
    if build(st, events.take(upto)) is Err {
        lemma_build_error(st, events, upto);
    }
    if upto < events.len() {
        assert(events.take(upto + 1).drop_last() =~= events.take(upto));
    }
}

/// The operation that event `a` invokes is the one that event `b` reports
/// as failed, or as of unknown outcome.
pub open spec fn failed_operation(events: Seq<Event>, a: int, b: int) -> bool {
    &&& 0 <= a < b < events.len()
    &&& events[a].etype == EventType::Invoke
    &&& events[b].etype == EventType::Fail || events[b].etype == EventType::Error
    &&& events[a].client == events[b].client
    &&& forall|m: int| a < m < b ==> (#[trigger] events[m]).client != events[a].client
}

/// The first `n` events, without those of the pair `a`, `b` among them.
pub open spec fn prefix_without(events: Seq<Event>, a: int, b: int, n: int) -> Seq<Event> {
    if n <= a {
        events.take(n)
    } else if n <= b {
        events.take(n).remove(a)
    } else {
        events.take(n).remove(b).remove(a)
    }
}

/// A legal event stays legal, and leaves the same queues, where the queues
/// are the same and the time before it is no later.
proof fn lemma_step_same(full: Tally, less: Tally, e: Event)
    requires
        full.queues == less.queues,
        less.last_time <= full.last_time,
        step(full, e) is Ok,
    ensures
        step(less, e) is Ok,
        step(less, e)->Ok_0.queues == step(full, e)->Ok_0.queues,
        step(less, e)->Ok_0.last_time == step(full, e)->Ok_0.last_time,
{
}

/// A legal event of another client stays legal where client `c` has one
/// span less, a span in flight, and leaves the queues the same but for that
/// span.
proof fn lemma_step_other(full: Tally, less: Tally, e: Event, c: int, span: OpSpan)
    requires
        0 <= c < less.queues.len(),
        full.queues == less.queues.update(c, less.queues[c].push(span)),
        less.last_time <= full.last_time,
        e.client != c,
        step(full, e) is Ok,
    ensures
        step(less, e) is Ok,
        step(full, e)->Ok_0.queues == step(less, e)->Ok_0.queues.update(
            c,
            step(less, e)->Ok_0.queues[c].push(span),
        ),
        step(less, e)->Ok_0.last_time == step(full, e)->Ok_0.last_time,
        step(less, e)->Ok_0.queues.len() == less.queues.len(),
{
    let d = e.client as int;
    assert(full.queues[d] == less.queues[d]);
    let full1 = step(full, e)->Ok_0;
    let less1 = step(less, e)->Ok_0;
    assert(less1.queues[c] == less.queues[c]);
    assert(full1.queues =~= less1.queues.update(c, less1.queues[c].push(span)));
}

/// The report of a failure drops the span in flight.
proof fn lemma_step_failure(full: Tally, less: Tally, e: Event, span: OpSpan)
    requires
        0 <= e.client < less.queues.len(),
        full.queues == less.queues.update(
            e.client as int,
            less.queues[e.client as int].push(span),
        ),
        e.etype == EventType::Fail || e.etype == EventType::Error,
        step(full, e) is Ok,
    ensures
        step(full, e)->Ok_0.queues == less.queues,
{
    let c = e.client as int;
    assert(full.queues[c].drop_last() =~= less.queues[c]);
    assert(step(full, e)->Ok_0.queues =~= less.queues);
}

/// The invocation appends a span in flight.
proof fn lemma_step_invoke(full: Tally, e: Event)
    requires
        e.etype == EventType::Invoke,
        step(full, e) is Ok,
    ensures
        0 <= e.client < full.queues.len(),
        step(full, e)->Ok_0.queues == full.queues.update(
            e.client as int,
            full.queues[e.client as int].push(
                OpSpan { invoke: e.time, finish: 0, data: e.opdata.scrubbed(), client: e.client },
            ),
        ),
        step(full, e)->Ok_0.last_time > full.last_time,
{
}

proof fn lemma_prefix_without(clients: nat, events: Seq<Event>, a: int, b: int, n: int)
    requires
        failed_operation(events, a, b),
        build(Tally::start(clients), events) is Ok,
        0 <= n <= events.len(),
    ensures
        ({
            let full = build(Tally::start(clients), events.take(n));
            let less = build(Tally::start(clients), prefix_without(events, a, b, n));
            let c = events[a].client as int;
            let span = OpSpan {
                invoke: events[a].time,
                finish: 0,
                data: events[a].opdata.scrubbed(),
                client: events[a].client,
            };
            &&& full is Ok
            &&& less is Ok
            &&& less->Ok_0.last_time <= full->Ok_0.last_time
            &&& full->Ok_0.queues.len() == clients
            &&& less->Ok_0.queues.len() == clients
            &&& n <= a ==> less == full
            &&& if a < n <= b {
                &&& 0 <= c < clients
                &&& full->Ok_0.queues == less->Ok_0.queues.update(
                    c,
                    less->Ok_0.queues[c].push(span),
                )
            } else {
                full->Ok_0.queues == less->Ok_0.queues
            }
        }),
    decreases n,
{
    let start = Tally::start(clients);
    lemma_build_prefix(start, events, n);
    lemma_build_orderly(clients, events.take(n));
    if n == 0 {
        assert(events.take(0) =~= Seq::<Event>::empty());
    } else {
        lemma_prefix_without(clients, events, a, b, n - 1);
        lemma_build_prefix(start, events, n - 1);
        let e = events[n - 1];
        let full0 = build(start, events.take(n - 1))->Ok_0;
        let less0 = build(start, prefix_without(events, a, b, n - 1))->Ok_0;
        let now = prefix_without(events, a, b, n);
        let c = events[a].client as int;
        let span = OpSpan {
            invoke: events[a].time,
            finish: 0,
            data: events[a].opdata.scrubbed(),
            client: events[a].client,
        };
        assert(build(start, events.take(n)) == step(full0, e));
        if n - 1 < a {
        } else if n - 1 == a {
            assert(now =~= prefix_without(events, a, b, n - 1));
            lemma_step_invoke(full0, e);
        } else if n - 1 < b {
            assert(now.drop_last() =~= prefix_without(events, a, b, n - 1));
            assert(now.last() == e);
            assert(build(start, now) == step(less0, e));
            lemma_step_other(full0, less0, e, c, span);
        } else if n - 1 == b {
            assert(now =~= prefix_without(events, a, b, n - 1));
            lemma_step_failure(full0, less0, e, span);
        } else {
            assert(now.drop_last() =~= prefix_without(events, a, b, n - 1));
            assert(now.last() == e);
            assert(build(start, now) == step(less0, e));
            lemma_step_same(full0, less0, e);
        }
    }
}

/// Monotonicity in failures: an operation that failed, or whose outcome
/// stayed unknown, leaves no trace. The history without its invocation and
/// without the report of its failure is legal as well and folds into the
/// same queues, so that the verdict on it is the same.
pub proof fn lemma_failed_operation_leaves_no_trace(
    clients: nat,
    events: Seq<Event>,
    a: int,
    b: int,
)
    requires
        failed_operation(events, a, b),
        build(Tally::start(clients), events) is Ok,
    ensures
        build(Tally::start(clients), events.remove(b).remove(a)) is Ok,
        build(Tally::start(clients), events.remove(b).remove(a))->Ok_0.queues == build(
            Tally::start(clients),
            events,
        )->Ok_0.queues,
{
    lemma_prefix_without(clients, events, a, b, events.len() as int);
    assert(events.take(events.len() as int) =~= events);
}

/// Machine counters that stand for the mathematical ones.
pub open spec fn counters_match(counters: Seq<usize>, tally: Seq<nat>) -> bool {
    &&& counters.len() == 3
    &&& tally.len() == 3
    &&& forall|j: int| 0 <= j < 3 ==> counters[j] == tally[j]
}

/// The per-client queues of operation spans that a history folds into, with
/// statistics of the history.
#[derive(Debug, Clone)]
pub struct Timeline {
    /// The spans retained, one queue per client.
    pub queues: Vec<Vec<OpSpan>>,
    /// The number of operations that completed.
    pub stats_ops_sum: usize,
    /// Invocations, completions and failures of reads.
    pub stats_ops_r: [usize; 3],
    /// Invocations, completions and failures of writes.
    pub stats_ops_w: [usize; 3],
    /// Invocations, completions and failures of compare-and-swaps.
    pub stats_ops_cas: [usize; 3],
    /// The number of operations completed on each key.
    pub stats_key_ops: HashMap<KeyType, usize>,
    /// The fewest operations completed on one key.
    pub stats_key_min: usize,
    /// The median of the operations completed per key.
    pub stats_key_med: usize,
    /// The mean of the operations completed per key, rounded down.
    pub stats_key_avg: usize,
    /// The most operations completed on one key.
    pub stats_key_max: usize,
    /// The fewest spans retained for one client.
    pub stats_cli_min: usize,
    /// The median of the spans retained per client.
    pub stats_cli_med: usize,
    /// The mean of the operations completed per client, rounded down.
    pub stats_cli_avg: usize,
    /// The most spans retained for one client.
    pub stats_cli_max: usize,
}

/// The spans of each queue.
pub open spec fn spans_of(queues: Seq<Vec<OpSpan>>) -> Seq<Seq<OpSpan>> {
    Seq::new(queues.len(), |c: int| queues[c]@)
}

/// The machine state of the fold stands for the tally `st`, after `seen`
/// events.
pub open spec fn tracks(
    queues: Seq<Vec<OpSpan>>,
    reads: Seq<usize>,
    writes: Seq<usize>,
    cas: Seq<usize>,
    keys: Seq<KeyType>,
    key_ops: Map<KeyType, usize>,
    st: Tally,
    seen: nat,
) -> bool {
    &&& spans_of(queues) == st.queues
    &&& counters_match(reads, st.reads)
    &&& counters_match(writes, st.writes)
    &&& counters_match(cas, st.cas)
    &&& keys == st.keys
    &&& key_ops.dom() == st.key_ops.dom()
    &&& forall|k: KeyType| #[trigger]
        key_ops.contains_key(k) ==> key_ops[k] == st.key_ops[k] && key_ops[k] <= seen
    &&& forall|j: int| 0 <= j < 3 ==> st.reads[j] <= seen && st.writes[j] <= seen && st.cas[j] <= seen
    &&& st.completions() <= seen
    &&& st.keys.len() <= seen
    &&& forall|m: int| 0 <= m < keys.len() ==> key_ops.contains_key(#[trigger] keys[m])
}

impl Timeline {
    /// The spans of each client's queue.
    pub open spec fn spans(&self) -> Seq<Seq<OpSpan>> {
        spans_of(self.queues@)
    }

    /// The number of completions on each key, in the order of `keys`.
    pub open spec fn key_counts(&self, keys: Seq<KeyType>) -> Seq<usize> {
        Seq::new(keys.len(), |i: int| self.stats_key_ops@[keys[i]])
    }

    /// The length of each client's queue.
    pub open spec fn client_counts(&self) -> Seq<usize> {
        Seq::new(self.queues@.len(), |c: int| self.queues@[c].len())
    }

    /// The timeline holds what the fold arrived at in `st`: its queues and
    /// counters, and minimum, median, mean and maximum of the per-key and
    /// per-client counts.
    pub open spec fn summarizes(&self, st: Tally) -> bool {
        &&& self.spans() == st.queues
        &&& counters_match(self.stats_ops_r@, st.reads)
        &&& counters_match(self.stats_ops_w@, st.writes)
        &&& counters_match(self.stats_ops_cas@, st.cas)
        &&& self.stats_key_ops@.dom() == st.key_ops.dom()
        &&& forall|k: KeyType| #[trigger]
            self.stats_key_ops@.contains_key(k) ==> self.stats_key_ops@[k] == st.key_ops[k]
        &&& self.stats_ops_sum == st.completions()
        &&& self.stats_key_min == seq_min(self.key_counts(st.keys))
        &&& self.stats_key_med == median(self.key_counts(st.keys))
        &&& self.stats_key_avg == mean(self.stats_ops_sum, st.keys.len())
        &&& self.stats_key_max == seq_max(self.key_counts(st.keys))
        &&& self.stats_cli_min == seq_min(self.client_counts())
        &&& self.stats_cli_med == median(self.client_counts())
        &&& self.stats_cli_avg == mean(self.stats_ops_sum, self.queues@.len())
        &&& self.stats_cli_max == seq_max(self.client_counts())
    }

    /// Folds the events of clients `0` to `max_client` into a timeline. The
    /// result is that of `build`: the timeline that summarizes the final
    /// tally, with orderly queues whose times are apart and counters that
    /// are true to the queues, or the error of the first event that is not
    /// legal where it stands.
    pub fn new(events: Vec<Event>, max_client: ClientId) -> (r: Result<Timeline, HistoryError>)
        requires
            max_client < usize::MAX,
        ensures
            match build(Tally::start((max_client + 1) as nat), events@) {
                Ok(st) => r matches Ok(t) && t.summarizes(st) && orderly(t.spans(), st.last_time)
                    && times_apart(t.spans()) && counts_hold(st),
                Err(e) => r matches Err(x) && x == e,
            },
    {
        let ghost start = Tally::start((max_client + 1) as nat);
        let mut queues: Vec<Vec<OpSpan>> = Vec::new();
        let mut c: usize = 0;
        while c <= max_client
            invariant
                c <= max_client + 1,
                max_client < usize::MAX,
                queues@.len() == c,
                forall|d: int| 0 <= d < c ==> (#[trigger] queues@[d])@ == Seq::<OpSpan>::empty(),
            decreases max_client + 1 - c,
        {
            queues.push(Vec::new());
            c = c + 1;
        }
        let mut reads: [usize; 3] = [0, 0, 0];
        let mut writes: [usize; 3] = [0, 0, 0];
        let mut cas: [usize; 3] = [0, 0, 0];
        let mut key_ops: HashMap<KeyType, usize> = HashMap::new();
        let mut keys: Vec<KeyType> = Vec::new();
        let mut last_time: Timestamp = 0;
        let mut completed: usize = 0;
        let ghost mut st = start;
        proof {
            assert(spans_of(queues@) =~= st.queues);
            assert(key_ops@.dom() =~= st.key_ops.dom());
            assert(events@.take(0) =~= Seq::<Event>::empty());
        }
        let mut i: usize = 0;
        while i < events.len()
            invariant
                i <= events.len(),
                start == Tally::start((max_client + 1) as nat),
                queues@.len() == max_client + 1,
                build(start, events@.take(i as int)) == Ok::<Tally, HistoryError>(st),
                tracks(queues@, reads@, writes@, cas@, keys@, key_ops@, st, i as nat),
                last_time == st.last_time,
                completed == st.completions(),
            decreases events.len() - i,
        {
            let e = events[i];
            proof {
                assert(events@.take(i + 1).drop_last() =~= events@.take(i as int));
                assert(events@.take(i + 1).last() == e);
                assert(build(start, events@.take(i + 1)) == step(st, e));
                if step(st, e) is Err {
                    lemma_build_error(start, events@, i + 1);
                }
                assert(st.queues.len() == queues@.len());
            }
            if e.time <= last_time {
                return Err(HistoryError::TimeNotIncreasing { client: e.client, time: e.time });
            }
            if e.client > max_client {
                return Err(HistoryError::UnknownClient { client: e.client, time: e.time });
            }
            let len = queues[e.client].len();
            let flying = len > 0 && queues[e.client][len - 1].finish == 0;
            proof {
                assert(st.queues[e.client as int] == queues@[e.client as int]@);
            }
            match e.etype {
                EventType::Invoke => {
                    if flying {
                        return Err(
                            HistoryError::InvokeWhileInflight { client: e.client, time: e.time },
                        );
                    }
                    let mut opdata = e.opdata;
                    opdata.scrub();
                    count_op(e.opdata, INVOKED, &mut reads, &mut writes, &mut cas);
                    queues[e.client].push(OpSpan::new(e.time, 0, opdata, e.client));
                },
                EventType::Okay => {
                    if !flying {
                        return Err(
                            HistoryError::OkayWithoutInflight { client: e.client, time: e.time },
                        );
                    }
                    let mut span = queues[e.client][len - 1];
                    if !e.opdata.match_previous(&span.data) {
                        return Err(
                            HistoryError::PayloadMismatch {
                                client: e.client,
                                time: e.time,
                                got: e.opdata,
                                expected: span.data,
                            },
                        );
                    }
                    count_op(span.data, COMPLETED, &mut reads, &mut writes, &mut cas);
                    span.finish = e.time;
                    span.data.overwrite_by(e.opdata);
                    queues[e.client].set(len - 1, span);
                    let key = span.key();
                    match key_ops.get(&key) {
                        Some(n) => {
                            let n = *n;
                            key_ops.insert(key, n + 1);
                        },
                        None => {
                            keys.push(key);
                            key_ops.insert(key, 1);
                        },
                    }
                    completed = completed + 1;
                },
                _ => {
                    if !flying {
                        return Err(
                            HistoryError::FailWithoutInflight { client: e.client, time: e.time },
                        );
                    }
                    count_op(queues[e.client][len - 1].data, FAILED, &mut reads, &mut writes, &mut cas);
                    queues[e.client].pop();
                },
            }
            last_time = e.time;
            proof {
                st = step(st, e)->Ok_0;
                assert(spans_of(queues@) =~= st.queues);
                assert(key_ops@.dom() =~= st.key_ops.dom());
            }
            i = i + 1;
        }
        proof {
            assert(events@.take(i as int) =~= events@);
            lemma_build_orderly((max_client + 1) as nat, events@);
            lemma_build_apart((max_client + 1) as nat, events@);
            lemma_build_counts((max_client + 1) as nat, events@);
        }
        let mut key_cnts: Vec<usize> = Vec::new();
        let mut j: usize = 0;
        while j < keys.len()
            invariant
                j <= keys.len(),
                key_cnts@.len() == j,
                forall|m: int| 0 <= m < j ==> #[trigger] key_cnts@[m] == key_ops@[keys@[m]],
                forall|m: int| 0 <= m < keys@.len() ==> key_ops@.contains_key(#[trigger] keys@[m]),
            decreases keys.len() - j,
        {
            let n = match key_ops.get(&keys[j]) {
                Some(n) => *n,
                None => 0,
            };
            key_cnts.push(n);
            j = j + 1;
        }
        let mut cli_cnts: Vec<usize> = Vec::new();
        let mut d: usize = 0;
        while d < queues.len()
            invariant
                d <= queues.len(),
                cli_cnts@.len() == d,
                forall|m: int| 0 <= m < d ==> #[trigger] cli_cnts@[m] == queues@[m].len(),
            decreases queues.len() - d,
        {
            cli_cnts.push(queues[d].len());
            d = d + 1;
        }
        let stats_key_min = smallest(&key_cnts);
        let stats_key_med = middle(&key_cnts);
        let stats_key_avg = average(completed, key_cnts.len());
        let stats_key_max = largest(&key_cnts);
        let stats_cli_min = smallest(&cli_cnts);
        let stats_cli_med = middle(&cli_cnts);
        let stats_cli_avg = average(completed, cli_cnts.len());
        let stats_cli_max = largest(&cli_cnts);
        let tl = Timeline {
            queues,
            stats_ops_sum: completed,
            stats_ops_r: reads,
            stats_ops_w: writes,
            stats_ops_cas: cas,
            stats_key_ops: key_ops,
            stats_key_min,
            stats_key_med,
            stats_key_avg,
            stats_key_max,
            stats_cli_min,
            stats_cli_med,
            stats_cli_avg,
            stats_cli_max,
        };
        proof {
            assert(key_cnts@ =~= tl.key_counts(st.keys));
            assert(cli_cnts@ =~= tl.client_counts());
        }
        Ok(tl)
    }

    /// The number of keys on which an operation completed.
    pub fn num_keys(&self) -> (n: usize)
        ensures
            n == self.stats_key_ops@.len(),
    {
        self.stats_key_ops.len()
    }

    /// The number of clients.
    pub fn num_clients(&self) -> (n: usize)
        ensures
            n == self.queues@.len(),
    {
        self.queues.len()
    }
}

/// Counts one more operation of the kind of `data` in `slot`.
fn count_op(
    data: OpData,
    slot: usize,
    reads: &mut [usize; 3],
    writes: &mut [usize; 3],
    cas: &mut [usize; 3],
)
    requires
        slot < 3,
        old(reads)@[slot as int] < usize::MAX,
        old(writes)@[slot as int] < usize::MAX,
        old(cas)@[slot as int] < usize::MAX,
    ensures
        final(reads)@ == if data is Read {
            old(reads)@.update(slot as int, (old(reads)@[slot as int] + 1) as usize)
        } else {
            old(reads)@
        },
        final(writes)@ == if data is Write {
            old(writes)@.update(slot as int, (old(writes)@[slot as int] + 1) as usize)
        } else {
            old(writes)@
        },
        final(cas)@ == if data is Rmw {
            old(cas)@.update(slot as int, (old(cas)@[slot as int] + 1) as usize)
        } else {
            old(cas)@
        },
{
    match data {
        OpData::Read { .. } => {
            let n = reads[slot];
            reads[slot] = n + 1;
        },
        OpData::Write { .. } => {
            let n = writes[slot];
            writes[slot] = n + 1;
        },
        OpData::Rmw { .. } => {
            let n = cas[slot];
            cas[slot] = n + 1;
        },
    }
}

} // verus!
