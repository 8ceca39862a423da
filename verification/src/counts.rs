//! What the counters of a timeline count.
//!
//! The fold keeps counters beside the queues. Here they are tied to the
//! queues: the completions are the completed spans, the keys are the keys of
//! completed spans, and the count of a key is the number of spans in the
//! key's sub-timeline.

use vstd::prelude::*;
use crate::partition::{lemma_scan, scan, sub_queue};
use crate::timeline::{
    build,
    failed_operation,
    lemma_failed_operation_leaves_no_trace,
    step,
    Tally,
};
use crate::types::{Event, KeyType, OpSpan};

verus! {

/// The completed spans.
pub open spec fn completed() -> spec_fn(OpSpan) -> bool {
    |s: OpSpan| s.finish != 0
}

/// The completed spans on key `k`.
pub open spec fn completed_on(k: KeyType) -> spec_fn(OpSpan) -> bool {
    |s: OpSpan| s.finish != 0 && s.data.spec_key() == k
}

/// The number of spans of a queue that `pick` picks.
pub open spec fn count_in(queue: Seq<OpSpan>, pick: spec_fn(OpSpan) -> bool) -> nat
    decreases queue.len(),
{
    if queue.len() == 0 {
        0
    } else {
        count_in(queue.drop_last(), pick) + if pick(queue.last()) {
            1nat
        } else {
            0nat
        }
    }
}

/// The number of spans of all queues that `pick` picks.
pub open spec fn count_all(queues: Seq<Seq<OpSpan>>, pick: spec_fn(OpSpan) -> bool) -> nat
    decreases queues.len(),
{
    if queues.len() == 0 {
        0
    } else {
        count_all(queues.drop_last(), pick) + count_in(queues.last(), pick)
    }
}

/// The sum of the counts of the keys.
pub open spec fn sum_counts(keys: Seq<KeyType>, counts: Map<KeyType, nat>) -> nat
    decreases keys.len(),
{
    if keys.len() == 0 {
        0
    } else {
        sum_counts(keys.drop_last(), counts) + counts[keys.last()]
    }
}

/// The counters of the tally count what its queues hold.
pub open spec fn counts_hold(st: Tally) -> bool {
    &&& st.reads.len() == 3
    &&& st.writes.len() == 3
    &&& st.cas.len() == 3
    &&& st.completions() == count_all(st.queues, completed())
    &&& st.keys.no_duplicates()
    &&& forall|k: KeyType| #[trigger] st.key_ops.contains_key(k) <==> st.keys.contains(k)
    &&& forall|k: KeyType|
        #[trigger] st.key_ops.contains_key(k) <==> count_all(st.queues, completed_on(k)) > 0
    &&& forall|k: KeyType|
        #[trigger] st.key_ops.contains_key(k) ==> st.key_ops[k] == count_all(
            st.queues,
            completed_on(k),
        )
    &&& sum_counts(st.keys, st.key_ops) == st.completions()
}

/// Replacing one queue changes the count by what the two queues differ in.
pub proof fn lemma_count_update(
    queues: Seq<Seq<OpSpan>>,
    c: int,
    queue: Seq<OpSpan>,
    pick: spec_fn(OpSpan) -> bool,
)
    requires
        0 <= c < queues.len(),
    ensures
        count_all(queues.update(c, queue), pick) == count_all(queues, pick) - count_in(
            queues[c],
            pick,
        ) + count_in(queue, pick),
    decreases queues.len(),
{
    let next = queues.update(c, queue);
    if c == queues.len() - 1 {
        assert(next.drop_last() =~= queues.drop_last());
    } else {
        assert(next.drop_last() =~= queues.drop_last().update(c, queue));
        lemma_count_update(queues.drop_last(), c, queue, pick);
    }
}

/// The count is above zero exactly where some span is picked.
pub proof fn lemma_count_positive(queues: Seq<Seq<OpSpan>>, pick: spec_fn(OpSpan) -> bool)
    ensures
        count_all(queues, pick) > 0 <==> exists|c: int, i: int|
            0 <= c < queues.len() && 0 <= i < queues[c].len() && pick(#[trigger] queues[c][i]),
    decreases queues.len(),
{
    if queues.len() > 0 {
        let front = queues.drop_last();
        lemma_count_positive(front, pick);
        lemma_count_in_positive(queues.last(), pick);
        if count_all(queues, pick) > 0 {
            if count_all(front, pick) > 0 {
                let (c, i) = choose|c: int, i: int|
                    0 <= c < front.len() && 0 <= i < front[c].len() && pick(#[trigger] front[c][i]);
                assert(queues[c][i] == front[c][i]);
            } else {
                let i = choose|i: int| 0 <= i < queues.last().len() && pick(queues.last()[i]);
                assert(pick(queues[queues.len() - 1][i]));
            }
        }
        if exists|c: int, i: int|
            0 <= c < queues.len() && 0 <= i < queues[c].len() && pick(#[trigger] queues[c][i]) {
            let (c, i) = choose|c: int, i: int|
                0 <= c < queues.len() && 0 <= i < queues[c].len() && pick(#[trigger] queues[c][i]);
            if c < queues.len() - 1 {
                assert(pick(front[c][i]));
            } else {
                assert(pick(queues.last()[i]));
            }
        }
    }
}

proof fn lemma_count_in_positive(queue: Seq<OpSpan>, pick: spec_fn(OpSpan) -> bool)
    ensures
        count_in(queue, pick) > 0 <==> exists|i: int| 0 <= i < queue.len() && pick(queue[i]),
    decreases queue.len(),
{
    if queue.len() > 0 {
        let front = queue.drop_last();
        lemma_count_in_positive(front, pick);
        if count_in(queue, pick) > 0 {
            if pick(queue.last()) {
                assert(pick(queue[queue.len() - 1]));
            } else {
                let i = choose|i: int| 0 <= i < front.len() && pick(front[i]);
                assert(pick(queue[i]));
            }
        }
        if exists|i: int| 0 <= i < queue.len() && pick(queue[i]) {
            let i = choose|i: int| 0 <= i < queue.len() && pick(queue[i]);
            if i < queue.len() - 1 {
                assert(pick(front[i]));
            }
        }
    }
}

/// The completed spans of a queue on a key are the spans of its sub-queue.
pub proof fn lemma_count_is_sub_queue(queue: Seq<OpSpan>, k: KeyType)
    ensures
        count_in(queue, completed_on(k)) == sub_queue(queue, k).len(),
    decreases queue.len(),
{
    if queue.len() > 0 {
        lemma_count_is_sub_queue(queue.drop_last(), k);
    }
}

/// Changing the count of one key changes the sum by as much; the count of a
/// key that is not among the keys does not matter.
pub proof fn lemma_sum_insert(keys: Seq<KeyType>, counts: Map<KeyType, nat>, k: KeyType, v: nat)
    requires
        keys.no_duplicates(),
    ensures
        sum_counts(keys, counts.insert(k, v)) == if keys.contains(k) {
            sum_counts(keys, counts) - counts[k] + v
        } else {
            sum_counts(keys, counts) as int
        },
    decreases keys.len(),
{
    if keys.len() > 0 {
        let front = keys.drop_last();
        lemma_sum_insert(front, counts, k, v);
        if keys.last() == k {
            if front.contains(k) {
                let i = choose|i: int| 0 <= i < front.len() && front[i] == k;
                assert(keys[i] == k);
            }
            assert(keys[keys.len() - 1] == k);
        } else {
            if keys.contains(k) {
                let i = choose|i: int| 0 <= i < keys.len() && keys[i] == k;
                assert(front[i] == k);
            }
            if front.contains(k) {
                let i = choose|i: int| 0 <= i < front.len() && front[i] == k;
                assert(keys[i] == k);
            }
        }
    }
}

/// A legal event keeps the counters true to the queues.
pub proof fn lemma_step_counts(st: Tally, e: Event)
    requires
        counts_hold(st),
        step(st, e) is Ok,
    ensures
        counts_hold(step(st, e)->Ok_0),
{
    let next = step(st, e)->Ok_0;
    let c = e.client as int;
    let queue = st.queues[c];
    let after = next.queues[c];
    assert(next.queues =~= st.queues.update(c, after));
    lemma_count_update(st.queues, c, after, completed());
    assert forall|k: KeyType|
        count_all(next.queues, completed_on(k)) == count_all(st.queues, completed_on(k)) - count_in(
            queue,
            completed_on(k),
        ) + count_in(after, completed_on(k)) by {
        lemma_count_update(st.queues, c, after, completed_on(k));
    }
    if e.etype == crate::types::EventType::Invoke {
        assert(after.drop_last() =~= queue);
    } else if e.etype == crate::types::EventType::Okay {
        let span = after.last();
        let k0 = span.data.spec_key();
        assert(after.drop_last() =~= queue.drop_last());
        assert(span.finish != 0);
        let mid = Tally { queues: next.queues, last_time: next.last_time, ..st }.counted(
            queue.last().data,
            1,
        );
        assert(mid.completions() == st.completions() + 1);
        assert(next == mid.completed_on(k0));
        if st.key_ops.contains_key(k0) {
            lemma_sum_insert(st.keys, st.key_ops, k0, st.key_ops[k0] + 1);
        } else {
            lemma_sum_insert(st.keys, st.key_ops, k0, 1);
            assert(next.keys.drop_last() =~= st.keys);
            assert(next.keys.last() == k0);
        }
        assert forall|k: KeyType| #[trigger] next.key_ops.contains_key(k) <==> next.keys.contains(
            k,
        ) by {
            if next.keys.contains(k) {
                let i = choose|i: int| 0 <= i < next.keys.len() && next.keys[i] == k;
                if i < st.keys.len() {
                    assert(st.keys[i] == k);
                }
            }
            if next.key_ops.contains_key(k) {
                if k == k0 {
                    if st.key_ops.contains_key(k0) {
                        let i = choose|i: int| 0 <= i < st.keys.len() && st.keys[i] == k;
                        assert(next.keys[i] == k);
                    } else {
                        assert(next.keys[next.keys.len() - 1] == k);
                    }
                } else {
                    let i = choose|i: int| 0 <= i < st.keys.len() && st.keys[i] == k;
                    assert(next.keys[i] == k);
                }
            }
        }
    } else {
        assert(after =~= queue.drop_last());
    }
}

/// A legal sequence of events leaves counters that are true to the queues.
pub proof fn lemma_build_counts(clients: nat, events: Seq<Event>)
    requires
        build(Tally::start(clients), events) is Ok,
    ensures
        counts_hold(build(Tally::start(clients), events)->Ok_0),
    decreases events.len(),
{
    if events.len() == 0 {
        lemma_count_zero(Tally::start(clients).queues, completed());
        assert forall|k: KeyType|
            count_all(Tally::start(clients).queues, completed_on(k)) == 0 by {
            lemma_count_zero(Tally::start(clients).queues, completed_on(k));
        }
    } else {
        lemma_build_counts(clients, events.drop_last());
        lemma_step_counts(build(Tally::start(clients), events.drop_last())->Ok_0, events.last());
    }
}

proof fn lemma_count_zero(queues: Seq<Seq<OpSpan>>, pick: spec_fn(OpSpan) -> bool)
    requires
        forall|c: int| 0 <= c < queues.len() ==> (#[trigger] queues[c]).len() == 0,
    ensures
        count_all(queues, pick) == 0,
    decreases queues.len(),
{
    if queues.len() > 0 {
        assert forall|c: int| 0 <= c < queues.drop_last().len() implies (
        #[trigger] queues.drop_last()[c]).len() == 0 by {
            assert(queues.drop_last()[c] == queues[c]);
        }
        lemma_count_zero(queues.drop_last(), pick);
        assert(queues[queues.len() - 1].len() == 0);
    }
}

/// The keys that are counted are the keys that are checked: those of the
/// completed spans.
pub proof fn lemma_counted_keys(clients: nat, events: Seq<Event>)
    requires
        build(Tally::start(clients), events) is Ok,
    ensures
        ({
            let end = build(Tally::start(clients), events)->Ok_0;
            forall|k: KeyType| #[trigger] end.key_ops.contains_key(k) <==> scan(end.queues).contains(k)
        }),
{
    let end = build(Tally::start(clients), events)->Ok_0;
    lemma_build_counts(clients, events);
    lemma_scan(end.queues);
    assert forall|k: KeyType| #[trigger] end.key_ops.contains_key(k) <==> scan(end.queues).contains(
        k,
    ) by {
        lemma_count_positive(end.queues, completed_on(k));
    }
}

/// Monotonicity in failures, for the counters: the history without an
/// operation that failed counts as many completions on each key.
pub proof fn lemma_failed_operation_keeps_counts(
    clients: nat,
    events: Seq<Event>,
    a: int,
    b: int,
)
    requires
        failed_operation(events, a, b),
        build(Tally::start(clients), events) is Ok,
    ensures
        build(Tally::start(clients), events.remove(b).remove(a)) is Ok,
        build(Tally::start(clients), events.remove(b).remove(a))->Ok_0.key_ops == build(
            Tally::start(clients),
            events,
        )->Ok_0.key_ops,
        build(Tally::start(clients), events.remove(b).remove(a))->Ok_0.completions() == build(
            Tally::start(clients),
            events,
        )->Ok_0.completions(),
{
    lemma_failed_operation_leaves_no_trace(clients, events, a, b);
    lemma_build_counts(clients, events);
    lemma_build_counts(clients, events.remove(b).remove(a));
    let full = build(Tally::start(clients), events)->Ok_0;
    let less = build(Tally::start(clients), events.remove(b).remove(a))->Ok_0;
    assert(less.queues == full.queues);
    assert forall|k: KeyType| less.key_ops.contains_key(k) == full.key_ops.contains_key(k) by {
        assert(less.key_ops.contains_key(k) <==> count_all(less.queues, completed_on(k)) > 0);
        assert(full.key_ops.contains_key(k) <==> count_all(full.queues, completed_on(k)) > 0);
    }
    assert forall|k: KeyType| less.key_ops.contains_key(k) implies less.key_ops[k]
        == full.key_ops[k] by {
        assert(full.key_ops.contains_key(k));
    }
    assert(less.key_ops.dom() =~= full.key_ops.dom());
    assert(less.key_ops =~= full.key_ops);
}

} // verus!
