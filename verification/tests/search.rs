use std::collections::VecDeque;

use checker::check::{CheckError, CheckerPerKey, CkData, CkSpan, Possibility};
use checker::seen::{hash_key, same_progress, SeenSet};
use checker::types::{Consistency, OpData, OpSpan};

fn w(val: u64, invoke: u64, finish: u64) -> CkSpan {
    CkSpan { invoke, finish, data: CkData::Write { val } }
}

fn r(val: Option<u64>, invoke: u64, finish: u64) -> CkSpan {
    CkSpan { invoke, finish, data: CkData::Read { val } }
}

fn cas(rval: u64, wval: u64, invoke: u64, finish: u64) -> CkSpan {
    CkSpan { invoke, finish, data: CkData::Rmw { rval: Some(rval), wval: Some(wval) } }
}

fn verdict(queues: Vec<Vec<CkSpan>>) -> Consistency {
    CheckerPerKey::new(queues).check().unwrap()
}

#[test]
fn write_then_read_of_written_value_is_linearizable() {
    assert_eq!(verdict(vec![vec![w(1, 1, 2)], vec![r(Some(1), 3, 4)]]), Consistency::Linearizable);
}

#[test]
fn write_then_read_of_other_value_is_weak() {
    assert_eq!(verdict(vec![vec![w(1, 1, 2)], vec![r(Some(2), 3, 4)]]), Consistency::Weak);
}

#[test]
fn write_straddling_a_nil_read_is_linearizable() {
    let queues = vec![vec![w(1, 1, 10)], vec![r(None, 2, 3)], vec![r(Some(1), 4, 5)]];
    assert_eq!(verdict(queues), Consistency::Linearizable);
}

#[test]
fn same_client_nil_read_after_write_is_weak() {
    assert_eq!(verdict(vec![vec![w(1, 1, 2), r(None, 3, 4)]]), Consistency::Weak);
}

#[test]
fn cas_from_written_value_then_read_is_linearizable() {
    let queues = vec![vec![w(1, 1, 2)], vec![cas(1, 2, 3, 4)], vec![r(Some(2), 5, 6)]];
    assert_eq!(verdict(queues), Consistency::Linearizable);
}

#[test]
fn cas_with_unmet_precondition_is_weak() {
    let queues = vec![vec![w(1, 1, 2)], vec![cas(2, 3, 3, 4)], vec![r(Some(3), 5, 6)]];
    assert_eq!(verdict(queues), Consistency::Weak);
}

#[test]
fn no_spans_is_linearizable() {
    assert_eq!(verdict(vec![]), Consistency::Linearizable);
    assert_eq!(verdict(vec![vec![], vec![]]), Consistency::Linearizable);
}

#[test]
fn nil_read_before_any_write_is_accepted() {
    assert_eq!(verdict(vec![vec![r(None, 1, 2)]]), Consistency::Linearizable);
    assert_eq!(verdict(vec![vec![r(Some(0), 1, 2)]]), Consistency::Weak);
}

#[test]
fn equal_boundary_admits_either_order() {
    // The read finishes at the very time at which the write is invoked.
    let queues = vec![vec![w(1, 5, 6)], vec![r(Some(1), 4, 5)]];
    assert_eq!(verdict(queues), Consistency::Linearizable);
    // One tick earlier the read must come first, and cannot see the value.
    let queues = vec![vec![w(1, 5, 6)], vec![r(Some(1), 3, 4)]];
    assert_eq!(verdict(queues), Consistency::Weak);
}

#[test]
fn concurrent_writes_can_be_ordered_either_way() {
    let queues = vec![vec![w(1, 1, 10)], vec![w(2, 2, 9)], vec![r(Some(1), 11, 12)]];
    assert_eq!(verdict(queues), Consistency::Linearizable);
    let queues = vec![vec![w(1, 1, 10)], vec![w(2, 2, 9)], vec![r(Some(2), 11, 12)]];
    assert_eq!(verdict(queues), Consistency::Linearizable);
    let queues = vec![vec![w(1, 1, 10)], vec![w(2, 2, 9)], vec![r(Some(3), 11, 12)]];
    assert_eq!(verdict(queues), Consistency::Weak);
}

#[test]
fn real_time_order_forces_weak_on_two_spans() {
    // The read had finished before the write was invoked, and needs the
    // write to come first.
    let queues = vec![vec![r(Some(7), 1, 2)], vec![w(7, 3, 4)]];
    assert_eq!(verdict(queues), Consistency::Weak);
}

#[test]
fn single_client_follows_the_register_step_by_step() {
    let good = vec![vec![r(None, 1, 2), w(3, 3, 4), r(Some(3), 5, 6), cas(3, 4, 7, 8), r(Some(4), 9, 10)]];
    assert_eq!(verdict(good), Consistency::Linearizable);
    let bad = vec![vec![r(None, 1, 2), w(3, 3, 4), r(Some(3), 5, 6), cas(2, 4, 7, 8)]];
    assert_eq!(verdict(bad), Consistency::Weak);
}

#[test]
fn verdict_does_not_depend_on_the_order_of_clients() {
    let a = vec![vec![w(1, 1, 10)], vec![r(None, 2, 3)], vec![r(Some(1), 4, 5)]];
    let b = vec![vec![r(Some(1), 4, 5)], vec![r(None, 2, 3)], vec![w(1, 1, 10)]];
    assert_eq!(verdict(a), verdict(b));
}

#[test]
fn check_answers_the_same_again() {
    let mut lin = CheckerPerKey::new(vec![vec![w(1, 1, 2)], vec![r(Some(1), 3, 4)]]);
    assert_eq!(lin.check(), Ok(Consistency::Linearizable));
    assert_eq!(lin.check(), Ok(Consistency::Linearizable));
    let mut weak = CheckerPerKey::new(vec![vec![w(1, 1, 2)], vec![r(Some(2), 3, 4)]]);
    assert_eq!(weak.check(), Ok(Consistency::Weak));
    assert_eq!(weak.check(), Ok(Consistency::Weak));
}

#[test]
fn bounded_search_gives_up_exactly_beyond_the_bound() {
    // Two incomplete nodes are reachable: nothing placed, and the write
    // placed. The read cannot be placed first.
    let queues = || vec![vec![w(1, 1, 2)], vec![r(Some(1), 3, 4)]];
    assert_eq!(CheckerPerKey::with_bound(queues(), 0).check(), Err(CheckError::Inconclusive));
    assert_eq!(CheckerPerKey::with_bound(queues(), 1).check(), Err(CheckError::Inconclusive));
    assert_eq!(CheckerPerKey::with_bound(queues(), 2).check(), Ok(Consistency::Linearizable));
    assert_eq!(CheckerPerKey::with_bound(queues(), 100).check(), Ok(Consistency::Linearizable));
}

#[test]
fn bounded_search_on_weak_history() {
    // Reachable: nothing placed; the write placed. Both are incomplete.
    let queues = || vec![vec![w(1, 1, 2)], vec![r(Some(2), 3, 4)]];
    assert_eq!(CheckerPerKey::with_bound(queues(), 1).check(), Err(CheckError::Inconclusive));
    assert_eq!(CheckerPerKey::with_bound(queues(), 2).check(), Ok(Consistency::Weak));
}

#[test]
fn bounded_search_without_spans_needs_no_expansion() {
    assert_eq!(CheckerPerKey::with_bound(vec![], 0).check(), Ok(Consistency::Linearizable));
}

#[test]
fn inconclusive_answers_the_same_again() {
    let mut c = CheckerPerKey::with_bound(vec![vec![w(1, 1, 2)], vec![r(Some(1), 3, 4)]], 1);
    assert_eq!(c.check(), Err(CheckError::Inconclusive));
    assert_eq!(c.check(), Err(CheckError::Inconclusive));
}

#[test]
fn many_overlapping_writes_are_decided() {
    // Eight clients write concurrently; a later read sees one of the values.
    let mut queues: Vec<Vec<CkSpan>> = (0..8).map(|c| vec![w(c, 1 + c, 100 + c)]).collect();
    queues.push(vec![r(Some(5), 200, 201)]);
    assert_eq!(verdict(queues), Consistency::Linearizable);
    let mut queues: Vec<Vec<CkSpan>> = (0..8).map(|c| vec![w(c, 1 + c, 100 + c)]).collect();
    queues.push(vec![r(Some(9), 200, 201)]);
    assert_eq!(verdict(queues), Consistency::Weak);
}

#[test]
fn register_transition() {
    assert_eq!(CkData::Read { val: None }.apply(None), (true, None));
    assert_eq!(CkData::Read { val: Some(1) }.apply(None), (false, None));
    assert_eq!(CkData::Read { val: Some(1) }.apply(Some(1)), (true, Some(1)));
    assert_eq!(CkData::Write { val: 2 }.apply(Some(1)), (true, Some(2)));
    assert_eq!(CkData::Write { val: 2 }.apply(None), (true, Some(2)));
    assert_eq!(CkData::Rmw { rval: Some(1), wval: Some(2) }.apply(Some(1)), (true, Some(2)));
    assert_eq!(CkData::Rmw { rval: Some(1), wval: Some(2) }.apply(Some(3)), (false, Some(3)));
    assert_eq!(CkData::Rmw { rval: None, wval: Some(2) }.apply(None), (true, Some(2)));
    assert_eq!(CkData::Rmw { rval: Some(1), wval: None }.apply(Some(1)), (true, None));
}

#[test]
fn spans_from_raw_keep_times_and_values() {
    let raw = OpSpan::new(3, 9, OpData::Rmw { key: 4, rval: Some(1), rtag: Some(7), wval: Some(2), wtag: None }, 5);
    let span = CkSpan::from_raw(raw);
    assert_eq!(span, CkSpan { invoke: 3, finish: 9, data: CkData::Rmw { rval: Some(1), wval: Some(2) } });
    assert!(span.terminated());
    assert!(!CkSpan { invoke: 3, finish: 0, data: CkData::Write { val: 1 } }.terminated());
    assert_eq!(CkData::from_raw(OpData::Read { key: 1, val: Some(2), tag: None }), CkData::Read { val: Some(2) });
    assert_eq!(CkData::from_raw(OpData::Write { key: 1, val: 2, tag: 3 }), CkData::Write { val: 2 });
}

#[test]
fn initial_possibility() {
    let p = Possibility::initial(3);
    assert!(p.graph.is_empty());
    assert_eq!(p.state, None);
    assert_eq!(p.max_invoke, 0);
    assert_eq!(p.feed_prog, vec![0, 0, 0]);
    assert!(Possibility::initial(0).feed_prog.is_empty());
}

#[test]
fn possibility_from_parts() {
    let p = Possibility::from(vec![(1, 0)], Some(4), 9, vec![0, 1]);
    assert_eq!(p.graph, vec![(1, 0)]);
    assert_eq!(p.state, Some(4));
    assert_eq!(p.max_invoke, 9);
    assert_eq!(p.feed_prog, vec![0, 1]);
}

#[test]
fn possibilities_are_equal_by_state_and_progress_alone() {
    let a = Possibility::from(vec![(0, 0), (1, 0)], Some(1), 5, vec![1, 1]);
    let b = Possibility::from(vec![(1, 0), (0, 0)], Some(1), 7, vec![1, 1]);
    let c = Possibility::from(vec![(0, 0), (1, 0)], Some(2), 5, vec![1, 1]);
    let d = Possibility::from(vec![(0, 0), (1, 0)], Some(1), 5, vec![1, 0]);
    assert!(a == b);
    assert!(a != c);
    assert!(a != d);
    let e = a.clone();
    assert!(e == a);
    assert_eq!(e.graph, a.graph);
    assert_eq!(e.max_invoke, a.max_invoke);
}

#[test]
fn append_write_updates_every_part() {
    let p = Possibility::from(vec![], None, 3, vec![0, 0]);
    let n = CheckerPerKey::try_append_new_span(&p, &w(8, 5, 6), (1, 0)).unwrap();
    assert_eq!(n.graph, vec![(1, 0)]);
    assert_eq!(n.state, Some(8));
    assert_eq!(n.max_invoke, 5);
    assert_eq!(n.feed_prog, vec![0, 1]);
}

#[test]
fn append_read_keeps_state_and_witness() {
    let p = Possibility::from(vec![(0, 0)], Some(8), 7, vec![1, 0]);
    let n = CheckerPerKey::try_append_new_span(&p, &r(Some(8), 2, 9), (1, 0)).unwrap();
    assert_eq!(n.graph, vec![(0, 0)]);
    assert_eq!(n.state, Some(8));
    assert_eq!(n.max_invoke, 7);
    assert_eq!(n.feed_prog, vec![1, 1]);
    assert!(CheckerPerKey::try_append_new_span(&p, &r(Some(9), 2, 9), (1, 0)).is_none());
    assert!(CheckerPerKey::try_append_new_span(&p, &r(None, 2, 9), (1, 0)).is_none());
}

#[test]
fn append_cas_needs_expected_value() {
    let p = Possibility::from(vec![(0, 0)], Some(1), 1, vec![1, 0]);
    let n = CheckerPerKey::try_append_new_span(&p, &cas(1, 2, 3, 4), (1, 0)).unwrap();
    assert_eq!(n.graph, vec![(0, 0), (1, 0)]);
    assert_eq!(n.state, Some(2));
    assert_eq!(n.max_invoke, 3);
    assert_eq!(n.feed_prog, vec![1, 1]);
    assert!(CheckerPerKey::try_append_new_span(&p, &cas(2, 3, 3, 4), (1, 0)).is_none());
}

#[test]
fn feed_attempt_respects_the_real_time_guard() {
    let queues = vec![vec![w(1, 5, 6)], vec![w(2, 1, 2)]];
    let p = Possibility::from(vec![(0, 0)], Some(1), 5, vec![1, 0]);
    let mut pending = VecDeque::new();
    let mut seen = SeenSet::new();
    // The span finished at 2, a span invoked at 5 is placed already.
    CheckerPerKey::handle_feed_attempt(&p, &queues[1][0], (1, 0), &queues, &mut pending, &mut seen);
    assert!(pending.is_empty());
    assert!(!seen.contains(Some(2), &vec![1, 1]));
    // A span that finishes exactly at 5 passes.
    let late = w(2, 1, 5);
    CheckerPerKey::handle_feed_attempt(&p, &late, (1, 0), &queues, &mut pending, &mut seen);
    assert_eq!(pending.len(), 1);
    assert!(seen.contains(Some(2), &vec![1, 1]));
    assert_eq!(pending[0].state, Some(2));
    assert_eq!(pending[0].feed_prog, vec![1, 1]);
    assert_eq!(pending[0].max_invoke, 5);
}

#[test]
fn feed_attempt_drops_a_node_seen_before() {
    let queues = vec![vec![w(1, 1, 10)], vec![w(1, 2, 9)]];
    let p = Possibility::initial(2);
    let mut pending = VecDeque::new();
    let mut seen = SeenSet::new();
    CheckerPerKey::handle_feed_attempt(&p, &queues[0][0], (0, 0), &queues, &mut pending, &mut seen);
    assert_eq!(pending.len(), 1);
    // The same node again: the queue does not grow.
    CheckerPerKey::handle_feed_attempt(&p, &queues[0][0], (0, 0), &queues, &mut pending, &mut seen);
    assert_eq!(pending.len(), 1);
    // Another node: it does.
    CheckerPerKey::handle_feed_attempt(&p, &queues[1][0], (1, 0), &queues, &mut pending, &mut seen);
    assert_eq!(pending.len(), 2);
}

#[test]
fn feed_attempt_drops_what_the_register_rejects() {
    let queues = vec![vec![r(Some(1), 1, 2)]];
    let p = Possibility::initial(1);
    let mut pending = VecDeque::new();
    let mut seen = SeenSet::new();
    CheckerPerKey::handle_feed_attempt(&p, &queues[0][0], (0, 0), &queues, &mut pending, &mut seen);
    assert!(pending.is_empty());
}

#[test]
fn seen_set_holds_what_was_inserted() {
    let mut seen = SeenSet::new();
    assert!(!seen.contains(None, &vec![0, 0]));
    seen.insert(None, vec![0, 0]);
    assert!(seen.contains(None, &vec![0, 0]));
    assert!(!seen.contains(Some(0), &vec![0, 0]));
    assert!(!seen.contains(None, &vec![0, 1]));
    assert!(!seen.contains(None, &vec![0]));
    seen.insert(Some(0), vec![0, 0]);
    seen.insert(None, vec![0, 1]);
    seen.insert(None, vec![0, 0]);
    assert!(seen.contains(None, &vec![0, 0]));
    assert!(seen.contains(Some(0), &vec![0, 0]));
    assert!(seen.contains(None, &vec![0, 1]));
    assert!(!seen.contains(Some(1), &vec![0, 1]));
}

#[test]
fn seen_set_holds_many_nodes() {
    let mut seen = SeenSet::new();
    for a in 0..40usize {
        for b in 0..40usize {
            seen.insert(Some((a * b) as u64 % 7), vec![a, b]);
        }
    }
    for a in 0..40usize {
        for b in 0..40usize {
            assert!(seen.contains(Some((a * b) as u64 % 7), &vec![a, b]));
            assert!(!seen.contains(Some((a * b) as u64 % 7 + 7), &vec![a, b]));
        }
    }
    assert!(!seen.contains(Some(0), &vec![40, 0]));
}

#[test]
fn hash_is_a_function_of_state_and_progress() {
    assert_eq!(hash_key(Some(3), &vec![1, 2, 3]), hash_key(Some(3), &vec![1, 2, 3]));
    assert_eq!(hash_key(None, &vec![]), 12638204796670226954);
    assert_eq!(
        hash_key(Some(0), &vec![]),
        ((14695981039346656037u128 * 1099511628211u128 + 2) % 18446744073709551557u128) as u64
    );
}

#[test]
fn same_progress_compares_elementwise() {
    assert!(same_progress(&vec![], &vec![]));
    assert!(same_progress(&vec![1, 2], &vec![1, 2]));
    assert!(!same_progress(&vec![1, 2], &vec![1, 3]));
    assert!(!same_progress(&vec![1, 2], &vec![1]));
}

#[test]
fn a_cas_that_expects_nil_is_accepted_before_any_write() {
    let nil_cas = CkSpan { invoke: 1, finish: 2, data: CkData::Rmw { rval: None, wval: Some(3) } };
    assert_eq!(verdict(vec![vec![nil_cas], vec![r(Some(3), 3, 4)]]), Consistency::Linearizable);
    assert_eq!(verdict(vec![vec![w(1, 1, 2)], vec![CkSpan { invoke: 3, finish: 4, ..nil_cas }]]), Consistency::Weak);
}
