use checker::check::{CheckError, Checker, CkData, CkSpan};
use checker::run::{check_history, exit_code, judge, load_timeline, RunError};
use checker::store::{parse_history, LoadError};
use checker::timeline::Timeline;
use checker::types::{Consistency, Event, EventType, HistoryError, OpData, ParseError};

fn checker_of(lines: &[&str]) -> Checker {
    let lines: Vec<String> = lines.iter().map(|l| l.to_string()).collect();
    let h = parse_history(&lines).unwrap();
    Checker::new(Timeline::new(h.events, h.max_client).unwrap())
}

const TWO_KEYS: [&str; 8] = [
    "{:type :invoke, :f :write, :value [1 10], :time 1, :process 0, :index 0}",
    "{:type :ok, :f :write, :value [1 10], :time 2, :process 0, :index 1}",
    "{:type :invoke, :f :write, :value [2 20], :time 3, :process 0, :index 2}",
    "{:type :ok, :f :write, :value [2 20], :time 4, :process 0, :index 3}",
    "{:type :invoke, :f :read, :value [1 nil], :time 5, :process 1, :index 4}",
    "{:type :ok, :f :read, :value [1 10], :time 6, :process 1, :index 5}",
    "{:type :invoke, :f :read, :value [2 nil], :time 7, :process 1, :index 6}",
    "{:type :ok, :f :read, :value [2 21], :time 8, :process 1, :index 7}",
];

#[test]
fn two_keys_of_which_the_second_is_weak() {
    let mut c = checker_of(&TWO_KEYS);
    assert_eq!(c.key_list(), &vec![1, 2]);
    assert_eq!(c.check(), Ok(Consistency::Weak));
    assert_eq!(c.weak_key(), Some(2));
    assert_eq!(c.check(), Ok(Consistency::Weak));
}

#[test]
fn two_linearizable_keys() {
    let mut lines = TWO_KEYS.to_vec();
    lines[7] = "{:type :ok, :f :read, :value [2 20], :time 8, :process 1, :index 7}";
    let mut c = checker_of(&lines);
    assert_eq!(c.check(), Ok(Consistency::Linearizable));
    assert_eq!(c.weak_key(), None);
}

#[test]
fn keys_are_checked_independently() {
    // Key 2 is written before key 1 is read with the value of key 2.
    let lines = [
        "{:type :invoke, :f :write, :value [2 5], :time 1, :process 0, :index 0}",
        "{:type :ok, :f :write, :value [2 5], :time 2, :process 0, :index 1}",
        "{:type :invoke, :f :read, :value [1 nil], :time 3, :process 0, :index 2}",
        "{:type :ok, :f :read, :value [1 5], :time 4, :process 0, :index 3}",
    ];
    let mut c = checker_of(&lines);
    assert_eq!(c.key_list(), &vec![2, 1]);
    assert_eq!(c.check(), Ok(Consistency::Weak));
    assert_eq!(c.weak_key(), Some(1));
}

#[test]
fn the_order_of_keys_does_not_change_the_verdict() {
    let w = |k: u64, v: u64| OpData::Write { key: k, val: v, tag: 0 };
    let r = |k: u64, v: u64| OpData::Read { key: k, val: Some(v), tag: None };
    let run = |ops: Vec<OpData>| {
        let mut events = Vec::new();
        for (i, op) in ops.into_iter().enumerate() {
            events.push(Event::new(2 * i as u64 + 1, EventType::Invoke, 0, op));
            events.push(Event::new(2 * i as u64 + 2, EventType::Okay, 0, op));
        }
        let mut c = Checker::new(Timeline::new(events, 0).unwrap());
        (c.key_list().clone(), c.check(), c.weak_key())
    };
    let (keys, verdict, weak) = run(vec![w(1, 1), w(2, 1), r(1, 1), r(2, 2)]);
    assert_eq!((keys, verdict, weak), (vec![1, 2], Ok(Consistency::Weak), Some(2)));
    let (keys, verdict, weak) = run(vec![w(2, 1), w(1, 1), r(1, 1), r(2, 2)]);
    assert_eq!((keys, verdict, weak), (vec![2, 1], Ok(Consistency::Weak), Some(2)));
}

#[test]
fn spans_in_flight_are_not_checked() {
    let lines = [
        "{:type :invoke, :f :write, :value [1 10], :time 1, :process 0, :index 0}",
        "{:type :ok, :f :write, :value [1 10], :time 2, :process 0, :index 1}",
        "{:type :invoke, :f :write, :value [1 11], :time 3, :process 0, :index 2}",
        "{:type :invoke, :f :write, :value [3 11], :time 4, :process 1, :index 3}",
    ];
    let mut c = checker_of(&lines);
    assert_eq!(c.key_list(), &vec![1]);
    assert_eq!(c.check(), Ok(Consistency::Linearizable));
}

#[test]
fn no_completed_operation_is_linearizable() {
    let mut c = Checker::new(Timeline::new(vec![], 0).unwrap());
    assert!(c.key_list().is_empty());
    assert_eq!(c.check(), Ok(Consistency::Linearizable));
    assert_eq!(c.weak_key(), None);
}

#[test]
fn a_weak_key_settles_the_verdict_whatever_the_bound() {
    let lines: Vec<String> = TWO_KEYS.iter().map(|l| l.to_string()).collect();
    let h = parse_history(&lines).unwrap();
    let tl = Timeline::new(h.events, h.max_client).unwrap();
    // Each key has two incomplete nodes to expand.
    let mut tight = Checker::with_bound(tl.clone(), 1);
    assert_eq!(tight.check(), Err(CheckError::Inconclusive));
    assert_eq!(tight.weak_key(), None);
    let mut wide = Checker::with_bound(tl, 2);
    assert_eq!(wide.check(), Ok(Consistency::Weak));
    assert_eq!(wide.weak_key(), Some(2));
}

#[test]
fn an_undecided_key_leaves_the_verdict_open() {
    // Key 1 has one operation, key 2 has three in a row.
    let lines = [
        "{:type :invoke, :f :write, :value [1 10], :time 1, :process 0, :index 0}",
        "{:type :ok, :f :write, :value [1 10], :time 2, :process 0, :index 1}",
        "{:type :invoke, :f :write, :value [2 20], :time 3, :process 0, :index 2}",
        "{:type :ok, :f :write, :value [2 20], :time 4, :process 0, :index 3}",
        "{:type :invoke, :f :cas, :value [2 [20 21]], :time 5, :process 0, :index 4}",
        "{:type :ok, :f :cas, :value [2 [20 21]], :time 6, :process 0, :index 5}",
        "{:type :invoke, :f :read, :value [2 nil], :time 7, :process 0, :index 6}",
        "{:type :ok, :f :read, :value [2 21], :time 8, :process 0, :index 7}",
    ];
    let lines: Vec<String> = lines.iter().map(|l| l.to_string()).collect();
    let h = parse_history(&lines).unwrap();
    let tl = Timeline::new(h.events, h.max_client).unwrap();
    assert_eq!(Checker::with_bound(tl.clone(), 0).check(), Err(CheckError::Inconclusive));
    assert_eq!(Checker::with_bound(tl.clone(), 1).check(), Err(CheckError::Inconclusive));
    assert_eq!(Checker::with_bound(tl.clone(), 2).check(), Err(CheckError::Inconclusive));
    assert_eq!(Checker::with_bound(tl.clone(), 3).check(), Ok(Consistency::Linearizable));
    assert_eq!(Checker::new(tl).check(), Ok(Consistency::Linearizable));
}

#[test]
fn the_spans_of_a_key_are_those_completed_on_it() {
    let c = checker_of(&TWO_KEYS);
    assert_eq!(
        c.queues_of(2),
        Some(&vec![
            vec![CkSpan { invoke: 3, finish: 4, data: CkData::Write { val: 20 } }],
            vec![CkSpan { invoke: 7, finish: 8, data: CkData::Read { val: Some(21) } }],
        ])
    );
    assert_eq!(
        c.queues_of(1),
        Some(&vec![
            vec![CkSpan { invoke: 1, finish: 2, data: CkData::Write { val: 10 } }],
            vec![CkSpan { invoke: 5, finish: 6, data: CkData::Read { val: Some(10) } }],
        ])
    );
    assert_eq!(c.queues_of(3), None);
}

fn lines_of(lines: &[&str]) -> Vec<String> {
    lines.iter().map(|l| l.to_string()).collect()
}

#[test]
fn a_history_is_checked_in_one_call() {
    assert_eq!(check_history(&lines_of(&TWO_KEYS), None), Ok((Consistency::Weak, Some(2))));
    let mut good = TWO_KEYS.to_vec();
    good[7] = "{:type :ok, :f :read, :value [2 20], :time 8, :process 1, :index 7}";
    assert_eq!(check_history(&lines_of(&good), None), Ok((Consistency::Linearizable, None)));
    assert_eq!(check_history(&lines_of(&good), Some(2)), Ok((Consistency::Linearizable, None)));
    assert_eq!(check_history(&lines_of(&good), Some(1)), Err(RunError::Inconclusive));
}

#[test]
fn a_history_without_events_is_an_error() {
    assert_eq!(check_history(&vec![], None), Err(RunError::EmptyHistory));
    let only_nemesis = ["{:type :info, :f :start, :time 1, :process :nemesis, :index 0}", ""];
    assert_eq!(check_history(&lines_of(&only_nemesis), None), Err(RunError::EmptyHistory));
}

#[test]
fn errors_of_reading_and_folding_come_through() {
    let bad_index = [
        "{:type :invoke, :f :write, :value [1 2], :time 1, :process 0, :index 4}",
        "{:type :ok, :f :write, :value [1 2], :time 2, :process 0, :index 4}",
    ];
    assert_eq!(
        check_history(&lines_of(&bad_index), None),
        Err(RunError::Load(LoadError {
            line: 1,
            reason: ParseError::IndexNotIncreasing { index: 4, last: 4 }
        }))
    );
    let no_invoke = ["{:type :ok, :f :write, :value [1 2], :time 2, :process 0, :index 4}"];
    assert_eq!(
        check_history(&lines_of(&no_invoke), None),
        Err(RunError::History(HistoryError::OkayWithoutInflight { client: 0, time: 2 }))
    );
    let huge = format!(
        "{{:type :invoke, :f :write, :value [1 2], :time 2, :process {}, :index 4}}",
        usize::MAX
    );
    assert_eq!(check_history(&vec![huge], None), Err(RunError::TooManyClients));
}

#[test]
fn loading_gives_the_timeline_and_the_lines_passed_over() {
    let mut lines = TWO_KEYS.to_vec();
    lines.insert(2, "{:type :bogus, :index 100}");
    let err = load_timeline(&lines_of(&lines)).unwrap_err();
    assert_eq!(
        err,
        RunError::Load(LoadError { line: 3, reason: ParseError::IndexNotIncreasing { index: 2, last: 100 } })
    );
    lines[2] = "{:type :bogus}";
    let loaded = load_timeline(&lines_of(&lines)).unwrap();
    assert_eq!(loaded.skipped.len(), 1);
    assert_eq!(loaded.skipped[0].line, 2);
    assert_eq!(loaded.timeline.num_clients(), 2);
    assert_eq!(loaded.timeline.stats_ops_sum, 4);
    let mut c = Checker::new(loaded.timeline);
    assert_eq!(judge(&mut c), Ok((Consistency::Weak, Some(2))));
}

#[test]
fn exit_codes() {
    assert_eq!(exit_code(&Ok((Consistency::Linearizable, None))), 0);
    assert_eq!(exit_code(&Ok((Consistency::Weak, Some(3)))), 1);
    assert_eq!(exit_code(&Ok((Consistency::Sequential, None))), 1);
    assert_eq!(exit_code(&Err(RunError::Inconclusive)), 2);
    assert_eq!(exit_code(&Err(RunError::EmptyHistory)), 101);
    assert_eq!(exit_code(&Err(RunError::TooManyClients)), 101);
    assert_eq!(
        exit_code(&Err(RunError::History(HistoryError::FailWithoutInflight { client: 0, time: 1 }))),
        101
    );
}
