use checker::store::{parse_history, parse_line, parse_segment, LineResult, LoadError, SkippedLine};
use checker::text::{same_text, split, starts_with};
use checker::types::{Event, EventType, OpData, ParseError};

struct Fields {
    last_index: i64,
    last_time: u64,
    max_client: usize,
    time: Option<u64>,
    etype: Option<EventType>,
    client: Option<usize>,
    op: Option<OpData>,
}

impl Fields {
    fn new() -> Self {
        Fields { last_index: -1, last_time: 0, max_client: 0, time: None, etype: None, client: None, op: None }
    }

    fn feed(&mut self, field: &str, stuff: &str) -> Result<bool, ParseError> {
        parse_segment(
            field,
            stuff,
            &mut self.last_index,
            &mut self.last_time,
            &mut self.max_client,
            &mut self.time,
            &mut self.etype,
            &mut self.client,
            &mut self.op,
        )
    }
}

#[test]
fn event_types() {
    assert_eq!(EventType::from_type(":invoke"), Ok(EventType::Invoke));
    assert_eq!(EventType::from_type(":ok"), Ok(EventType::Okay));
    assert_eq!(EventType::from_type(":fail"), Ok(EventType::Fail));
    assert_eq!(EventType::from_type(":info"), Ok(EventType::Error));
    assert_eq!(EventType::from_type("ok"), Err(ParseError::UnknownEventType));
    assert_eq!(EventType::from_type(":ok "), Err(ParseError::UnknownEventType));
    assert_eq!(EventType::from_type(""), Err(ParseError::UnknownEventType));
}

#[test]
fn operation_types() {
    assert_eq!(OpData::from_type(":read"), Ok(OpData::Read { key: 0, val: None, tag: None }));
    assert_eq!(OpData::from_type(":write"), Ok(OpData::Write { key: 0, val: 0, tag: 0 }));
    assert_eq!(
        OpData::from_type(":cas"),
        Ok(OpData::Rmw { key: 0, rval: None, rtag: None, wval: None, wtag: None })
    );
    assert_eq!(OpData::from_type(":append"), Err(ParseError::UnknownOpType));
}

#[test]
fn values_of_a_read() {
    let mut d = OpData::Read { key: 0, val: None, tag: Some(9) };
    assert_eq!(d.fill_values("[3 17]"), Ok(()));
    assert_eq!(d, OpData::Read { key: 3, val: Some(17), tag: Some(9) });
    assert_eq!(d.fill_values("[4 nil]"), Ok(()));
    assert_eq!(d, OpData::Read { key: 4, val: None, tag: Some(9) });
    assert_eq!(d.fill_values("[5  nil ]]"), Ok(()));
    assert_eq!(d, OpData::Read { key: 5, val: None, tag: Some(9) });
    assert_eq!(d.fill_values("[[6 +7"), Ok(()));
    assert_eq!(d, OpData::Read { key: 6, val: Some(7), tag: Some(9) });
}

#[test]
fn bad_values_leave_the_operation_as_it_is() {
    let start = OpData::Read { key: 1, val: Some(2), tag: None };
    let mut d = start;
    assert_eq!(d.fill_values("[3]"), Err(ParseError::BadValue));
    assert_eq!(d.fill_values(""), Err(ParseError::BadValue));
    assert_eq!(d.fill_values("[x 3]"), Err(ParseError::BadNumber));
    assert_eq!(d.fill_values("[3 x]"), Err(ParseError::BadNumber));
    assert_eq!(d.fill_values("[3  4]"), Err(ParseError::BadNumber));
    assert_eq!(d.fill_values("[3 -4]"), Err(ParseError::BadNumber));
    assert_eq!(d.fill_values("[3 18446744073709551616]"), Err(ParseError::BadNumber));
    assert_eq!(d, start);
    assert_eq!(d.fill_values("[3 18446744073709551615]"), Ok(()));
    assert_eq!(d, OpData::Read { key: 3, val: Some(u64::MAX), tag: None });
}

#[test]
fn values_of_a_write() {
    let mut d = OpData::Write { key: 0, val: 0, tag: 5 };
    assert_eq!(d.fill_values("[3 17]"), Ok(()));
    assert_eq!(d, OpData::Write { key: 3, val: 17, tag: 5 });
    assert_eq!(d.fill_values("[3 nil]"), Err(ParseError::BadNumber));
    assert_eq!(d.fill_values("[3]"), Err(ParseError::BadValue));
    assert_eq!(d, OpData::Write { key: 3, val: 17, tag: 5 });
}

#[test]
fn values_of_a_cas() {
    let mut d = OpData::Rmw { key: 0, rval: None, rtag: Some(1), wval: None, wtag: Some(2) };
    assert_eq!(d.fill_values("[3 [4 5]]"), Ok(()));
    assert_eq!(d, OpData::Rmw { key: 3, rval: Some(4), rtag: Some(1), wval: Some(5), wtag: Some(2) });
    assert_eq!(d.fill_values("[3 4]"), Err(ParseError::BadValue));
    assert_eq!(d.fill_values("[3 [x 5]]"), Err(ParseError::BadNumber));
    assert_eq!(d.fill_values("[3 [4 x]]"), Err(ParseError::BadNumber));
    assert_eq!(d.fill_values("[x [4 5]]"), Err(ParseError::BadNumber));
    assert_eq!(d.fill_values("3"), Err(ParseError::BadValue));
    assert_eq!(d, OpData::Rmw { key: 3, rval: Some(4), rtag: Some(1), wval: Some(5), wtag: Some(2) });
}

#[test]
fn nil_in_the_values_of_a_cas() {
    let mut d = OpData::Rmw { key: 0, rval: None, rtag: None, wval: None, wtag: None };
    assert_eq!(d.fill_values("[5 [nil 3]]"), Ok(()));
    assert_eq!(d, OpData::Rmw { key: 5, rval: None, rtag: None, wval: Some(3), wtag: None });
    assert_eq!(d.fill_values("[6 [4 nil]]"), Ok(()));
    assert_eq!(d, OpData::Rmw { key: 6, rval: Some(4), rtag: None, wval: None, wtag: None });
    assert_eq!(d.fill_values("[7 [nil nil]]"), Ok(()));
    assert_eq!(d, OpData::Rmw { key: 7, rval: None, rtag: None, wval: None, wtag: None });
    assert_eq!(d.fill_values("[nil [1 2]]"), Err(ParseError::BadNumber));
    assert_eq!(d, OpData::Rmw { key: 7, rval: None, rtag: None, wval: None, wtag: None });
}

#[test]
fn tags() {
    let mut d = OpData::Read { key: 1, val: Some(2), tag: None };
    assert_eq!(d.fill_tstags("77"), Ok(()));
    assert_eq!(d, OpData::Read { key: 1, val: Some(2), tag: Some(77) });
    assert_eq!(d.fill_tstags(" nil "), Ok(()));
    assert_eq!(d, OpData::Read { key: 1, val: Some(2), tag: None });
    assert_eq!(d.fill_tstags(" 5"), Err(ParseError::BadNumber));

    let mut d = OpData::Write { key: 1, val: 2, tag: 0 };
    assert_eq!(d.fill_tstags("78"), Ok(()));
    assert_eq!(d, OpData::Write { key: 1, val: 2, tag: 78 });
    assert_eq!(d.fill_tstags("nil"), Err(ParseError::BadNumber));
    assert_eq!(d, OpData::Write { key: 1, val: 2, tag: 78 });

    let mut d = OpData::Rmw { key: 1, rval: Some(2), rtag: None, wval: Some(3), wtag: None };
    assert_eq!(d.fill_tstags("[5 6]"), Ok(()));
    assert_eq!(d, OpData::Rmw { key: 1, rval: Some(2), rtag: Some(5), wval: Some(3), wtag: Some(6) });
    assert_eq!(d.fill_tstags("[nil 7]"), Ok(()));
    assert_eq!(d, OpData::Rmw { key: 1, rval: Some(2), rtag: None, wval: Some(3), wtag: Some(7) });
    assert_eq!(d.fill_tstags("[8 nil]"), Ok(()));
    assert_eq!(d, OpData::Rmw { key: 1, rval: Some(2), rtag: Some(8), wval: Some(3), wtag: None });
    assert_eq!(d.fill_tstags("5"), Err(ParseError::BadTag));
    assert_eq!(d.fill_tstags("[x 5]"), Err(ParseError::BadNumber));
    assert_eq!(d, OpData::Rmw { key: 1, rval: Some(2), rtag: Some(8), wval: Some(3), wtag: None });
}

#[test]
fn index_segment() {
    let mut f = Fields::new();
    assert_eq!(f.feed(":index", "0"), Ok(true));
    assert_eq!(f.last_index, 0);
    assert_eq!(f.feed(":index", "12"), Ok(true));
    assert_eq!(f.last_index, 12);
    assert_eq!(f.feed(":index", "12"), Err(ParseError::IndexNotIncreasing { index: 12, last: 12 }));
    assert_eq!(f.feed(":index", "-3"), Err(ParseError::IndexNotIncreasing { index: -3, last: 12 }));
    assert_eq!(f.feed(":index", "x"), Err(ParseError::BadNumber));
    assert_eq!(f.feed(":index", "9223372036854775808"), Err(ParseError::BadNumber));
    assert_eq!(f.last_index, 12);
    assert_eq!(f.feed(":index", "9223372036854775807"), Ok(true));
    assert_eq!(f.last_index, i64::MAX);
    let mut f = Fields::new();
    assert_eq!(f.feed(":index", "-1"), Err(ParseError::IndexNotIncreasing { index: -1, last: -1 }));
    assert_eq!(f.feed(":index", "-"), Err(ParseError::BadNumber));
    assert_eq!(
        f.feed(":index", "-9223372036854775808"),
        Err(ParseError::IndexNotIncreasing { index: i64::MIN, last: -1 })
    );
    assert_eq!(f.feed(":index", "-9223372036854775809"), Err(ParseError::BadNumber));
    assert_eq!(f.feed(":index", "1_0"), Err(ParseError::BadNumber));
    assert_eq!(f.feed(":index", ""), Err(ParseError::BadNumber));
    assert_eq!(f.feed(":index", "+4"), Ok(true));
    assert_eq!(f.last_index, 4);
}

#[test]
fn time_segment() {
    let mut f = Fields::new();
    assert_eq!(f.feed(":time", "0"), Err(ParseError::TimeNotIncreasing { time: 0, last: 0 }));
    assert_eq!(f.time, None);
    assert_eq!(f.feed(":time", "100"), Ok(true));
    assert_eq!((f.last_time, f.time), (100, Some(100)));
    assert_eq!(f.feed(":time", "99"), Err(ParseError::TimeNotIncreasing { time: 99, last: 100 }));
    assert_eq!(f.feed(":time", "1e3"), Err(ParseError::BadNumber));
    assert_eq!((f.last_time, f.time), (100, Some(100)));
}

#[test]
fn type_and_operation_segments() {
    let mut f = Fields::new();
    assert_eq!(f.feed(":type", ":ok"), Ok(true));
    assert_eq!(f.etype, Some(EventType::Okay));
    assert_eq!(f.feed(":type", ":nope"), Err(ParseError::UnknownEventType));
    assert_eq!(f.etype, Some(EventType::Okay));
    assert_eq!(f.feed(":value", "[1 2]"), Err(ParseError::MissingOpType));
    assert_eq!(f.feed(":tstag", "1"), Err(ParseError::MissingOpType));
    assert_eq!(f.feed(":f", ":write"), Ok(true));
    assert_eq!(f.feed(":f", ":nope"), Err(ParseError::UnknownOpType));
    assert_eq!(f.feed(":value", "[1 2]"), Ok(true));
    assert_eq!(f.feed(":tstag", "3"), Ok(true));
    assert_eq!(f.op, Some(OpData::Write { key: 1, val: 2, tag: 3 }));
    assert_eq!(f.feed(":value", "[1 x]"), Err(ParseError::BadNumber));
    assert_eq!(f.op, Some(OpData::Write { key: 1, val: 2, tag: 3 }));
}

#[test]
fn process_segment() {
    let mut f = Fields::new();
    assert_eq!(f.feed(":process", ":nemesis"), Ok(false));
    assert_eq!(f.feed(":process", "  :nemesis"), Ok(false));
    assert_eq!((f.client, f.max_client), (None, 0));
    assert_eq!(f.feed(":process", "4"), Ok(true));
    assert_eq!((f.client, f.max_client), (Some(4), 4));
    assert_eq!(f.feed(":process", "2"), Ok(true));
    assert_eq!((f.client, f.max_client), (Some(2), 4));
    assert_eq!(f.feed(":process", " 7"), Err(ParseError::BadNumber));
    assert_eq!(f.feed(":process", ""), Err(ParseError::BadNumber));
    assert_eq!((f.client, f.max_client), (Some(2), 4));
}

#[test]
fn other_segments_change_nothing() {
    let mut f = Fields::new();
    assert_eq!(f.feed(":error", "anything at all"), Ok(true));
    assert_eq!(f.feed("index", "5"), Ok(true));
    assert_eq!((f.last_index, f.last_time, f.max_client), (-1, 0, 0));
    assert_eq!((f.time, f.etype, f.client, f.op), (None, None, None, None));
}

fn line(text: &str, cursor: &mut (i64, u64, usize)) -> LineResult {
    parse_line(text, &mut cursor.0, &mut cursor.1, &mut cursor.2)
}

#[test]
fn a_line_makes_an_event() {
    let mut cur = (-1, 0, 0);
    let r = line("{:type :invoke, :f :write, :value [3 4], :time 10, :process 2, :index 0}", &mut cur);
    assert_eq!(
        r,
        LineResult::Parsed(Event::new(10, EventType::Invoke, 2, OpData::Write { key: 3, val: 4, tag: 0 }))
    );
    assert_eq!(cur, (0, 10, 2));
    let r = line("{:index 1, :time 11, :process 0, :type :ok, :f :cas, :value [3 [4 5]], :tstag [6 nil], :extra x}", &mut cur);
    assert_eq!(
        r,
        LineResult::Parsed(Event::new(
            11,
            EventType::Okay,
            0,
            OpData::Rmw { key: 3, rval: Some(4), rtag: Some(6), wval: Some(5), wtag: None }
        ))
    );
    assert_eq!(cur, (1, 11, 2));
}

#[test]
fn blank_lines() {
    let mut cur = (3, 4, 5);
    assert_eq!(line("", &mut cur), LineResult::Blank);
    assert_eq!(line("{}", &mut cur), LineResult::Blank);
    assert_eq!(line("{{}}", &mut cur), LineResult::Blank);
    assert_eq!(cur, (3, 4, 5));
}

#[test]
fn lines_not_from_clients_are_passed_over() {
    let mut cur = (-1, 0, 0);
    let r = line("{:index 4, :time 9, :process :nemesis, :type :info, :f :start}", &mut cur);
    assert_eq!(r, LineResult::NotClient);
    // The index persists, the time does not.
    assert_eq!(cur, (4, 0, 0));
    let r = line("{:type :info, :f :start, :value nil, :index 5, :time 0, :process  :nemesis }", &mut cur);
    assert_eq!(r, LineResult::NotClient);
    assert_eq!(cur, (5, 0, 0));
    let r = line("{:f, :process :nemesis}", &mut cur);
    assert_eq!(r, LineResult::NotClient);
    assert_eq!(cur, (5, 0, 0));
    let r = line("{:f :read, :process nemesis}", &mut cur);
    assert_eq!(r, LineResult::Skipped(ParseError::BadNumber));
}

#[test]
fn the_index_of_every_line_is_checked() {
    let mut cur = (4, 0, 0);
    assert_eq!(
        line("{:process :nemesis, :index 4}", &mut cur),
        LineResult::Fatal(ParseError::IndexNotIncreasing { index: 4, last: 4 })
    );
    assert_eq!(cur, (4, 0, 0));
    // A field that cannot be read comes before the index.
    assert_eq!(
        line("{:type :what, :index 3}", &mut cur),
        LineResult::Fatal(ParseError::IndexNotIncreasing { index: 3, last: 4 })
    );
    assert_eq!(line("{:type :what, :index 6}", &mut cur), LineResult::Skipped(ParseError::UnknownEventType));
    assert_eq!(cur, (6, 0, 0));
    // Two indices in one line.
    assert_eq!(
        line("{:index 8, :index 8, :process :nemesis}", &mut cur),
        LineResult::Fatal(ParseError::IndexNotIncreasing { index: 8, last: 8 })
    );
    assert_eq!(line("{:index 8, :index 9, :process :nemesis}", &mut cur), LineResult::NotClient);
    assert_eq!(cur, (9, 0, 0));
    // An index that cannot be read is no index.
    assert_eq!(line("{:index x, :process :nemesis}", &mut cur), LineResult::NotClient);
    assert_eq!(line("{:index x, :process 1}", &mut cur), LineResult::Skipped(ParseError::BadNumber));
    assert_eq!(cur, (9, 0, 0));
}

#[test]
fn time_and_client_persist_from_events_only() {
    let mut cur = (-1, 10, 2);
    // The line is passed over: neither its time nor its client persists.
    let r = line("{:index 0, :time 100, :process 7, :type :what}", &mut cur);
    assert_eq!(r, LineResult::Skipped(ParseError::UnknownEventType));
    assert_eq!(cur, (0, 10, 2));
    let r = line("{:index 1, :time 50, :process 1, :type :ok, :f :read, :value [1 nil]}", &mut cur);
    assert_eq!(
        r,
        LineResult::Parsed(Event::new(50, EventType::Okay, 1, OpData::Read { key: 1, val: None, tag: None }))
    );
    assert_eq!(cur, (1, 50, 2));
    let r = line("{:index 2, :time 51, :process 9, :type :ok, :f :read, :value [1 nil]}", &mut cur);
    assert_eq!(
        r,
        LineResult::Parsed(Event::new(51, EventType::Okay, 9, OpData::Read { key: 1, val: None, tag: None }))
    );
    assert_eq!(cur, (2, 51, 9));
    // The time of a line that is not from a client is not compared.
    assert_eq!(line("{:index 3, :time 5, :process :nemesis}", &mut cur), LineResult::NotClient);
    assert_eq!(cur, (3, 51, 9));
}

#[test]
fn unreadable_fields_skip_the_line() {
    let mut cur = (-1, 0, 0);
    assert_eq!(line("{:type :what, :index 5}", &mut cur), LineResult::Skipped(ParseError::UnknownEventType));
    assert_eq!(cur, (5, 0, 0));
    assert_eq!(line("{:index 6, :f :what}", &mut cur), LineResult::Skipped(ParseError::UnknownOpType));
    assert_eq!(cur, (6, 0, 0));
    assert_eq!(line("{:f :read, :value [1]}", &mut cur), LineResult::Skipped(ParseError::BadValue));
    assert_eq!(line("{:f :cas, :tstag 1}", &mut cur), LineResult::Skipped(ParseError::BadTag));
    assert_eq!(line("{:value [1 2]}", &mut cur), LineResult::Skipped(ParseError::MissingOpType));
    assert_eq!(line("{:time soon}", &mut cur), LineResult::Skipped(ParseError::BadNumber));
    assert_eq!(line("{:type}", &mut cur), LineResult::Skipped(ParseError::BadSegment));
    assert_eq!(cur, (6, 0, 0));
}

#[test]
fn pieces_without_a_colon_are_passed_over() {
    let mut cur = (-1, 0, 0);
    let r = line("{junk, :type :ok,  , more junk here, :f :read, :value [1 nil], :time 3, :process 1}", &mut cur);
    assert_eq!(
        r,
        LineResult::Parsed(Event::new(3, EventType::Okay, 1, OpData::Read { key: 1, val: None, tag: None }))
    );
}

#[test]
fn fatal_lines() {
    let mut cur = (7, 50, 0);
    assert_eq!(
        line("{:index 7, :time 51}", &mut cur),
        LineResult::Fatal(ParseError::IndexNotIncreasing { index: 7, last: 7 })
    );
    assert_eq!(
        line("{:index 8, :time 50}", &mut cur),
        LineResult::Fatal(ParseError::TimeNotIncreasing { time: 50, last: 50 })
    );
    assert_eq!(cur, (8, 50, 0));
    assert_eq!(line("{:index 9, :time 60, :type :ok, :f :read}", &mut cur), LineResult::Fatal(ParseError::MissingField));
    assert_eq!(line("{:other 1}", &mut cur), LineResult::Fatal(ParseError::MissingField));
}

#[test]
fn fields_do_not_carry_over_from_line_to_line() {
    let lines = vec![
        "{:type :invoke, :f :write, :value [1 2], :process 0, :time x}".to_string(),
        "{:index 1, :time 5}".to_string(),
    ];
    assert_eq!(parse_history(&lines).unwrap_err(), LoadError { line: 1, reason: ParseError::MissingField });
}

#[test]
fn a_history_is_read_line_by_line() {
    let lines: Vec<String> = vec![
        "{:type :invoke, :f :write, :value [1 2], :time 1, :process 0, :index 0}",
        "{:type :info, :f :start, :value nil, :time 2, :process :nemesis, :index 1}",
        "",
        "{:type :invoke, :f :read, :value [1 nil], :time 3, :process 3, :index 2}",
        "{:type :ok, :f :write, :value [1 2], :time 4, :process 0, :index 3}",
        "{:type :bogus, :time 5, :process 9, :index 4}",
        "{:type :ok, :f :read, :value [1 2], :time 6, :process 3, :index 5}",
    ]
    .into_iter()
    .map(String::from)
    .collect();
    let h = parse_history(&lines).unwrap();
    assert_eq!(
        h.events,
        vec![
            Event::new(1, EventType::Invoke, 0, OpData::Write { key: 1, val: 2, tag: 0 }),
            Event::new(3, EventType::Invoke, 3, OpData::Read { key: 1, val: None, tag: None }),
            Event::new(4, EventType::Okay, 0, OpData::Write { key: 1, val: 2, tag: 0 }),
            Event::new(6, EventType::Okay, 3, OpData::Read { key: 1, val: Some(2), tag: None }),
        ]
    );
    assert_eq!(h.max_client, 3);
    assert_eq!(h.skipped, vec![SkippedLine { line: 5, reason: ParseError::UnknownEventType }]);
}

#[test]
fn an_empty_history() {
    let h = parse_history(&vec![]).unwrap();
    assert!(h.events.is_empty());
    assert!(h.skipped.is_empty());
    assert_eq!(h.max_client, 0);
}

#[test]
fn a_history_ends_at_the_first_fatal_line() {
    let lines: Vec<String> = vec![
        "{:type :invoke, :f :write, :value [1 2], :time 5, :process 0, :index 0}",
        "{:type :ok, :f :write, :value [1 2], :time 5, :process 0, :index 1}",
        "{:index 1}",
    ]
    .into_iter()
    .map(String::from)
    .collect();
    assert_eq!(
        parse_history(&lines).unwrap_err(),
        LoadError { line: 1, reason: ParseError::TimeNotIncreasing { time: 5, last: 5 } }
    );
}

#[test]
fn unicode_white_space_is_trimmed() {
    let mut d = OpData::Read { key: 0, val: Some(1), tag: None };
    assert_eq!(d.fill_values("[1 \u{a0}nil\u{2003}\t]"), Ok(()));
    assert_eq!(d, OpData::Read { key: 1, val: None, tag: None });
    assert_eq!(d.fill_values("[1 \u{200b}nil]"), Err(ParseError::BadNumber));
}

#[test]
fn starts_with_a_character() {
    assert!(starts_with(":x", ':'));
    assert!(!starts_with("x:", ':'));
    assert!(!starts_with("", ':'));
    assert!(starts_with("é", 'é'));
}

#[test]
fn split_gives_every_piece() {
    assert_eq!(split("a,b,,c,", ','), vec!["a", "b", "", "c", ""]);
    assert_eq!(split("", ','), vec![""]);
    assert_eq!(split(",", ','), vec!["", ""]);
    assert_eq!(split("no comma", ','), vec!["no comma"]);
    assert_eq!(split(":a 1, :b [2 3]", ','), vec![":a 1", " :b [2 3]"]);
}

#[test]
fn an_index_that_falls_after_a_line_not_from_a_client_is_fatal() {
    let lines: Vec<String> = vec![
        "{:type :invoke, :f :write, :value [1 2], :time 1, :process 0, :index 1}",
        "{:type :info, :f :start, :value nil, :time 2, :process :nemesis, :index 5}",
        "{:type :ok, :f :write, :value [1 2], :time 3, :process 0, :index 3}",
    ]
    .into_iter()
    .map(String::from)
    .collect();
    assert_eq!(
        parse_history(&lines).unwrap_err(),
        LoadError { line: 2, reason: ParseError::IndexNotIncreasing { index: 3, last: 5 } }
    );
}

#[test]
fn a_cas_with_nil_makes_an_event() {
    let lines: Vec<String> = vec![
        "{:type :invoke, :f :cas, :value [1 [nil 3]], :time 1, :process 0, :index 0}",
        "{:type :ok, :f :cas, :value [1 [nil 3]], :time 2, :process 0, :index 1}",
    ]
    .into_iter()
    .map(String::from)
    .collect();
    let h = parse_history(&lines).unwrap();
    let cas = OpData::Rmw { key: 1, rval: None, rtag: None, wval: Some(3), wtag: None };
    assert_eq!(
        h.events,
        vec![Event::new(1, EventType::Invoke, 0, cas), Event::new(2, EventType::Okay, 0, cas)]
    );
    assert!(h.skipped.is_empty());
}

#[test]
fn the_highest_client_is_that_of_the_events() {
    let lines: Vec<String> = vec![
        "{:type :invoke, :f :write, :value [1 2], :time 1, :process 3, :index 0}",
        "{:type :bogus, :time 2, :process 9, :index 1}",
    ]
    .into_iter()
    .map(String::from)
    .collect();
    let h = parse_history(&lines).unwrap();
    assert_eq!(h.max_client, 3);
    assert_eq!(h.events.len(), 1);
    assert_eq!(h.skipped, vec![SkippedLine { line: 1, reason: ParseError::UnknownEventType }]);
}

#[test]
fn same_text_compares_characters() {
    assert!(same_text("", ""));
    assert!(same_text(":ok", ":ok"));
    assert!(!same_text(":ok", ":oK"));
    assert!(!same_text(":ok", ":ok "));
    assert!(!same_text("é", "e"));
    assert!(same_text("né", "né"));
}
