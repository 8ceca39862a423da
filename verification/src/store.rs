//! Reading the history text.
//!
//! A history is a sequence of lines, each a map literal in braces whose
//! fields are separated by commas. A field is a keyword, a space, and what
//! the keyword stands for. The fields read are `:index`, `:time`, `:type`,
//! `:process`, `:f`, `:value` and `:tstag`; others are passed over.

use vstd::prelude::*;
use crate::text::{
    i64_of,
    parse_i64,
    parse_u64,
    same_text,
    split,
    split_at_first,
    split_on,
    split_once,
    starts_with,
    strip_leading,
    strip_trailing,
    texts_of,
    trim,
    trim_end_matches,
    trim_start_matches,
    trimmed,
    u64_of,
};
use crate::types::{
    ClientId,
    Event,
    EventType,
    KeyType,
    OpData,
    ParseError,
    Timestamp,
    UniqueTag,
    ValType,
};

verus! {

/// The two parts of a pair in brackets: what stands before and after the
/// first space, once the brackets at either end are taken away.
pub open spec fn bracketed_pair(s: Seq<char>) -> Option<(Seq<char>, Seq<char>)> {
    split_at_first(strip_trailing(strip_leading(s, '['), ']'), ' ')
}

/// A number, or `nil` for none.
pub open spec fn optional_number(s: Seq<char>) -> Result<Option<u64>, ParseError> {
    if trimmed(s) == "nil"@ {
        Ok(None)
    } else {
        match u64_of(s) {
            Some(v) => Ok(Some(v)),
            None => Err(ParseError::BadNumber),
        }
    }
}

/// A number.
pub open spec fn number(s: Seq<char>) -> Result<u64, ParseError> {
    match u64_of(s) {
        Some(v) => Ok(v),
        None => Err(ParseError::BadNumber),
    }
}

fn inner_pair<'a>(s: &'a str) -> (r: Option<(&'a str, &'a str)>)
    ensures
        match r {
            Some((before, after)) => bracketed_pair(s@) == Some((before@, after@)),
            None => bracketed_pair(s@) is None,
        },
{
    split_once(trim_end_matches(trim_start_matches(s, '['), ']'), ' ')
}

fn read_optional(s: &str) -> (r: Result<Option<u64>, ParseError>)
    ensures
        r == optional_number(s@),
{
    if same_text(trim(s), "nil") {
        Ok(None)
    } else {
        match parse_u64(s) {
            Some(v) => Ok(Some(v)),
            None => Err(ParseError::BadNumber),
        }
    }
}

fn read_number(s: &str) -> (r: Result<u64, ParseError>)
    ensures
        r == number(s@),
{
    match parse_u64(s) {
        Some(v) => Ok(v),
        None => Err(ParseError::BadNumber),
    }
}

impl EventType {
    /// The event type that a keyword names.
    pub open spec fn named(s: Seq<char>) -> Result<EventType, ParseError> {
        if s == ":invoke"@ {
            Ok(EventType::Invoke)
        } else if s == ":ok"@ {
            Ok(EventType::Okay)
        } else if s == ":fail"@ {
            Ok(EventType::Fail)
        } else if s == ":info"@ {
            Ok(EventType::Error)
        } else {
            Err(ParseError::UnknownEventType)
        }
    }

    /// Reads an event type.
    pub fn from_type(s: &str) -> (r: Result<Self, ParseError>)
        ensures
            r == EventType::named(s@),
    {
        if same_text(s, ":invoke") {
            Ok(EventType::Invoke)
        } else if same_text(s, ":ok") {
            Ok(EventType::Okay)
        } else if same_text(s, ":fail") {
            Ok(EventType::Fail)
        } else if same_text(s, ":info") {
            Ok(EventType::Error)
        } else {
            Err(ParseError::UnknownEventType)
        }
    }
}

impl OpData {
    /// The operation that a keyword names, with nothing filled in.
    pub open spec fn named(s: Seq<char>) -> Result<OpData, ParseError> {
        if s == ":read"@ {
            Ok(OpData::Read { key: 0, val: None, tag: None })
        } else if s == ":write"@ {
            Ok(OpData::Write { key: 0, val: 0, tag: 0 })
        } else if s == ":cas"@ {
            Ok(OpData::Rmw { key: 0, rval: None, rtag: None, wval: None, wtag: None })
        } else {
            Err(ParseError::UnknownOpType)
        }
    }

    /// The operation with key and values as `s` gives them: `[k v]` for a
    /// read or a write, where a read's `v` can be `nil`, and `[k [rv wv]]`
    /// for a compare-and-swap, where either value can be `nil`.
    pub open spec fn with_values(self, s: Seq<char>) -> Result<OpData, ParseError> {
        match bracketed_pair(s) {
            None => Err(ParseError::BadValue),
            Some((k, v)) => match number(k) {
                Err(e) => Err(e),
                Ok(key) => match self {
                    OpData::Read { tag, .. } => match optional_number(v) {
                        Err(e) => Err(e),
                        Ok(val) => Ok(OpData::Read { key, val, tag }),
                    },
                    OpData::Write { tag, .. } => match number(v) {
                        Err(e) => Err(e),
                        Ok(val) => Ok(OpData::Write { key, val, tag }),
                    },
                    OpData::Rmw { rtag, wtag, .. } => match bracketed_pair(v) {
                        None => Err(ParseError::BadValue),
                        Some((rv, wv)) => match optional_number(rv) {
                            Err(e) => Err(e),
                            Ok(rval) => match optional_number(wv) {
                                Err(e) => Err(e),
                                Ok(wval) => Ok(OpData::Rmw { key, rval, rtag, wval, wtag }),
                            },
                        },
                    },
                },
            },
        }
    }

    /// The operation with tags as `s` gives them: one tag for a read, which
    /// can be `nil`, one for a write, and `[rt wt]` for a compare-and-swap,
    /// where either can be `nil`.
    pub open spec fn with_tstags(self, s: Seq<char>) -> Result<OpData, ParseError> {
        match self {
            OpData::Read { key, val, .. } => match optional_number(s) {
                Err(e) => Err(e),
                Ok(tag) => Ok(OpData::Read { key, val, tag }),
            },
            OpData::Write { key, val, .. } => match number(s) {
                Err(e) => Err(e),
                Ok(tag) => Ok(OpData::Write { key, val, tag }),
            },
            OpData::Rmw { key, rval, wval, .. } => match bracketed_pair(s) {
                None => Err(ParseError::BadTag),
                Some((rt, wt)) => match optional_number(rt) {
                    Err(e) => Err(e),
                    Ok(rtag) => match optional_number(wt) {
                        Err(e) => Err(e),
                        Ok(wtag) => Ok(OpData::Rmw { key, rval, rtag, wval, wtag }),
                    },
                },
            },
        }
    }

    /// Reads an operation's name.
    pub fn from_type(s: &str) -> (r: Result<Self, ParseError>)
        ensures
            r == OpData::named(s@),
    {
        if same_text(s, ":read") {
            Ok(OpData::Read { key: 0, val: None, tag: None })
        } else if same_text(s, ":write") {
            Ok(OpData::Write { key: 0, val: 0, tag: 0 })
        } else if same_text(s, ":cas") {
            Ok(OpData::Rmw { key: 0, rval: None, rtag: None, wval: None, wtag: None })
        } else {
            Err(ParseError::UnknownOpType)
        }
    }

    /// Reads key and values into the operation. Where `s` cannot be read the
    /// operation stays as it is.
    pub fn fill_values(&mut self, s: &str) -> (r: Result<(), ParseError>)
        ensures
            match old(self).with_values(s@) {
                Ok(filled) => r is Ok && *final(self) == filled,
                Err(e) => r == Err::<(), ParseError>(e) && *final(self) == *old(self),
            },
    {
        let (k, v) = match inner_pair(s) {
            Some(pair) => pair,
            None => {
                return Err(ParseError::BadValue);
            },
        };
        let key: KeyType = match read_number(k) {
            Ok(key) => key,
            Err(e) => {
                return Err(e);
            },
        };
        let filled = match *self {
            OpData::Read { tag, .. } => {
                match read_optional(v) {
                    Ok(val) => OpData::Read { key, val, tag },
                    Err(e) => {
                        return Err(e);
                    },
                }
            },
            OpData::Write { tag, .. } => {
                match read_number(v) {
                    Ok(val) => OpData::Write { key, val, tag },
                    Err(e) => {
                        return Err(e);
                    },
                }
            },
            OpData::Rmw { rtag, wtag, .. } => {
                let (rv, wv) = match inner_pair(v) {
                    Some(pair) => pair,
                    None => {
                        return Err(ParseError::BadValue);
                    },
                };
                let rval: Option<ValType> = match read_optional(rv) {
                    Ok(n) => n,
                    Err(e) => {
                        return Err(e);
                    },
                };
                let wval: Option<ValType> = match read_optional(wv) {
                    Ok(n) => n,
                    Err(e) => {
                        return Err(e);
                    },
                };
                OpData::Rmw { key, rval, rtag, wval, wtag }
            },
        };
        *self = filled;
        Ok(())
    }

    /// Reads the tags into the operation. Where `s` cannot be read the
    /// operation stays as it is.
    pub fn fill_tstags(&mut self, s: &str) -> (r: Result<(), ParseError>)
        ensures
            match old(self).with_tstags(s@) {
                Ok(filled) => r is Ok && *final(self) == filled,
                Err(e) => r == Err::<(), ParseError>(e) && *final(self) == *old(self),
            },
    {
        let filled = match *self {
            OpData::Read { key, val, .. } => {
                match read_optional(s) {
                    Ok(tag) => OpData::Read { key, val, tag },
                    Err(e) => {
                        return Err(e);
                    },
                }
            },
            OpData::Write { key, val, .. } => {
                match read_number(s) {
                    Ok(tag) => OpData::Write { key, val, tag },
                    Err(e) => {
                        return Err(e);
                    },
                }
            },
            OpData::Rmw { key, rval, wval, .. } => {
                let (rt, wt) = match inner_pair(s) {
                    Some(pair) => pair,
                    None => {
                        return Err(ParseError::BadTag);
                    },
                };
                let rtag: Option<UniqueTag> = match read_optional(rt) {
                    Ok(t) => t,
                    Err(e) => {
                        return Err(e);
                    },
                };
                let wtag: Option<UniqueTag> = match read_optional(wt) {
                    Ok(t) => t,
                    Err(e) => {
                        return Err(e);
                    },
                };
                OpData::Rmw { key, rval, rtag, wval, wtag }
            },
        };
        *self = filled;
        Ok(())
    }
}

/// What is known while a line is read: the highest index, the latest time
/// and the highest client of the history so far, and the fields of the line
/// found so far.
pub struct Fields {
    pub last_index: i64,
    pub last_time: Timestamp,
    pub max_client: ClientId,
    pub time: Option<Timestamp>,
    pub etype: Option<EventType>,
    pub client: Option<ClientId>,
    pub op: Option<OpData>,
}

/// The client that `s` names: a number that fits the machine.
pub open spec fn client_of(s: Seq<char>) -> Result<ClientId, ParseError> {
    match u64_of(s) {
        Some(v) => if v <= usize::MAX {
            Ok(v as usize)
        } else {
            Err(ParseError::BadNumber)
        },
        None => Err(ParseError::BadNumber),
    }
}

/// What one field of a line does to what is known: the fields afterwards,
/// `None` where the field shows that the line is not from a client, or the
/// reason why the field cannot be read.
///
/// An index and a time must be above the last. A process that is a keyword
/// is no client. A value and a tag need the operation named before them.
/// Fields of other names change nothing.
pub open spec fn segment(f: Fields, field: Seq<char>, stuff: Seq<char>) -> Result<
    Option<Fields>,
    ParseError,
> {
    if field == ":index"@ {
        match i64_of(stuff) {
            None => Err(ParseError::BadNumber),
            Some(index) => if index <= f.last_index {
                Err(ParseError::IndexNotIncreasing { index, last: f.last_index })
            } else {
                Ok(Some(Fields { last_index: index, ..f }))
            },
        }
    } else if field == ":time"@ {
        match u64_of(stuff) {
            None => Err(ParseError::BadNumber),
            Some(time) => if time <= f.last_time {
                Err(ParseError::TimeNotIncreasing { time, last: f.last_time })
            } else {
                Ok(Some(Fields { last_time: time, time: Some(time), ..f }))
            },
        }
    } else if field == ":type"@ {
        match EventType::named(stuff) {
            Err(e) => Err(e),
            Ok(etype) => Ok(Some(Fields { etype: Some(etype), ..f })),
        }
    } else if field == ":process"@ {
        if trimmed(stuff).len() > 0 && trimmed(stuff)[0] == ':' {
            Ok(None)
        } else {
            match client_of(stuff) {
                Err(e) => Err(e),
                Ok(client) => Ok(
                    Some(
                        Fields {
                            max_client: if client > f.max_client {
                                client
                            } else {
                                f.max_client
                            },
                            client: Some(client),
                            ..f
                        },
                    ),
                ),
            }
        }
    } else if field == ":f"@ {
        match OpData::named(stuff) {
            Err(e) => Err(e),
            Ok(op) => Ok(Some(Fields { op: Some(op), ..f })),
        }
    } else if field == ":value"@ {
        match f.op {
            None => Err(ParseError::MissingOpType),
            Some(op) => match op.with_values(stuff) {
                Err(e) => Err(e),
                Ok(filled) => Ok(Some(Fields { op: Some(filled), ..f })),
            },
        }
    } else if field == ":tstag"@ {
        match f.op {
            None => Err(ParseError::MissingOpType),
            Some(op) => match op.with_tstags(stuff) {
                Err(e) => Err(e),
                Ok(filled) => Ok(Some(Fields { op: Some(filled), ..f })),
            },
        }
    } else {
        Ok(Some(f))
    }
}

/// Reads one field of a line into what is known of the line. The answer is
/// `false` where the field shows that the line is not from a client. Unless
/// the answer is `true`, nothing changes.
pub fn parse_segment(
    field: &str,
    stuff: &str,
    last_index: &mut i64,
    last_time: &mut Timestamp,
    max_client: &mut ClientId,
    time: &mut Option<Timestamp>,
    etype: &mut Option<EventType>,
    client: &mut Option<ClientId>,
    op: &mut Option<OpData>,
) -> (r: Result<bool, ParseError>)
    ensures
        ({
            let before = Fields {
                last_index: *old(last_index),
                last_time: *old(last_time),
                max_client: *old(max_client),
                time: *old(time),
                etype: *old(etype),
                client: *old(client),
                op: *old(op),
            };
            let after = Fields {
                last_index: *final(last_index),
                last_time: *final(last_time),
                max_client: *final(max_client),
                time: *final(time),
                etype: *final(etype),
                client: *final(client),
                op: *final(op),
            };
            match segment(before, field@, stuff@) {
                Ok(Some(f)) => r == Ok::<bool, ParseError>(true) && after == f,
                Ok(None) => r == Ok::<bool, ParseError>(false) && after == before,
                Err(e) => r == Err::<bool, ParseError>(e) && after == before,
            }
        }),
{
    if same_text(field, ":index") {
        match parse_i64(stuff) {
            None => {
                return Err(ParseError::BadNumber);
            },
            Some(this_index) => {
                if this_index <= *last_index {
                    return Err(
                        ParseError::IndexNotIncreasing { index: this_index, last: *last_index },
                    );
                }
                *last_index = this_index;
            },
        }
    } else if same_text(field, ":time") {
        match parse_u64(stuff) {
            None => {
                return Err(ParseError::BadNumber);
            },
            Some(this_time) => {
                if this_time <= *last_time {
                    return Err(
                        ParseError::TimeNotIncreasing { time: this_time, last: *last_time },
                    );
                }
                *last_time = this_time;
                *time = Some(this_time);
            },
        }
    } else if same_text(field, ":type") {
        match EventType::from_type(stuff) {
            Err(e) => {
                return Err(e);
            },
            Ok(t) => {
                *etype = Some(t);
            },
        }
    } else if same_text(field, ":process") {
        if starts_with(trim(stuff), ':') {
            return Ok(false);
        }
        match parse_u64(stuff) {
            None => {
                return Err(ParseError::BadNumber);
            },
            Some(v) => {
                if v > usize::MAX as u64 {
                    return Err(ParseError::BadNumber);
                }
                let this_client = v as usize;
                if this_client > *max_client {
                    *max_client = this_client;
                }
                *client = Some(this_client);
            },
        }
    } else if same_text(field, ":f") {
        match OpData::from_type(stuff) {
            Err(e) => {
                return Err(e);
            },
            Ok(d) => {
                *op = Some(d);
            },
        }
    } else if same_text(field, ":value") {
        match *op {
            None => {
                return Err(ParseError::MissingOpType);
            },
            Some(d) => {
                let mut d = d;
                match d.fill_values(stuff) {
                    Err(e) => {
                        return Err(e);
                    },
                    Ok(_) => {
                        *op = Some(d);
                    },
                }
            },
        }
    } else if same_text(field, ":tstag") {
        match *op {
            None => {
                return Err(ParseError::MissingOpType);
            },
            Some(d) => {
                let mut d = d;
                match d.fill_tstags(stuff) {
                    Err(e) => {
                        return Err(e);
                    },
                    Ok(_) => {
                        *op = Some(d);
                    },
                }
            },
        }
    }
    Ok(true)
}

/// How the reading of a line's fields ended.
pub enum Stop {
    /// Every field was read.
    Done,
    /// A field showed that the line is not from a client.
    NotClient,
    /// A field could not be read.
    Failed(ParseError),
}

/// Reads the pieces of a line one after the other, up to the first that
/// ends the reading. A piece is trimmed; one that does not start with a colon
/// is passed over; one that does is a field's name, a space, and the rest.
pub open spec fn read_segments(f: Fields, pieces: Seq<Seq<char>>) -> (Fields, Stop)
    decreases pieces.len(),
{
    if pieces.len() == 0 {
        (f, Stop::Done)
    } else {
        let piece = trimmed(pieces[0]);
        if !(piece.len() > 0 && piece[0] == ':') {
            read_segments(f, pieces.drop_first())
        } else {
            match split_at_first(piece, ' ') {
                None => (f, Stop::Failed(ParseError::BadSegment)),
                Some((field, stuff)) => match segment(f, field, stuff) {
                    Ok(Some(next)) => read_segments(next, pieces.drop_first()),
                    Ok(None) => (f, Stop::NotClient),
                    Err(e) => (f, Stop::Failed(e)),
                },
            }
        }
    }
}

/// The piece gives a keyword, not a number, as the line's process.
pub open spec fn names_no_client(piece: Seq<char>) -> bool {
    let p = trimmed(piece);
    &&& p.len() > 0
    &&& p[0] == ':'
    &&& split_at_first(p, ' ') matches Some((field, stuff))
    &&& field == ":process"@
    &&& trimmed(stuff).len() > 0
    &&& trimmed(stuff)[0] == ':'
}

/// The line is not from a client: one of its pieces gives a keyword as its
/// process.
pub open spec fn not_from_client(pieces: Seq<Seq<char>>) -> bool {
    exists|i: int| 0 <= i < pieces.len() && names_no_client(#[trigger] pieces[i])
}

fn is_outside(pieces: &Vec<&str>) -> (r: bool)
    ensures
        r == not_from_client(texts_of(pieces@)),
{
    let ghost all = texts_of(pieces@);
    let mut i: usize = 0;
    while i < pieces.len()
        invariant
            i <= pieces@.len(),
            all == texts_of(pieces@),
            forall|j: int| 0 <= j < i ==> !names_no_client(#[trigger] all[j]),
        decreases pieces.len() - i,
    {
        let piece = trim(pieces[i]);
        if starts_with(piece, ':') {
            if let Some((field, stuff)) = split_once(piece, ' ') {
                if same_text(field, ":process") && starts_with(trim(stuff), ':') {
                    proof {
                        assert(names_no_client(all[i as int]));
                    }
                    return true;
                }
            }
        }
        i = i + 1;
    }
    false
}

/// What a line of the history comes to.
#[derive(Debug, Clone, Copy, PartialEq, Eq, Structural)]
pub enum LineResult {
    /// Nothing stands between the braces.
    Blank,
    /// The line is not from a client.
    NotClient,
    /// A field of the line could not be read; the line is passed over.
    Skipped(ParseError),
    /// The event that the line records.
    Parsed(Event),
    /// The history is no legal trace: an index does not increase, the time
    /// of a line from a client does not, or such a line lacks a field.
    Fatal(ParseError),
}

/// What persists from line to line.
pub struct Cursor {
    pub last_index: i64,
    pub last_time: Timestamp,
    pub max_client: ClientId,
}

impl Cursor {
    /// Before the first line.
    pub open spec fn start() -> Cursor {
        Cursor { last_index: -1i64, last_time: 0, max_client: 0 }
    }
}

/// Whether the reason ends the reading of the whole history.
pub open spec fn is_fatal(e: ParseError) -> bool {
    e is IndexNotIncreasing || e is TimeNotIncreasing
}

/// The index that a piece of a line gives, if it gives one.
pub open spec fn index_given(piece: Seq<char>) -> Option<i64> {
    let p = trimmed(piece);
    if p.len() > 0 && p[0] == ':' {
        match split_at_first(p, ' ') {
            Some((field, stuff)) => if field == ":index"@ {
                i64_of(stuff)
            } else {
                None
            },
            None => None,
        }
    } else {
        None
    }
}

/// Checks the indices that the pieces of a line give, one after the other:
/// each must be above the one before it, the first above `last`. The answer
/// is the last index, or the first that is not above.
pub open spec fn read_indices(last: i64, pieces: Seq<Seq<char>>) -> Result<i64, ParseError>
    decreases pieces.len(),
{
    if pieces.len() == 0 {
        Ok(last)
    } else {
        match index_given(pieces[0]) {
            Some(index) => if index <= last {
                Err(ParseError::IndexNotIncreasing { index, last })
            } else {
                read_indices(index, pieces.drop_first())
            },
            None => read_indices(last, pieces.drop_first()),
        }
    }
}

fn check_indices(pieces: &Vec<&str>, last: i64) -> (r: Result<i64, ParseError>)
    ensures
        r == read_indices(last, texts_of(pieces@)),
{
    let ghost all = texts_of(pieces@);
    let mut current = last;
    proof {
        assert(all.skip(0) =~= all);
    }
    let mut i: usize = 0;
    while i < pieces.len()
        invariant
            i <= pieces@.len(),
            all == texts_of(pieces@),
            read_indices(last, all) == read_indices(current, all.skip(i as int)),
        decreases pieces.len() - i,
    {
        proof {
            assert(all.skip(i as int)[0] == pieces@[i as int]@);
            assert(all.skip(i as int).drop_first() =~= all.skip(i + 1));
        }
        let piece = trim(pieces[i]);
        if starts_with(piece, ':') {
            if let Some((field, stuff)) = split_once(piece, ' ') {
                if same_text(field, ":index") {
                    if let Some(index) = parse_i64(stuff) {
                        if index <= current {
                            return Err(ParseError::IndexNotIncreasing { index, last: current });
                        }
                        current = index;
                    }
                }
            }
        }
        i = i + 1;
    }
    Ok(current)
}

/// What a line comes to, and what persists after it.
///
/// The index of every line that gives one is checked and persists, whatever
/// the line comes to. A line that is not from a client is passed over
/// whatever else it holds. Each other line starts with no field known, and
/// ends at the first field that cannot be read. Time and highest client
/// persist from the lines that record an event, and from no others.
pub open spec fn read_line(cur: Cursor, text: Seq<char>) -> (Cursor, LineResult) {
    let body = strip_trailing(strip_leading(text, '{'), '}');
    let pieces = split_on(body, ',');
    if body.len() == 0 {
        (cur, LineResult::Blank)
    } else {
        match read_indices(cur.last_index, pieces) {
            Err(e) => (cur, LineResult::Fatal(e)),
            Ok(index) => {
                let kept = Cursor { last_index: index, ..cur };
                let fresh = Fields {
                    last_index: cur.last_index,
                    last_time: cur.last_time,
                    max_client: cur.max_client,
                    time: None,
                    etype: None,
                    client: None,
                    op: None,
                };
                let (f, stop) = read_segments(fresh, pieces);
                if not_from_client(pieces) {
                    (kept, LineResult::NotClient)
                } else {
                    match stop {
                        Stop::NotClient => (kept, LineResult::NotClient),
                        Stop::Failed(e) => if is_fatal(e) {
                            (kept, LineResult::Fatal(e))
                        } else {
                            (kept, LineResult::Skipped(e))
                        },
                        Stop::Done => if f.time is Some && f.etype is Some && f.client is Some
                            && f.op is Some {
                            (
                                Cursor {
                                    last_index: index,
                                    last_time: f.time->0,
                                    max_client: if f.client->0 > cur.max_client {
                                        f.client->0
                                    } else {
                                        cur.max_client
                                    },
                                },
                                LineResult::Parsed(
                                    Event {
                                        time: f.time->0,
                                        etype: f.etype->0,
                                        client: f.client->0,
                                        opdata: f.op->0,
                                    },
                                ),
                            )
                        } else {
                            (kept, LineResult::Fatal(ParseError::MissingField))
                        },
                    }
                }
            },
        }
    }
}

/// Reads one line of the history.
pub fn parse_line(
    line: &str,
    last_index: &mut i64,
    last_time: &mut Timestamp,
    max_client: &mut ClientId,
) -> (r: LineResult)
    ensures
        ({
            let before = Cursor {
                last_index: *old(last_index),
                last_time: *old(last_time),
                max_client: *old(max_client),
            };
            let after = Cursor {
                last_index: *final(last_index),
                last_time: *final(last_time),
                max_client: *final(max_client),
            };
            (after, r) == read_line(before, line@)
        }),
{
    let body = trim_end_matches(trim_start_matches(line, '{'), '}');
    if body.is_empty() {
        return LineResult::Blank;
    }
    let pieces = split(body, ',');
    let ghost all = split_on(body@, ',');
    proof {
        assert(all == texts_of(pieces@));
    }
    let mut line_index: i64 = *last_index;
    let mut line_time: Timestamp = *last_time;
    let mut line_client: ClientId = *max_client;
    match check_indices(&pieces, *last_index) {
        Err(e) => {
            return LineResult::Fatal(e);
        },
        Ok(index) => {
            *last_index = index;
        },
    }
    if is_outside(&pieces) {
        return LineResult::NotClient;
    }
    let mut time: Option<Timestamp> = None;
    let mut etype: Option<EventType> = None;
    let mut client: Option<ClientId> = None;
    let mut op: Option<OpData> = None;
    let ghost fresh = Fields {
        last_index: line_index,
        last_time: line_time,
        max_client: line_client,
        time: None,
        etype: None,
        client: None,
        op: None,
    };
    proof {
        assert(all.skip(0) =~= all);
    }
    let mut i: usize = 0;
    while i < pieces.len()
        invariant
            i <= pieces@.len(),
            pieces@.len() == all.len(),
            forall|j: int| 0 <= j < pieces@.len() ==> (#[trigger] pieces@[j])@ == all[j],
            body@ == strip_trailing(strip_leading(line@, '{'), '}'),
            body@.len() > 0,
            all == split_on(body@, ','),
            !not_from_client(all),
            read_indices(*old(last_index), all) == Ok::<i64, ParseError>(*last_index),
            *last_time == *old(last_time),
            *max_client == *old(max_client),
            fresh == (Fields {
                last_index: *old(last_index),
                last_time: *old(last_time),
                max_client: *old(max_client),
                time: None,
                etype: None,
                client: None,
                op: None,
            }),
            read_segments(fresh, all) == read_segments(
                Fields {
                    last_index: line_index,
                    last_time: line_time,
                    max_client: line_client,
                    time,
                    etype,
                    client,
                    op,
                },
                all.skip(i as int),
            ),
        decreases pieces.len() - i,
    {
        let piece = trim(pieces[i]);
        proof {
            assert(all.skip(i as int)[0] == all[i as int]);
            assert(all.skip(i as int).drop_first() =~= all.skip(i + 1));
        }
        if starts_with(piece, ':') {
            match split_once(piece, ' ') {
                None => {
                    return LineResult::Skipped(ParseError::BadSegment);
                },
                Some((field, stuff)) => {
                    match parse_segment(
                        field,
                        stuff,
                        &mut line_index,
                        &mut line_time,
                        &mut line_client,
                        &mut time,
                        &mut etype,
                        &mut client,
                        &mut op,
                    ) {
                        Ok(true) => {},
                        Ok(false) => {
                            return LineResult::NotClient;
                        },
                        Err(e) => {
                            return match e {
                                ParseError::IndexNotIncreasing { .. } => LineResult::Fatal(e),
                                ParseError::TimeNotIncreasing { .. } => LineResult::Fatal(e),
                                _ => LineResult::Skipped(e),
                            };
                        },
                    }
                },
            }
        }
        i = i + 1;
    }
    match (time, etype, client, op) {
        (Some(time), Some(etype), Some(client), Some(op)) => {
            *last_time = time;
            if client > *max_client {
                *max_client = client;
            }
            LineResult::Parsed(Event::new(time, etype, client, op))
        },
        _ => LineResult::Fatal(ParseError::MissingField),
    }
}

/// A line that was passed over, and why.
#[derive(Debug, Clone, Copy, PartialEq, Eq, Structural)]
pub struct SkippedLine {
    /// The position of the line, counted from zero.
    pub line: usize,
    pub reason: ParseError,
}

/// Why a history could not be read: the line at which the reading ended,
/// counted from zero, and what is wrong with it.
#[derive(Debug, Clone, Copy, PartialEq, Eq, Structural)]
pub struct LoadError {
    pub line: usize,
    pub reason: ParseError,
}

/// What the reading of a history has arrived at.
pub struct Load {
    pub cursor: Cursor,
    /// The events read, in the order of their lines.
    pub events: Seq<Event>,
    /// The lines passed over because a field could not be read.
    pub skipped: Seq<SkippedLine>,
}

/// Reads the lines of a history one after the other: the events of the
/// lines that record one, and the lines that were passed over, or the first
/// line that shows the history to be no legal trace.
pub open spec fn load(lines: Seq<Seq<char>>) -> Result<Load, LoadError>
    decreases lines.len(),
{
    if lines.len() == 0 {
        Ok(Load { cursor: Cursor::start(), events: Seq::empty(), skipped: Seq::empty() })
    } else {
        match load(lines.drop_last()) {
            Err(e) => Err(e),
            Ok(sofar) => {
                let (cursor, result) = read_line(sofar.cursor, lines.last());
                let at = (lines.len() - 1) as usize;
                match result {
                    LineResult::Fatal(reason) => Err(LoadError { line: at, reason }),
                    LineResult::Parsed(e) => Ok(
                        Load { cursor, events: sofar.events.push(e), ..sofar },
                    ),
                    LineResult::Skipped(reason) => Ok(
                        Load {
                            cursor,
                            skipped: sofar.skipped.push(SkippedLine { line: at, reason }),
                            ..sofar
                        },
                    ),
                    _ => Ok(Load { cursor, ..sofar }),
                }
            },
        }
    }
}

/// An error on the first lines is the error on all of them.
pub proof fn lemma_load_error(lines: Seq<Seq<char>>, upto: int)
    requires
        0 <= upto <= lines.len(),
        load(lines.take(upto)) is Err,
    ensures
        load(lines) == load(lines.take(upto)),
    decreases lines.len() - upto,
{
    if upto < lines.len() {
        assert(lines.take(upto + 1).drop_last() =~= lines.take(upto));
        lemma_load_error(lines, upto + 1);
    } else {
        assert(lines.take(upto) =~= lines);
    }
}

/// The fields keep to a time: the latest time is no earlier, and a time
/// that the line gives is later.
pub open spec fn after_time(f: Fields, base: Timestamp) -> bool {
    f.last_time >= base && (f.time is Some ==> f.time->0 > base)
}

proof fn lemma_segments_time(f: Fields, pieces: Seq<Seq<char>>, base: Timestamp)
    requires
        after_time(f, base),
    ensures
        after_time(read_segments(f, pieces).0, base),
    decreases pieces.len(),
{
    if pieces.len() > 0 {
        let piece = trimmed(pieces[0]);
        if !(piece.len() > 0 && piece[0] == ':') {
            lemma_segments_time(f, pieces.drop_first(), base);
        } else {
            match split_at_first(piece, ' ') {
                None => {},
                Some((field, stuff)) => match segment(f, field, stuff) {
                    Ok(Some(next)) => {
                        lemma_segments_time(next, pieces.drop_first(), base);
                    },
                    _ => {},
                },
            }
        }
    }
}

/// The events that were read fit a timeline: their times increase from
/// above zero up to the latest time, and none names a client above the
/// highest.
pub open spec fn events_fit(end: Load) -> bool {
    &&& forall|i: int|
        0 <= i < end.events.len() ==> (#[trigger] end.events[i]).client <= end.cursor.max_client
            && 0 < end.events[i].time <= end.cursor.last_time
    &&& forall|i: int, j: int|
        0 <= i < j < end.events.len() ==> (#[trigger] end.events[i]).time < (
        #[trigger] end.events[j]).time
}

/// Whatever the lines, the events read from them fit a timeline.
pub proof fn lemma_load_fits(lines: Seq<Seq<char>>)
    requires
        load(lines) is Ok,
    ensures
        events_fit(load(lines)->Ok_0),
    decreases lines.len(),
{
    if lines.len() > 0 {
        lemma_load_fits(lines.drop_last());
        let sofar = load(lines.drop_last())->Ok_0;
        let cur = sofar.cursor;
        let end = load(lines)->Ok_0;
        let body = strip_trailing(strip_leading(lines.last(), '{'), '}');
        let fresh = Fields {
            last_index: cur.last_index,
            last_time: cur.last_time,
            max_client: cur.max_client,
            time: None,
            etype: None,
            client: None,
            op: None,
        };
        lemma_segments_time(fresh, split_on(body, ','), cur.last_time);
        assert forall|i: int| 0 <= i < end.events.len() implies (#[trigger] end.events[i]).client
            <= end.cursor.max_client && 0 < end.events[i].time <= end.cursor.last_time by {
            if i < sofar.events.len() {
                assert(end.events[i] == sofar.events[i]);
            }
        }
        assert forall|i: int, j: int| 0 <= i < j < end.events.len() implies (
        #[trigger] end.events[i]).time < (#[trigger] end.events[j]).time by {
            assert(end.events[i] == sofar.events[i]);
            if j < sofar.events.len() {
                assert(end.events[j] == sofar.events[j]);
            }
        }
    }
}

/// The text of each line.
pub open spec fn texts(lines: Seq<String>) -> Seq<Seq<char>> {
    Seq::new(lines.len(), |i: int| lines[i]@)
}

/// A history as it was read.
#[derive(Debug, Clone)]
pub struct History {
    /// The events, in the order of their lines.
    pub events: Vec<Event>,
    /// The highest client that a line names.
    pub max_client: ClientId,
    /// The lines passed over because a field could not be read.
    pub skipped: Vec<SkippedLine>,
}

/// Reads a history from its lines. The events that it gives fit a timeline
/// of the clients up to the highest.
pub fn parse_history(lines: &Vec<String>) -> (r: Result<History, LoadError>)
    ensures
        match load(texts(lines@)) {
            Ok(end) => r matches Ok(h) && h.events@ == end.events && h.max_client
                == end.cursor.max_client && h.skipped@ == end.skipped && events_fit(end),
            Err(e) => r matches Err(x) && x == e,
        },
{
    let ghost all = texts(lines@);
    let mut events: Vec<Event> = Vec::new();
    let mut skipped: Vec<SkippedLine> = Vec::new();
    let mut last_index: i64 = -1;
    let mut last_time: Timestamp = 0;
    let mut max_client: ClientId = 0;
    proof {
        assert(all.take(0) =~= Seq::<Seq<char>>::empty());
    }
    let mut i: usize = 0;
    while i < lines.len()
        invariant
            i <= lines@.len(),
            all == texts(lines@),
            load(all.take(i as int)) == Ok::<Load, LoadError>(
                Load {
                    cursor: Cursor { last_index, last_time, max_client },
                    events: events@,
                    skipped: skipped@,
                },
            ),
        decreases lines.len() - i,
    {
        proof {
            assert(all.take(i + 1).drop_last() =~= all.take(i as int));
            assert(all.take(i + 1).last() == lines@[i as int]@);
        }
        let result = parse_line(lines[i].as_str(), &mut last_index, &mut last_time, &mut max_client);
        match result {
            LineResult::Fatal(reason) => {
                proof {
                    lemma_load_error(all, i + 1);
                }
                return Err(LoadError { line: i, reason });
            },
            LineResult::Parsed(e) => {
                events.push(e);
            },
            LineResult::Skipped(reason) => {
                skipped.push(SkippedLine { line: i, reason });
            },
            _ => {},
        }
        i = i + 1;
    }
    proof {
        assert(all.take(i as int) =~= all);
        lemma_load_fits(all);
    }
    Ok(History { events, max_client, skipped })
}

} // verus!
