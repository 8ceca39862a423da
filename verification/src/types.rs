//! The data model of a recorded history.

use vstd::prelude::*;

verus! {

/// Client identifier: a dense index into the per-client queues.
pub type ClientId = usize;

/// Register key.
pub type KeyType = u64;

/// Register value.
pub type ValType = u64;

/// Event time. Zero is reserved for "not yet completed".
pub type Timestamp = u64;

/// Tag that identifies one operation in the log.
pub type UniqueTag = u64;

/// Consistency levels, weakest first.
#[derive(Debug, Clone, Copy, PartialEq, Eq, PartialOrd, Ord, Structural)]
pub enum Consistency {
    Weak,
    Eventual,
    Causal,
    Sequential,
    Linearizable,
}

impl Consistency {
    /// Position of the level in the chain, weakest first.
    pub open spec fn rank(self) -> nat {
        match self {
            Consistency::Weak => 0,
            Consistency::Eventual => 1,
            Consistency::Causal => 2,
            Consistency::Sequential => 3,
            Consistency::Linearizable => 4,
        }
    }

    /// The weaker of two levels, as a specification.
    pub open spec fn meet(self, other: Consistency) -> Consistency {
        if self.rank() <= other.rank() {
            self
        } else {
            other
        }
    }

    /// Position of the level in the chain, weakest first.
    pub fn strength(self) -> (r: u8)
        ensures
            r == self.rank(),
    {
        match self {
            Consistency::Weak => 0,
            Consistency::Eventual => 1,
            Consistency::Causal => 2,
            Consistency::Sequential => 3,
            Consistency::Linearizable => 4,
        }
    }

    /// The weaker of two levels.
    pub fn weaker(self, other: Consistency) -> (r: Consistency)
        ensures
            r == self.meet(other),
    {
        if self.strength() <= other.strength() {
            self
        } else {
            other
        }
    }
}

/// Kind of a logged event.
#[derive(Debug, Clone, Copy, PartialEq, Eq, Structural)]
pub enum EventType {
    /// An operation was issued.
    Invoke,
    /// The operation completed and its result is known.
    Okay,
    /// The operation definitely did not take effect.
    Fail,
    /// The outcome of the operation is unknown.
    Error,
}

/// An operation and its data. Optional fields are `None` while the operation
/// is in flight and its results are not known; a read value stays `None` when
/// the read found the register unwritten.
#[allow(inconsistent_fields)]
#[derive(Debug, Clone, Copy, PartialEq, Eq, Structural)]
pub enum OpData {
    Read { key: KeyType, val: Option<ValType>, tag: Option<UniqueTag> },
    Write { key: KeyType, val: ValType, tag: UniqueTag },
    /// A read-modify-write; compare-and-swap is the one such operation that
    /// histories record. `rval` is the value it expected and found, `wval`
    /// the value it left.
    Rmw {
        key: KeyType,
        rval: Option<ValType>,
        rtag: Option<UniqueTag>,
        wval: Option<ValType>,
        wtag: Option<UniqueTag>,
    },
}

impl OpData {
    /// The key that the operation touches.
    pub open spec fn spec_key(self) -> KeyType {
        match self {
            OpData::Read { key, .. } => key,
            OpData::Write { key, .. } => key,
            OpData::Rmw { key, .. } => key,
        }
    }

    /// A completion `self` pairs with the invocation `prev`: same kind of
    /// operation on the same key, and for a write the same value.
    pub open spec fn matches_previous(self, prev: OpData) -> bool {
        match (self, prev) {
            (OpData::Read { key, .. }, OpData::Read { key: k, .. }) => key == k,
            (OpData::Write { key, val, .. }, OpData::Write { key: k, val: v, .. }) => key == k
                && val == v,
            (OpData::Rmw { key, .. }, OpData::Rmw { key: k, .. }) => key == k,
            _ => false,
        }
    }

    /// `self` with its result fields replaced by those that `other` reports.
    /// Only a read's value and a compare-and-swap's two values are results;
    /// where the kinds differ nothing changes.
    pub open spec fn overwritten_by(self, other: OpData) -> OpData {
        match (self, other) {
            (OpData::Read { key, tag, .. }, OpData::Read { val: v, .. }) => OpData::Read {
                key,
                val: v,
                tag,
            },
            (
                OpData::Rmw { key, rtag, wtag, .. },
                OpData::Rmw { rval: rv, wval: wv, .. },
            ) => OpData::Rmw { key, rval: rv, rtag, wval: wv, wtag },
            _ => self,
        }
    }

    /// `self` as it stands at invocation: result fields are not trusted and
    /// are cleared.
    pub open spec fn scrubbed(self) -> OpData {
        match self {
            OpData::Read { key, tag, .. } => OpData::Read { key, val: None, tag },
            OpData::Write { .. } => self,
            OpData::Rmw { key, rtag, wtag, .. } => OpData::Rmw {
                key,
                rval: None,
                rtag,
                wval: None,
                wtag,
            },
        }
    }

    /// Whether this completion forms a matching pair with the invocation
    /// `prev`.
    pub fn match_previous(&self, prev: &OpData) -> (r: bool)
        ensures
            r == self.matches_previous(*prev),
    {
        match (self, prev) {
            (OpData::Read { key, .. }, OpData::Read { key: k, .. }) => *key == *k,
            (OpData::Write { key, val, .. }, OpData::Write { key: k, val: v, .. }) => *key == *k
                && *val == *v,
            (OpData::Rmw { key, .. }, OpData::Rmw { key: k, .. }) => *key == *k,
            _ => false,
        }
    }

    /// Overwrites the result fields with those of `other`.
    pub fn overwrite_by(&mut self, other: OpData)
        ensures
            *final(self) == old(self).overwritten_by(other),
    {
        let updated = match (*self, other) {
            (OpData::Read { key, tag, .. }, OpData::Read { val: v, .. }) => OpData::Read {
                key,
                val: v,
                tag,
            },
            (
                OpData::Rmw { key, rtag, wtag, .. },
                OpData::Rmw { rval: rv, wval: wv, .. },
            ) => OpData::Rmw { key, rval: rv, rtag, wval: wv, wtag },
            (this, _) => this,
        };
        *self = updated;
    }

    /// Clears the result fields, as at invocation.
    pub fn scrub(&mut self)
        ensures
            *final(self) == old(self).scrubbed(),
    {
        let cleared = match *self {
            OpData::Read { key, tag, .. } => OpData::Read { key, val: None, tag },
            OpData::Write { key, val, tag } => OpData::Write { key, val, tag },
            OpData::Rmw { key, rtag, wtag, .. } => OpData::Rmw {
                key,
                rval: None,
                rtag,
                wval: None,
                wtag,
            },
        };
        *self = cleared;
    }
}

/// An operation interval: what was done, when it was invoked and when it
/// completed. `finish` is zero while the operation is in flight.
#[derive(Debug, Clone, Copy, PartialEq, Eq, Structural)]
pub struct OpSpan {
    pub invoke: Timestamp,
    pub finish: Timestamp,
    pub data: OpData,
    pub client: ClientId,
}

impl OpSpan {
    pub fn new(invoke: Timestamp, finish: Timestamp, data: OpData, client: ClientId) -> (r: Self)
        ensures
            r == (OpSpan { invoke, finish, data, client }),
    {
        OpSpan { invoke, finish, data, client }
    }

    /// The key that the operation touches.
    pub fn key(&self) -> (k: KeyType)
        ensures
            k == self.data.spec_key(),
    {
        match self.data {
            OpData::Read { key, .. } => key,
            OpData::Write { key, .. } => key,
            OpData::Rmw { key, .. } => key,
        }
    }

    /// Whether the operation leaves the register as it found it.
    pub fn read_only(&self) -> (r: bool)
        ensures
            r == (self.data is Read),
    {
        match self.data {
            OpData::Read { .. } => true,
            OpData::Write { .. } => false,
            OpData::Rmw { .. } => false,
        }
    }

    /// Whether the operation has completed.
    pub fn terminated(&self) -> (r: bool)
        ensures
            r == (self.finish != 0),
    {
        self.finish != 0
    }
}

/// One entry of the history log.
#[derive(Debug, Clone, Copy, PartialEq, Eq, Structural)]
pub struct Event {
    pub time: Timestamp,
    pub etype: EventType,
    pub client: ClientId,
    pub opdata: OpData,
}

impl Event {
    pub fn new(time: Timestamp, etype: EventType, client: ClientId, opdata: OpData) -> (r: Self)
        ensures
            r == (Event { time, etype, client, opdata }),
    {
        Event { time, etype, client, opdata }
    }
}

/// Why a sequence of events is no legal execution trace.
#[derive(Debug, Clone, Copy, PartialEq, Eq, Structural)]
pub enum HistoryError {
    /// The event's time is not later than that of the event before it.
    TimeNotIncreasing { client: ClientId, time: Timestamp },
    /// The event names a client beyond the highest that was announced.
    UnknownClient { client: ClientId, time: Timestamp },
    /// An invocation while the client's previous operation is in flight.
    InvokeWhileInflight { client: ClientId, time: Timestamp },
    /// A completion while the client has no operation in flight.
    OkayWithoutInflight { client: ClientId, time: Timestamp },
    /// A completion whose operation differs from the one in flight.
    PayloadMismatch { client: ClientId, time: Timestamp, got: OpData, expected: OpData },
    /// A failure while the client has no operation in flight.
    FailWithoutInflight { client: ClientId, time: Timestamp },
}

/// Why a piece of the history text could not be read.
#[allow(inconsistent_fields)]
#[derive(Debug, Clone, Copy, PartialEq, Eq, Structural)]
pub enum ParseError {
    /// The event type is none of `:invoke`, `:ok`, `:fail`, `:info`.
    UnknownEventType,
    /// The operation is none of `:read`, `:write`, `:cas`.
    UnknownOpType,
    /// A number was expected and not found.
    BadNumber,
    /// The value has not the shape that the operation asks for.
    BadValue,
    /// The tags have not the shape that the operation asks for.
    BadTag,
    /// The index is not above that of the line before.
    IndexNotIncreasing { index: i64, last: i64 },
    /// The time is not above that of the line before.
    TimeNotIncreasing { time: Timestamp, last: Timestamp },
    /// A value or a tag stands before the operation it belongs to.
    MissingOpType,
    /// A segment names a field and gives nothing for it.
    BadSegment,
    /// The line lacks one of time, type, process and operation.
    MissingField,
}

} // verus!
