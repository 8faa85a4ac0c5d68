//! Span-level value types: attributes, events, status and the span itself.
//!
//! Each executable type has a ghost view (the `..V` structs) over `Seq`,
//! plain integers and `bool`; every contract in the crate speaks of those
//! views. Attribute values carry floating-point numbers as their IEEE-754
//! bit pattern so the core itself stays free of float arithmetic; a
//! transport layer converts with `f64::to_bits` / `f64::from_bits`.

use vstd::prelude::*;

use crate::ids::{SpanId, Timestamp, TraceId};

verus! {

/// A value attached to a span or span event under a string key.
#[derive(Debug)]
pub enum AttributeValue {
    /// Free-form text.
    Text(String),
    /// 64-bit signed integer.
    Int(i64),
    /// Double-precision float, carried as its IEEE-754 bit pattern.
    Float { bits: u64 },
    /// Boolean flag.
    Bool(bool),
}

/// Ghost view of [`AttributeValue`].
pub enum AttrValueV {
    Text(Seq<char>),
    Int(i64),
    Float(u64),
    Bool(bool),
}

impl View for AttributeValue {
    type V = AttrValueV;

    open spec fn view(&self) -> AttrValueV {
        match self {
            AttributeValue::Text(s) => AttrValueV::Text(s@),
            AttributeValue::Int(i) => AttrValueV::Int(*i),
            AttributeValue::Float { bits } => AttrValueV::Float(*bits),
            AttributeValue::Bool(b) => AttrValueV::Bool(*b),
        }
    }
}

impl Clone for AttributeValue {
    fn clone(&self) -> (res: Self)
        ensures
            res == *self,
    {
        match self {
            AttributeValue::Text(s) => AttributeValue::Text(s.clone()),
            AttributeValue::Int(i) => AttributeValue::Int(*i),
            AttributeValue::Float { bits } => AttributeValue::Float { bits: *bits },
            AttributeValue::Bool(b) => AttributeValue::Bool(*b),
        }
    }
}

/// One key/value pair of a span's or event's attribute list.
///
/// A list of attributes keeps its pairs in the order they were written;
/// producers are expected to use each key once. The core carries the list
/// as an opaque value: a re-ingested span replaces its list whole.
#[derive(Debug)]
pub struct Attr {
    pub key: String,
    pub value: AttributeValue,
}

/// Ghost view of [`Attr`].
pub struct AttrV {
    pub key: Seq<char>,
    pub value: AttrValueV,
}

impl View for Attr {
    type V = AttrV;

    open spec fn view(&self) -> AttrV {
        AttrV { key: self.key@, value: self.value@ }
    }
}

impl Clone for Attr {
    fn clone(&self) -> (res: Self)
        ensures
            res == *self,
    {
        Attr { key: self.key.clone(), value: self.value.clone() }
    }
}

/// A point-in-time annotation within a span, immutable once attached.
#[derive(Debug)]
pub struct SpanEvent {
    pub name: String,
    pub timestamp: Timestamp,
    pub attributes: Vec<Attr>,
}

/// Ghost view of [`SpanEvent`].
pub struct EventV {
    pub name: Seq<char>,
    pub timestamp: u64,
    pub attributes: Seq<AttrV>,
}

impl View for SpanEvent {
    type V = EventV;

    open spec fn view(&self) -> EventV {
        EventV {
            name: self.name@,
            timestamp: self.timestamp.0,
            attributes: self.attributes@.map_values(|a: Attr| a@),
        }
    }
}

impl Clone for SpanEvent {
    fn clone(&self) -> (res: Self)
        ensures
            res@ == self@,
    {
        let res = SpanEvent {
            name: self.name.clone(),
            timestamp: self.timestamp,
            attributes: self.attributes.clone(),
        };
        proof {
            assert(res.attributes@ =~= self.attributes@);
            assert(res@.attributes =~= self@.attributes);
        }
        res
    }
}

/// Completion status of a span; final once set.
#[derive(Debug)]
pub enum SpanStatus {
    /// The operation finished without error.
    Okay,
    /// The operation failed with the given message.
    Error { message: String },
}

/// Ghost view of [`SpanStatus`].
pub enum StatusV {
    Okay,
    Error(Seq<char>),
}

impl SpanStatus {
    /// Whether this status reports a failure.
    pub fn is_error(&self) -> (r: bool)
        ensures
            r == self@ is Error,
    {
        match self {
            SpanStatus::Okay => false,
            SpanStatus::Error { .. } => true,
        }
    }
}

impl View for SpanStatus {
    type V = StatusV;

    open spec fn view(&self) -> StatusV {
        match self {
            SpanStatus::Okay => StatusV::Okay,
            SpanStatus::Error { message } => StatusV::Error(message@),
        }
    }
}

impl Clone for SpanStatus {
    fn clone(&self) -> (res: Self)
        ensures
            res == *self,
    {
        match self {
            SpanStatus::Okay => SpanStatus::Okay,
            SpanStatus::Error { message } => SpanStatus::Error { message: message.clone() },
        }
    }
}

/// One timed operation within a trace.
///
/// A present `parent_span_id` is meant to name another span of the same
/// trace, but that span may not have arrived yet: out-of-order ingestion is
/// normal, never an error. An absent `end_time` means the span is still
/// open.
#[derive(Debug)]
pub struct Span {
    pub trace_id: TraceId,
    pub span_id: SpanId,
    pub parent_span_id: Option<SpanId>,
    pub name: String,
    pub start_time: Timestamp,
    pub end_time: Option<Timestamp>,
    pub attributes: Vec<Attr>,
    pub events: Vec<SpanEvent>,
    pub status: SpanStatus,
    pub service_name: String,
}

/// Ghost view of [`Span`].
pub struct SpanV {
    pub trace_id: u128,
    pub span_id: u64,
    pub parent_span_id: Option<u64>,
    pub name: Seq<char>,
    pub start_time: u64,
    pub end_time: Option<u64>,
    pub attributes: Seq<AttrV>,
    pub events: Seq<EventV>,
    pub status: StatusV,
    pub service_name: Seq<char>,
}

impl View for Span {
    type V = SpanV;

    open spec fn view(&self) -> SpanV {
        SpanV {
            trace_id: self.trace_id.0,
            span_id: self.span_id.0,
            parent_span_id: match self.parent_span_id {
                Some(id) => Some(id.0),
                None => None,
            },
            name: self.name@,
            start_time: self.start_time.0,
            end_time: match self.end_time {
                Some(t) => Some(t.0),
                None => None,
            },
            attributes: self.attributes@.map_values(|a: Attr| a@),
            events: self.events@.map_values(|e: SpanEvent| e@),
            status: self.status@,
            service_name: self.service_name@,
        }
    }
}

impl Clone for Span {
    fn clone(&self) -> (res: Self)
        ensures
            res@ == self@,
    {
        let res = Span {
            trace_id: self.trace_id,
            span_id: self.span_id,
            parent_span_id: self.parent_span_id,
            name: self.name.clone(),
            start_time: self.start_time,
            end_time: self.end_time,
            attributes: self.attributes.clone(),
            events: self.events.clone(),
            status: self.status.clone(),
            service_name: self.service_name.clone(),
        };
        proof {
            assert(res.attributes@ =~= self.attributes@);
            assert(forall|i: int| 0 <= i < self.events@.len() ==> #[trigger] res.events@[i]@
                == self.events@[i]@);
            assert(res@.attributes =~= self@.attributes);
            assert(res@.events =~= self@.events);
        }
        res
    }
}

/// Duration of one span in nanoseconds, if it has ended.
pub open spec fn spec_duration(start_time: u64, end_time: Option<u64>) -> Option<u64> {
    match end_time {
        Some(e) => Some(if e >= start_time { (e - start_time) as u64 } else { 0u64 }),
        None => None,
    }
}

impl Span {
    /// Nanoseconds between start and end, saturating to zero when the end
    /// reads before the start; absent while the span is still open.
    pub fn duration_nanos(&self) -> (r: Option<u64>)
        ensures
            r == spec_duration(self@.start_time, self@.end_time),
    {
        match self.end_time {
            Some(end) => Some(end.saturating_nanos_since(self.start_time)),
            None => None,
        }
    }
}

} // verus!
