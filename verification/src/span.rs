//! A finished span as the encoder reads it.

use vstd::prelude::*;
use crate::tags::TagMap;

verus! {

/// How a span ended.
#[derive(Debug, Clone, Copy, PartialEq, Eq, Structural)]
pub enum StatusCode {
    /// Nothing was said.
    Unset,
    /// The operation succeeded.
    Success,
    /// The operation failed.
    Error,
}

/// The role of a span in its trace.
#[derive(Debug, Clone, Copy, PartialEq, Eq, Structural)]
pub enum SpanKind {
    Internal,
    Server,
    Client,
    Producer,
    Consumer,
}

/// The value of an attribute.
#[derive(Debug)]
pub enum AttributeValue {
    /// A string.
    Str(String),
    /// A truth value.
    Bool(bool),
    /// An integer.
    Int(i64),
    /// A binary64 floating-point number, given by its 64 bits.
    Double(u64),
}

/// An attribute value with its string as a sequence of characters.
pub enum AttributeValueView {
    Str(Seq<char>),
    Bool(bool),
    Int(i64),
    Double(u64),
}

impl View for AttributeValue {
    type V = AttributeValueView;

    open spec fn view(&self) -> AttributeValueView {
        match self {
            AttributeValue::Str(s) => AttributeValueView::Str(s@),
            AttributeValue::Bool(b) => AttributeValueView::Bool(*b),
            AttributeValue::Int(i) => AttributeValueView::Int(*i),
            AttributeValue::Double(bits) => AttributeValueView::Double(*bits),
        }
    }
}

impl Clone for AttributeValue {
    fn clone(&self) -> (r: Self)
        ensures
            r@ == self@,
    {
        match self {
            AttributeValue::Str(s) => AttributeValue::Str(s.clone()),
            AttributeValue::Bool(b) => AttributeValue::Bool(*b),
            AttributeValue::Int(i) => AttributeValue::Int(*i),
            AttributeValue::Double(bits) => AttributeValue::Double(*bits),
        }
    }
}

/// How a span ended, and what was said about it.
#[derive(Debug)]
pub struct Status {
    pub code: StatusCode,
    pub message: Option<String>,
}

/// A finished span. The encoder reads it and keeps nothing of it.
#[derive(Debug)]
pub struct Span {
    /// The trace that the span belongs to.
    pub trace_id: u128,
    pub span_id: u64,
    /// The span that caused this one; none for the root of a trace.
    pub parent_span_id: Option<u64>,
    /// The name of the operation.
    pub name: String,
    /// Nanoseconds since the Unix epoch.
    pub start_time: i64,
    /// Nanoseconds from start to end. A span whose clock ran backwards
    /// carries a negative number here.
    pub duration: i64,
    pub status: Status,
    pub attributes: TagMap<AttributeValue>,
    pub kind: SpanKind,
}

/// A span with its strings as sequences of characters and its attributes as
/// the sequence of their entries, in the order of the keys.
pub struct SpanView {
    pub trace_id: u128,
    pub span_id: u64,
    pub parent_span_id: Option<u64>,
    pub name: Seq<char>,
    pub start_time: i64,
    pub duration: i64,
    pub status_code: StatusCode,
    pub status_message: Option<Seq<char>>,
    pub attributes: Seq<(Seq<char>, AttributeValueView)>,
    pub kind: SpanKind,
}

impl View for Span {
    type V = SpanView;

    open spec fn view(&self) -> SpanView {
        SpanView {
            trace_id: self.trace_id,
            span_id: self.span_id,
            parent_span_id: self.parent_span_id,
            name: self.name@,
            start_time: self.start_time,
            duration: self.duration,
            status_code: self.status.code,
            status_message: match self.status.message {
                Some(m) => Some(m@),
                None => None,
            },
            attributes: self.attributes@,
            kind: self.kind,
        }
    }
}

impl DeepView for Span {
    type V = SpanView;

    open spec fn deep_view(&self) -> SpanView {
        self@
    }
}

} // verus!
