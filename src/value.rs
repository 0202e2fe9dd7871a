//! Bound values and binding errors.
use std::ops::Range;
use vstd::prelude::*;

verus! {

/// A value bound from the tree according to a schema type.
#[derive(Debug, PartialEq, Eq)]
pub enum Value {
    /// The byte range of a node.
    Span(Range<usize>),
    /// The source text of a node.
    Text(String),
    /// An optional child: absent, or its bound value.
    Opt(Option<Box<Value>>),
    /// The bound values of repeated children, in source order.
    List(Vec<Value>),
    /// Whether a child is present.
    Flag(bool),
    /// The bound fields of a record, in declaration order.
    Record(Vec<Value>),
    /// The index of the selected union variant and its bound payload.
    Variant(usize, Box<Value>),
}

/// An error of a binding pass: the byte range it concerns and its kind.
#[derive(Debug, PartialEq, Eq, Hash)]
pub struct Error {
    pub range: Range<usize>,
    pub kind: ErrorKind,
}

/// The kinds of binding errors.
#[derive(Debug, PartialEq, Eq, Hash)]
pub enum ErrorKind {
    /// The source text did not parse cleanly: the tree holds an error node.
    Node,
    /// An error raised by the consumer, with its message.
    Custom(String),
}

} // verus!
