//! The decoded value tree.
//!
//! Scalars carry their payload directly.  Composites (lists, tuples,
//! dictionaries) have reference identity: a composite value holds a handle
//! into an arena owned by the decoding machine, so that cloning a value
//! clones the handle and every reference sees mutations of the underlying
//! container.  Floating-point numbers stay data: either the raw IEEE-754
//! binary64 bits of a binary operand or the validated text of a decimal
//! operand; turning them into machine floats is left to the caller.

use vstd::prelude::*;

use crate::bignum::BigNum;

verus! {

/// A floating-point operand as carried by the wire format.
#[derive(Debug, PartialEq, Eq)]
pub enum FloatRepr {
    /// The bits of an IEEE-754 binary64 number, as read big-endian.
    Binary(u64),
    /// The text of a decimal floating-point literal, already validated.
    Literal(Vec<u8>),
}

/// Mathematical model of a [`FloatRepr`].
pub enum FloatReprView {
    Binary(u64),
    Literal(Seq<u8>),
}

impl View for FloatRepr {
    type V = FloatReprView;

    open spec fn view(&self) -> FloatReprView {
        match self {
            FloatRepr::Binary(bits) => FloatReprView::Binary(*bits),
            FloatRepr::Literal(text) => FloatReprView::Literal(text@),
        }
    }
}

/// A decoded value.
///
/// `List`, `Tuple` and `Dict` hold an index into the machine's arena for
/// that kind of composite; everything else owns its payload.
#[derive(Debug, PartialEq)]
pub enum Value {
    /// The singleton none value.
    NoneValue,
    Bool(bool),
    Int(i64),
    Long(BigNum),
    Float(FloatRepr),
    String(Vec<u8>),
    Unicode(std::string::String),
    List(usize),
    Tuple(usize),
    Dict(usize),
}

/// Mathematical model of a [`Value`]: numbers are unbounded integers,
/// byte strings are byte sequences, and composite handles are indexes.
pub enum ValueView {
    NoneValue,
    Bool(bool),
    Int(int),
    Long(int),
    Float(FloatReprView),
    String(Seq<u8>),
    Unicode(Seq<char>),
    List(int),
    Tuple(int),
    Dict(int),
}

impl View for Value {
    type V = ValueView;

    open spec fn view(&self) -> ValueView {
        match self {
            Value::NoneValue => ValueView::NoneValue,
            Value::Bool(b) => ValueView::Bool(*b),
            Value::Int(v) => ValueView::Int(*v as int),
            Value::Long(n) => ValueView::Long(n@),
            Value::Float(f) => ValueView::Float(f@),
            Value::String(b) => ValueView::String(b@),
            Value::Unicode(s) => ValueView::Unicode(s@),
            Value::List(h) => ValueView::List(*h as int),
            Value::Tuple(h) => ValueView::Tuple(*h as int),
            Value::Dict(h) => ValueView::Dict(*h as int),
        }
    }
}

/// A byte-for-byte copy of a byte string.
pub fn clone_bytes(v: &Vec<u8>) -> (r: Vec<u8>)
    ensures
        r@ == v@,
{
    let mut out: Vec<u8> = Vec::new();
    let mut i: usize = 0;
    while i < v.len()
        invariant
            i <= v@.len(),
            out@ =~= v@.subrange(0, i as int),
        decreases v.len() - i,
    {
        out.push(v[i]);
        i = i + 1;
    }
    assert(out@ =~= v@);
    out
}

impl Clone for FloatRepr {
    fn clone(&self) -> (r: Self)
        ensures
            r@ == self@,
    {
        match self {
            FloatRepr::Binary(bits) => FloatRepr::Binary(*bits),
            FloatRepr::Literal(text) => FloatRepr::Literal(clone_bytes(text)),
        }
    }
}

impl Clone for Value {
    /// Cloning copies scalar payloads and shares composite handles.
    fn clone(&self) -> (r: Self)
        ensures
            r@ == self@,
    {
        match self {
            Value::NoneValue => Value::NoneValue,
            Value::Bool(b) => Value::Bool(*b),
            Value::Int(v) => Value::Int(*v),
            Value::Long(n) => Value::Long(n.clone()),
            Value::Float(f) => Value::Float(f.clone()),
            Value::String(b) => Value::String(clone_bytes(b)),
            Value::Unicode(s) => Value::Unicode(s.clone()),
            Value::List(h) => Value::List(*h),
            Value::Tuple(h) => Value::Tuple(*h),
            Value::Dict(h) => Value::Dict(*h),
        }
    }
}

} // verus!
