use vstd::prelude::*;
use crate::wire::lower;

verus! {

/// A structured value, as the codec reads and writes it.
///
/// Strings are byte runs: the wire format has no text encoding of its own.
#[derive(Debug)]
pub enum Value {
    /// An absent optional value, or the unit value: `NULL`.
    Null,
    Bool(bool),
    /// A signed integer, widened to 64 bits.
    Int(i64),
    /// An unsigned integer, widened to 64 bits.
    UInt(u64),
    Str(Vec<u8>),
    /// A union member without payload: its name stands alone.
    Tag(Vec<u8>),
    Array(Vec<Value>),
    /// Key/value pairs in their order on the wire.
    Table(Vec<(Vec<u8>, Value)>),
    /// A union member with a payload: its name and the payload.
    Variant(Vec<u8>, Box<Value>),
}

/// The mathematical model of a `Value`.
pub enum Val {
    Null,
    Bool(bool),
    Int(int),
    UInt(int),
    Str(Seq<u8>),
    Tag(Seq<u8>),
    Array(Seq<Val>),
    Table(Seq<(Seq<u8>, Val)>),
    Variant(Seq<u8>, Box<Val>),
}

/// The width of an integer that a decoder expects.
#[derive(Debug, Clone, Copy, PartialEq, Eq, Structural)]
pub enum Width {
    W8,
    W16,
    W32,
    W64,
}

/// What a decoder expects to find: the shape of the target type.
#[derive(Debug)]
pub enum Shape {
    /// Whatever the next byte announces.
    Any,
    Unit,
    Bool,
    Signed(Width),
    Unsigned(Width),
    Str,
    /// `NULL`, or a value of the inner shape.
    Optional(Box<Shape>),
    /// An array whose elements all have one shape.
    Array(Box<Shape>),
    /// A table whose values all have one shape.
    Table(Box<Shape>),
    /// A table whose values have the shape listed under their (lower-case)
    /// key, or any shape where the key is not listed.
    Record(Vec<(Vec<u8>, Shape)>),
    /// A union: a bare member name, or a table of one entry whose value has
    /// the shape listed under the (lower-case) member name.
    Union(Vec<(Vec<u8>, Shape)>),
}

pub open spec fn model(v: Value) -> Val
    decreases v,
{
    match v {
        Value::Null => Val::Null,
        Value::Bool(b) => Val::Bool(b),
        Value::Int(i) => Val::Int(i as int),
        Value::UInt(n) => Val::UInt(n as int),
        Value::Str(s) => Val::Str(s@),
        Value::Tag(s) => Val::Tag(s@),
        Value::Array(items) => Val::Array(
            Seq::new(
                items.len() as nat,
                |i: int|
                    if 0 <= i < items.len() {
                        model(items[i])
                    } else {
                        Val::Null
                    },
            ),
        ),
        Value::Table(entries) => Val::Table(
            Seq::new(
                entries.len() as nat,
                |i: int|
                    if 0 <= i < entries.len() {
                        (entries[i].0@, model(entries[i].1))
                    } else {
                        (Seq::empty(), Val::Null)
                    },
            ),
        ),
        Value::Variant(name, payload) => Val::Variant(name@, Box::new(model(*payload))),
    }
}

impl View for Value {
    type V = Val;

    open spec fn view(&self) -> Val {
        model(*self)
    }
}

pub open spec fn int_low(w: Width) -> int {
    match w {
        Width::W8 => -0x80,
        Width::W16 => -0x8000,
        Width::W32 => -0x8000_0000,
        Width::W64 => -0x8000_0000_0000_0000,
    }
}

pub open spec fn int_high(w: Width) -> int {
    -int_low(w) - 1
}

pub open spec fn uint_high(w: Width) -> int {
    match w {
        Width::W8 => 0xff,
        Width::W16 => 0xffff,
        Width::W32 => 0xffff_ffff,
        Width::W64 => 0xffff_ffff_ffff_ffff,
    }
}

/// The shape listed under `key`, or `Any`.
pub open spec fn lookup(list: Seq<(Vec<u8>, Shape)>, key: Seq<u8>) -> Shape
    decreases list.len(),
{
    if list.len() == 0 {
        Shape::Any
    } else if list[0].0@ == key {
        list[0].1
    } else {
        lookup(list.drop_first(), key)
    }
}

/// The shape of the value that a table of shape `sh` holds under `key`.
pub open spec fn entry_shape(sh: Shape, key: Seq<u8>) -> Shape {
    match sh {
        Shape::Table(d) => *d,
        Shape::Record(fields) => lookup(fields@, key),
        Shape::Union(members) => lookup(members@, key),
        _ => Shape::Any,
    }
}

/// A value with its table keys and member names in lower case, as a
/// decoder hands them on.
pub open spec fn canon(v: Val) -> Val
    decreases v,
{
    match v {
        Val::Array(items) => Val::Array(
            Seq::new(
                items.len(),
                |i: int|
                    if 0 <= i < items.len() {
                        canon(items[i])
                    } else {
                        Val::Null
                    },
            ),
        ),
        Val::Table(entries) => Val::Table(
            Seq::new(
                entries.len(),
                |i: int|
                    if 0 <= i < entries.len() {
                        (lower(entries[i].0), canon(entries[i].1))
                    } else {
                        (Seq::empty(), Val::Null)
                    },
            ),
        ),
        Val::Variant(name, payload) => Val::Variant(lower(name), Box::new(canon(*payload))),
        _ => v,
    }
}

} // verus!
