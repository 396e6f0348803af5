use crate::bytes::bytes_equal;
use crate::types::{numeric_key, Blob, Float, Integer, Text};
use vstd::prelude::*;

verus! {

/// The mathematical content of a [`Value`].
pub enum ValueModel {
    Null,
    Integer(i64),
    /// A finite double, by its bit pattern.
    Float(u64),
    Text(Seq<char>),
    Blob(Seq<u8>),
    Boolean(bool),
}

/// Equality of values as `==` on [`Value`] decides it: like variants with
/// equal payloads, where doubles compare numerically (so `0.0 == -0.0`).
pub open spec fn values_match(a: ValueModel, b: ValueModel) -> bool {
    match (a, b) {
        (ValueModel::Float(x), ValueModel::Float(y)) => numeric_key(x) == numeric_key(y),
        _ => a == b,
    }
}

/// A single cell value.
#[derive(Debug, Clone, PartialEq)]
pub enum Value {
    Null,
    Integer(Integer),
    Float(Float),
    Text(Text),
    Blob(Blob),
    Boolean(bool),
}

impl View for Value {
    type V = ValueModel;

    open spec fn view(&self) -> ValueModel {
        match self {
            Value::Null => ValueModel::Null,
            Value::Integer(i) => ValueModel::Integer(i@),
            Value::Float(f) => ValueModel::Float(f@),
            Value::Text(t) => ValueModel::Text(t@),
            Value::Blob(b) => ValueModel::Blob(b@),
            Value::Boolean(b) => ValueModel::Boolean(*b),
        }
    }
}

impl Value {
    pub fn is_null(&self) -> (r: bool)
        ensures
            r == (self@ is Null),
    {
        matches!(self, Value::Null)
    }

    pub fn is_integer(&self) -> (r: bool)
        ensures
            r == (self@ is Integer),
    {
        matches!(self, Value::Integer(_))
    }

    pub fn is_float(&self) -> (r: bool)
        ensures
            r == (self@ is Float),
    {
        matches!(self, Value::Float(_))
    }

    pub fn is_text(&self) -> (r: bool)
        ensures
            r == (self@ is Text),
    {
        matches!(self, Value::Text(_))
    }

    pub fn is_blob(&self) -> (r: bool)
        ensures
            r == (self@ is Blob),
    {
        matches!(self, Value::Blob(_))
    }

    pub fn is_boolean(&self) -> (r: bool)
        ensures
            r == (self@ is Boolean),
    {
        matches!(self, Value::Boolean(_))
    }

    /// The lower-case name of the variant.
    pub fn kind_name(&self) -> (r: &'static str)
        ensures
            self@ is Null ==> r@ == "null"@,
            self@ is Integer ==> r@ == "integer"@,
            self@ is Float ==> r@ == "float"@,
            self@ is Text ==> r@ == "text"@,
            self@ is Blob ==> r@ == "blob"@,
            self@ is Boolean ==> r@ == "boolean"@,
    {
        match self {
            Value::Null => "null",
            Value::Integer(_) => "integer",
            Value::Float(_) => "float",
            Value::Text(_) => "text",
            Value::Blob(_) => "blob",
            Value::Boolean(_) => "boolean",
        }
    }

    pub fn as_integer(&self) -> (r: Option<&Integer>)
        ensures
            r is Some <==> self@ is Integer,
            r matches Some(v) ==> self@ == ValueModel::Integer(v@),
    {
        match self {
            Value::Integer(v) => Some(v),
            _ => None,
        }
    }

    pub fn as_float(&self) -> (r: Option<&Float>)
        ensures
            r is Some <==> self@ is Float,
            r matches Some(v) ==> self@ == ValueModel::Float(v@),
    {
        match self {
            Value::Float(v) => Some(v),
            _ => None,
        }
    }

    pub fn as_text(&self) -> (r: Option<&Text>)
        ensures
            r is Some <==> self@ is Text,
            r matches Some(v) ==> self@ == ValueModel::Text(v@),
    {
        match self {
            Value::Text(v) => Some(v),
            _ => None,
        }
    }

    pub fn as_blob(&self) -> (r: Option<&Blob>)
        ensures
            r is Some <==> self@ is Blob,
            r matches Some(v) ==> self@ == ValueModel::Blob(v@),
    {
        match self {
            Value::Blob(v) => Some(v),
            _ => None,
        }
    }

    pub fn into_integer(self) -> (r: Option<Integer>)
        ensures
            r is Some <==> self@ is Integer,
            r matches Some(v) ==> self@ == ValueModel::Integer(v@),
    {
        match self {
            Value::Integer(v) => Some(v),
            _ => None,
        }
    }

    pub fn into_float(self) -> (r: Option<Float>)
        ensures
            r is Some <==> self@ is Float,
            r matches Some(v) ==> self@ == ValueModel::Float(v@),
    {
        match self {
            Value::Float(v) => Some(v),
            _ => None,
        }
    }

    pub fn into_text(self) -> (r: Option<Text>)
        ensures
            r is Some <==> self@ is Text,
            r matches Some(v) ==> self@ == ValueModel::Text(v@),
    {
        match self {
            Value::Text(v) => Some(v),
            _ => None,
        }
    }

    pub fn into_blob(self) -> (r: Option<Blob>)
        ensures
            r is Some <==> self@ is Blob,
            r matches Some(v) ==> self@ == ValueModel::Blob(v@),
    {
        match self {
            Value::Blob(v) => Some(v),
            _ => None,
        }
    }

    /// A copy of the value.
    pub fn duplicate(&self) -> (r: Value)
        ensures
            r@ == self@,
    {
        match self {
            Value::Null => Value::Null,
            Value::Integer(i) => Value::Integer(*i),
            Value::Float(f) => Value::Float(*f),
            Value::Text(t) => Value::Text(t.duplicate()),
            Value::Blob(b) => Value::Blob(b.duplicate()),
            Value::Boolean(b) => Value::Boolean(*b),
        }
    }

    /// `==` on values (see [`values_match`]).
    pub fn equals(&self, other: &Value) -> (r: bool)
        ensures
            r == values_match(self@, other@),
    {
        match (self, other) {
            (Value::Null, Value::Null) => true,
            (Value::Integer(a), Value::Integer(b)) => a.as_i64() == b.as_i64(),
            (Value::Float(a), Value::Float(b)) => a.numeric_key() == b.numeric_key(),
            (Value::Text(a), Value::Text(b)) => {
                let r = bytes_equal(a.as_bytes(), b.as_bytes());
                proof {
                    vstd::utf8::encode_utf8_decode_utf8(a@);
                    vstd::utf8::encode_utf8_decode_utf8(b@);
                }
                r
            },
            (Value::Blob(a), Value::Blob(b)) => bytes_equal(a.as_slice(), b.as_slice()),
            (Value::Boolean(a), Value::Boolean(b)) => *a == *b,
            _ => false,
        }
    }
}

/// Copies a sequence of values.
pub fn duplicate_values(values: &[Value]) -> (r: Vec<Value>)
    ensures
        r@.len() == values@.len(),
        forall|i: int| 0 <= i < values@.len() ==> #[trigger] r@[i]@ == values@[i]@,
{
    let mut out: Vec<Value> = Vec::new();
    let mut i: usize = 0;
    while i < values.len()
        invariant
            i <= values@.len(),
            out@.len() == i,
            forall|j: int| 0 <= j < i ==> #[trigger] out@[j]@ == values@[j]@,
        decreases values@.len() - i,
    {
        out.push(values[i].duplicate());
        i = i + 1;
    }
    out
}

} // verus!
