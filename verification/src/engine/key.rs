use crate::bytes::{bytes_equal, bytes_less, lex_lt, lemma_lex_order};
use crate::codec::{push_u32, push_u64, push_u8, copy_range, read_u32_at, read_u64_at, push_bytes};
use crate::error::{DbError, ErrorKind};
use crate::text::string_from_utf8;
use crate::types::magnitude;
use crate::value::{Value, ValueModel};
use vstd::bytes::*;
use vstd::prelude::*;
use vstd::utf8::{decode_utf8, encode_utf8, valid_utf8};

verus! {

/// The model of a key of the on-disk index.
pub enum KeyView {
    Integer(i64),
    Float(u64),
    Text(Seq<char>),
    Blob(Seq<u8>),
    Boolean(bool),
}

/// A key of the on-disk index, ordered by variant first (in the order of
/// declaration) and then by content.
#[derive(Debug, Clone, PartialEq, Eq, Hash, PartialOrd, Ord)]
pub enum IndexKey {
    Integer(i64),
    /// A double by its bit pattern.
    Float(u64),
    Text(String),
    Blob(Vec<u8>),
    Boolean(bool),
}

impl View for IndexKey {
    type V = KeyView;

    open spec fn view(&self) -> KeyView {
        match self {
            IndexKey::Integer(i) => KeyView::Integer(*i),
            IndexKey::Float(b) => KeyView::Float(*b),
            IndexKey::Text(s) => KeyView::Text(s@),
            IndexKey::Blob(b) => KeyView::Blob(b@),
            IndexKey::Boolean(b) => KeyView::Boolean(*b),
        }
    }
}

/// The result of comparing two keys.
#[derive(Debug, Clone, Copy, PartialEq, Eq, Structural)]
pub enum KeyOrder {
    Less,
    Equal,
    Greater,
}

/// The rank of a key's variant.
pub open spec fn rank(k: KeyView) -> int {
    match k {
        KeyView::Integer(_) => 0,
        KeyView::Float(_) => 1,
        KeyView::Text(_) => 2,
        KeyView::Blob(_) => 3,
        KeyView::Boolean(_) => 4,
    }
}

/// The order of keys: by variant, then integers and bit patterns by value,
/// text by its UTF-8 bytes, blobs by their bytes, `false` before `true`.
pub open spec fn key_lt(a: KeyView, b: KeyView) -> bool {
    if rank(a) != rank(b) {
        rank(a) < rank(b)
    } else {
        match (a, b) {
            (KeyView::Integer(x), KeyView::Integer(y)) => x < y,
            (KeyView::Float(x), KeyView::Float(y)) => x < y,
            (KeyView::Text(x), KeyView::Text(y)) => lex_lt(encode_utf8(x), encode_utf8(y)),
            (KeyView::Blob(x), KeyView::Blob(y)) => lex_lt(x, y),
            (KeyView::Boolean(x), KeyView::Boolean(y)) => !x && y,
            _ => false,
        }
    }
}

/// `key_lt` is a strict total order.
pub proof fn lemma_key_order(a: KeyView, b: KeyView, c: KeyView)
    ensures
        !key_lt(a, a),
        key_lt(a, b) ==> !key_lt(b, a),
        a != b ==> key_lt(a, b) || key_lt(b, a),
        key_lt(a, b) && key_lt(b, c) ==> key_lt(a, c),
{
    match (a, b, c) {
        (KeyView::Text(x), KeyView::Text(y), KeyView::Text(z)) => {
            lemma_lex_order(encode_utf8(x), encode_utf8(y), encode_utf8(z));
            vstd::utf8::encode_utf8_decode_utf8(x);
            vstd::utf8::encode_utf8_decode_utf8(y);
        },
        (KeyView::Text(x), KeyView::Text(y), _) => {
            lemma_lex_order(encode_utf8(x), encode_utf8(y), encode_utf8(y));
            vstd::utf8::encode_utf8_decode_utf8(x);
            vstd::utf8::encode_utf8_decode_utf8(y);
        },
        (KeyView::Text(x), _, _) => {
            lemma_lex_order(encode_utf8(x), encode_utf8(x), encode_utf8(x));
        },
        (KeyView::Blob(x), KeyView::Blob(y), KeyView::Blob(z)) => {
            lemma_lex_order(x, y, z);
        },
        (KeyView::Blob(x), KeyView::Blob(y), _) => {
            lemma_lex_order(x, y, y);
        },
        (KeyView::Blob(x), _, _) => {
            lemma_lex_order(x, x, x);
        },
        _ => {},
    }
}

/// The key under which a value is indexed, if it has one: both zeros share
/// the key of `0.0`; `Null` has none.
pub open spec fn key_of_value(v: ValueModel) -> Option<KeyView> {
    match v {
        ValueModel::Null => None,
        ValueModel::Integer(i) => Some(KeyView::Integer(i)),
        ValueModel::Float(b) => Some(
            KeyView::Float(
                if magnitude(b) == 0 {
                    0
                } else {
                    b
                },
            ),
        ),
        ValueModel::Text(t) => Some(KeyView::Text(t)),
        ValueModel::Blob(b) => Some(KeyView::Blob(b)),
        ValueModel::Boolean(b) => Some(KeyView::Boolean(b)),
    }
}

/// Whether a key can be written: a text or blob must have a length that
/// fits in a `u32`.
pub open spec fn key_encodable(k: KeyView) -> bool {
    match k {
        KeyView::Text(t) => encode_utf8(t).len() <= u32::MAX,
        KeyView::Blob(b) => b.len() <= u32::MAX,
        _ => true,
    }
}

/// The bytes of a key: a tag (0 to 4 in the order of the variants), then
/// the little-endian integer or bit pattern, the `u32` length and the bytes
/// of a text or blob, or one byte for a boolean.
pub open spec fn key_bytes(k: KeyView) -> Seq<u8> {
    match k {
        KeyView::Integer(i) => seq![0u8] + spec_u64_to_le_bytes(i as u64),
        KeyView::Float(b) => seq![1u8] + spec_u64_to_le_bytes(b),
        KeyView::Text(t) => seq![2u8] + spec_u32_to_le_bytes(encode_utf8(t).len() as u32)
            + encode_utf8(t),
        KeyView::Blob(b) => seq![3u8] + spec_u32_to_le_bytes(b.len() as u32) + b,
        KeyView::Boolean(b) => seq![
            4u8,
            if b {
                1u8
            } else {
                0u8
            },
        ],
    }
}

/// The bytes of a text or blob key: the `u32` length at 1 and the bytes
/// after it, if all of them are there.
pub open spec fn sized_body(bytes: Seq<u8>) -> Option<Seq<u8>> {
    if bytes.len() < 5 {
        None
    } else {
        let len = spec_u32_from_le_bytes(bytes.subrange(1, 5)) as int;
        if 5 + len <= bytes.len() {
            Some(bytes.subrange(5, 5 + len))
        } else {
            None
        }
    }
}

/// The key that bytes start with; whatever follows it is ignored. Any
/// failure is corruption.
pub open spec fn parse_key(bytes: Seq<u8>) -> Result<KeyView, ErrorKind> {
    if bytes.len() == 0 {
        Err(ErrorKind::Corruption)
    } else if bytes[0] == 0 || bytes[0] == 1 {
        if bytes.len() < 9 {
            Err(ErrorKind::Corruption)
        } else {
            let x = spec_u64_from_le_bytes(bytes.subrange(1, 9));
            if bytes[0] == 0 {
                Ok(KeyView::Integer(x as i64))
            } else {
                Ok(KeyView::Float(x))
            }
        }
    } else if bytes[0] == 2 {
        match sized_body(bytes) {
            Some(b) => if valid_utf8(b) {
                Ok(KeyView::Text(decode_utf8(b)))
            } else {
                Err(ErrorKind::Corruption)
            },
            None => Err(ErrorKind::Corruption),
        }
    } else if bytes[0] == 3 {
        match sized_body(bytes) {
            Some(b) => Ok(KeyView::Blob(b)),
            None => Err(ErrorKind::Corruption),
        }
    } else if bytes[0] == 4 {
        if bytes.len() < 2 {
            Err(ErrorKind::Corruption)
        } else {
            Ok(KeyView::Boolean(bytes[1] != 0))
        }
    } else {
        Err(ErrorKind::Corruption)
    }
}

/// Decoding the bytes of a key gives the key back, whatever follows them.
pub proof fn lemma_key_roundtrip(k: KeyView, rest: Seq<u8>)
    requires
        key_encodable(k),
    ensures
        parse_key(key_bytes(k) + rest) == Ok::<KeyView, ErrorKind>(k),
{
    let s = key_bytes(k) + rest;
    lemma_auto_spec_u64_to_from_le_bytes();
    lemma_auto_spec_u32_to_from_le_bytes();
    match k {
        KeyView::Integer(i) => {
            assert(s.subrange(1, 9) =~= spec_u64_to_le_bytes(i as u64));
            assert((i as u64) as i64 == i) by (bit_vector);
        },
        KeyView::Float(b) => {
            assert(s.subrange(1, 9) =~= spec_u64_to_le_bytes(b));
        },
        KeyView::Text(t) => {
            let e = encode_utf8(t);
            assert(s.subrange(1, 5) =~= spec_u32_to_le_bytes(e.len() as u32));
            assert(s.subrange(5, 5 + e.len() as int) =~= e);
            vstd::utf8::encode_utf8_valid_utf8(t);
            vstd::utf8::encode_utf8_decode_utf8(t);
        },
        KeyView::Blob(b) => {
            assert(s.subrange(1, 5) =~= spec_u32_to_le_bytes(b.len() as u32));
            assert(s.subrange(5, 5 + b.len() as int) =~= b);
        },
        KeyView::Boolean(b) => {},
    }
}

fn corrupt(msg: &str) -> (r: DbError)
    ensures
        r.kind() == ErrorKind::Corruption,
        r matches DbError::Corruption(m) && m@ == msg@,
{
    DbError::corruption(msg)
}

impl IndexKey {
    /// The key of a value (see [`key_of_value`]).
    pub fn from_value(v: &Value) -> (r: Option<Self>)
        ensures
            r is Some <==> key_of_value(v@) is Some,
            r matches Some(k) ==> key_of_value(v@) == Some(k@),
    {
        match v {
            Value::Null => None,
            Value::Integer(i) => Some(IndexKey::Integer(i.as_i64())),
            Value::Float(f) => {
                let bits = if f.is_zero() {
                    0u64
                } else {
                    f.to_bits()
                };
                Some(IndexKey::Float(bits))
            },
            Value::Text(t) => Some(IndexKey::Text(t.as_str().to_owned())),
            Value::Blob(b) => Some(IndexKey::Blob(b.to_vec())),
            Value::Boolean(b) => Some(IndexKey::Boolean(*b)),
        }
    }

    /// The bytes of the key (see [`key_bytes`]); a text or blob longer than
    /// a `u32` can count is an invalid operation.
    pub fn to_bytes(&self) -> (r: Result<Vec<u8>, DbError>)
        ensures
            r is Ok <==> key_encodable(self@),
            r matches Ok(b) ==> b@ == key_bytes(self@),
            r matches Err(e) ==> e.kind() == ErrorKind::InvalidOperation,
    {
        let mut buf: Vec<u8> = Vec::new();
        match self {
            IndexKey::Integer(i) => {
                push_u8(&mut buf, 0);
                push_u64(&mut buf, *i as u64);
            },
            IndexKey::Float(bits) => {
                push_u8(&mut buf, 1);
                push_u64(&mut buf, *bits);
            },
            IndexKey::Text(s) => {
                let b = s.as_str().as_bytes();
                if b.len() > 0xffff_ffff {
                    return Err(DbError::invalid_operation("text key too long"));
                }
                push_u8(&mut buf, 2);
                push_u32(&mut buf, b.len() as u32);
                push_bytes(&mut buf, b);
            },
            IndexKey::Blob(b) => {
                if b.len() > 0xffff_ffff {
                    return Err(DbError::invalid_operation("blob key too long"));
                }
                push_u8(&mut buf, 3);
                push_u32(&mut buf, b.len() as u32);
                push_bytes(&mut buf, b.as_slice());
            },
            IndexKey::Boolean(b) => {
                push_u8(&mut buf, 4);
                push_u8(&mut buf, if *b { 1 } else { 0 });
            },
        }
        assert(buf@ =~= key_bytes(self@));
        Ok(buf)
    }

    /// The key that `bytes` start with (see [`parse_key`]).
    pub fn from_bytes(bytes: &[u8]) -> (r: Result<Self, DbError>)
        ensures
            match parse_key(bytes@) {
                Ok(k) => r matches Ok(x) && x@ == k,
                Err(e) => r matches Err(x) && x.kind() == e,
            },
    {
        if bytes.len() == 0 {
            return Err(corrupt("empty key bytes"));
        }
        let tag = bytes[0];
        if tag == 0 {
            Self::decode_integer(bytes)
        } else if tag == 1 {
            Self::decode_float(bytes)
        } else if tag == 2 {
            Self::decode_text(bytes)
        } else if tag == 3 {
            Self::decode_blob(bytes)
        } else if tag == 4 {
            Self::decode_boolean(bytes)
        } else {
            Err(corrupt("invalid key tag"))
        }
    }

    fn decode_integer(bytes: &[u8]) -> (r: Result<Self, DbError>)
        requires
            bytes@.len() > 0,
            bytes@[0] == 0,
        ensures
            match parse_key(bytes@) {
                Ok(k) => r matches Ok(x) && x@ == k,
                Err(e) => r matches Err(x) && x.kind() == e,
            },
    {
        if bytes.len() < 9 {
            return Err(corrupt("invalid integer key length"));
        }
        let x = read_u64_at(bytes, 1);
        Ok(IndexKey::Integer(x as i64))
    }

    fn decode_float(bytes: &[u8]) -> (r: Result<Self, DbError>)
        requires
            bytes@.len() > 0,
            bytes@[0] == 1,
        ensures
            match parse_key(bytes@) {
                Ok(k) => r matches Ok(x) && x@ == k,
                Err(e) => r matches Err(x) && x.kind() == e,
            },
    {
        if bytes.len() < 9 {
            return Err(corrupt("invalid float key length"));
        }
        let x = read_u64_at(bytes, 1);
        Ok(IndexKey::Float(x))
    }

    /// The bytes of a text or blob key (see [`sized_body`]).
    fn sized(bytes: &[u8]) -> (r: Option<Vec<u8>>)
        ensures
            match sized_body(bytes@) {
                Some(b) => r matches Some(x) && x@ == b,
                None => r is None,
            },
    {
        if bytes.len() < 5 {
            return None;
        }
        let len = read_u32_at(bytes, 1) as usize;
        if len > bytes.len() - 5 {
            return None;
        }
        Some(copy_range(bytes, 5, 5 + len))
    }

    fn decode_text(bytes: &[u8]) -> (r: Result<Self, DbError>)
        requires
            bytes@.len() > 0,
            bytes@[0] == 2,
        ensures
            match parse_key(bytes@) {
                Ok(k) => r matches Ok(x) && x@ == k,
                Err(e) => r matches Err(x) && x.kind() == e,
            },
    {
        match Self::sized(bytes) {
            None => Err(corrupt("text key bytes missing")),
            Some(b) => match string_from_utf8(b) {
                Some(s) => Ok(IndexKey::Text(s)),
                None => Err(corrupt("invalid utf8 in text key")),
            },
        }
    }

    fn decode_blob(bytes: &[u8]) -> (r: Result<Self, DbError>)
        requires
            bytes@.len() > 0,
            bytes@[0] == 3,
        ensures
            match parse_key(bytes@) {
                Ok(k) => r matches Ok(x) && x@ == k,
                Err(e) => r matches Err(x) && x.kind() == e,
            },
    {
        match Self::sized(bytes) {
            None => Err(corrupt("blob key bytes missing")),
            Some(b) => Ok(IndexKey::Blob(b)),
        }
    }

    fn decode_boolean(bytes: &[u8]) -> (r: Result<Self, DbError>)
        requires
            bytes@.len() > 0,
            bytes@[0] == 4,
        ensures
            match parse_key(bytes@) {
                Ok(k) => r matches Ok(x) && x@ == k,
                Err(e) => r matches Err(x) && x.kind() == e,
            },
    {
        if bytes.len() < 2 {
            return Err(corrupt("boolean key byte missing"));
        }
        Ok(IndexKey::Boolean(bytes[1] != 0))
    }

    /// Compares two keys in the order of [`key_lt`].
    pub fn compare(&self, other: &IndexKey) -> (r: KeyOrder)
        ensures
            r == KeyOrder::Less <==> key_lt(self@, other@),
            r == KeyOrder::Equal <==> self@ == other@,
            r == KeyOrder::Greater <==> key_lt(other@, self@),
    {
        proof {
            lemma_key_order(self@, other@, self@);
        }
        match (self, other) {
            (IndexKey::Integer(a), IndexKey::Integer(b)) => if *a < *b {
                KeyOrder::Less
            } else if *a == *b {
                KeyOrder::Equal
            } else {
                KeyOrder::Greater
            },
            (IndexKey::Float(a), IndexKey::Float(b)) => if *a < *b {
                KeyOrder::Less
            } else if *a == *b {
                KeyOrder::Equal
            } else {
                KeyOrder::Greater
            },
            (IndexKey::Text(a), IndexKey::Text(b)) => {
                let x = a.as_str().as_bytes();
                let y = b.as_str().as_bytes();
                proof {
                    vstd::utf8::encode_utf8_decode_utf8(a@);
                    vstd::utf8::encode_utf8_decode_utf8(b@);
                }
                if bytes_less(x, y) {
                    KeyOrder::Less
                } else if bytes_equal(x, y) {
                    KeyOrder::Equal
                } else {
                    KeyOrder::Greater
                }
            },
            (IndexKey::Blob(a), IndexKey::Blob(b)) => {
                if bytes_less(a.as_slice(), b.as_slice()) {
                    KeyOrder::Less
                } else if bytes_equal(a.as_slice(), b.as_slice()) {
                    KeyOrder::Equal
                } else {
                    KeyOrder::Greater
                }
            },
            (IndexKey::Boolean(a), IndexKey::Boolean(b)) => if !*a && *b {
                KeyOrder::Less
            } else if *a == *b {
                KeyOrder::Equal
            } else {
                KeyOrder::Greater
            },
            _ => {
                if self.rank() < other.rank() {
                    KeyOrder::Less
                } else {
                    KeyOrder::Greater
                }
            },
        }
    }

    fn rank(&self) -> (r: u8)
        ensures
            r as int == rank(self@),
    {
        match self {
            IndexKey::Integer(_) => 0,
            IndexKey::Float(_) => 1,
            IndexKey::Text(_) => 2,
            IndexKey::Blob(_) => 3,
            IndexKey::Boolean(_) => 4,
        }
    }

    /// Whether `self` sorts strictly before `other`.
    pub fn less_than(&self, other: &IndexKey) -> (r: bool)
        ensures
            r == key_lt(self@, other@),
    {
        self.compare(other) == KeyOrder::Less
    }

    pub fn duplicate(&self) -> (r: IndexKey)
        ensures
            r@ == self@,
    {
        match self {
            IndexKey::Integer(i) => IndexKey::Integer(*i),
            IndexKey::Float(b) => IndexKey::Float(*b),
            IndexKey::Text(s) => IndexKey::Text(s.clone()),
            IndexKey::Blob(b) => IndexKey::Blob(b.clone()),
            IndexKey::Boolean(b) => IndexKey::Boolean(*b),
        }
    }
}

} // verus!
