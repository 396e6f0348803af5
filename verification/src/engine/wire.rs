use crate::codec::{bytes_field, parse_u32, parse_u64, parse_u8, push_bytes, push_u32, push_u64, push_u8, Parsed, Reader};
use crate::error::{DbError, ErrorKind};
use crate::row::{models, Row};
use crate::text::string_from_utf8;
use crate::types::{is_finite_bits, Blob, Float, Integer, Text};
use crate::value::{Value, ValueModel};
use vstd::bytes::*;
use vstd::prelude::*;
use vstd::utf8::{decode_utf8, encode_utf8, valid_utf8};

verus! {

pub const TAG_NULL: u8 = 0;
pub const TAG_INTEGER: u8 = 1;
pub const TAG_FLOAT: u8 = 2;
pub const TAG_TEXT: u8 = 3;
pub const TAG_BLOB: u8 = 4;
pub const TAG_BOOLEAN: u8 = 5;
/// The version written at the start of an encoded catalog.
pub const FORMAT_VERSION: u32 = 1;
/// The longest byte string a decoder accepts.
pub const MAX_READ_BYTES: usize = 64 * 1024 * 1024;
/// The longest list of allowed values a decoder accepts.
pub const MAX_VEC_ELEMENTS: usize = 1_000_000;
/// The most columns, row values or tables a decoder accepts.
pub const MAX_DECODED_ITEMS: u32 = 1_000_000;

/// The same result, with `k` more bytes consumed.
pub open spec fn shifted<T>(p: Parsed<T>, k: int) -> Parsed<T> {
    match p {
        Ok((v, n)) => Ok((v, n + k)),
        Err(e) => Err(e),
    }
}

/// A parser consumes no more than its input.
pub open spec fn sane<A>(p: spec_fn(Seq<u8>) -> Parsed<A>) -> bool {
    forall|s: Seq<u8>| #[trigger] p(s) is Ok ==> 0 <= (p(s)->Ok_0).1 <= s.len()
}

/// `n` items read one after another by `p`.
pub open spec fn parse_many<A>(p: spec_fn(Seq<u8>) -> Parsed<A>, s: Seq<u8>, n: nat) -> Parsed<Seq<A>>
    decreases n,
{
    if n == 0 {
        Ok((Seq::empty(), 0))
    } else {
        match p(s) {
            Err(e) => Err(e),
            Ok((x, k)) => match parse_many(p, s.skip(k), (n - 1) as nat) {
                Err(e) => Err(e),
                Ok((xs, m)) => Ok((seq![x] + xs, k + m)),
            },
        }
    }
}

/// The encodings of `xs`, one after another.
pub open spec fn concat_bytes<A>(f: spec_fn(A) -> Seq<u8>, xs: Seq<A>) -> Seq<u8> {
    xs.map_values(f).flatten()
}

pub proof fn lemma_parse_many_consumed<A>(p: spec_fn(Seq<u8>) -> Parsed<A>, s: Seq<u8>, n: nat)
    requires
        sane(p),
    ensures
        parse_many(p, s, n) matches Ok((xs, k)) ==> 0 <= k <= s.len() && xs.len() == n,
    decreases n,
{
    if n > 0 {
        if let Ok((x, k)) = p(s) {
            lemma_parse_many_consumed(p, s.skip(k), (n - 1) as nat);
        }
    }
}

/// Reading one more item continues where `n` items ended.
pub proof fn lemma_parse_many_step<A>(p: spec_fn(Seq<u8>) -> Parsed<A>, s: Seq<u8>, n: nat)
    requires
        sane(p),
    ensures
        parse_many(p, s, n + 1) == match parse_many(p, s, n) {
            Err(e) => Err(e),
            Ok((xs, k)) => match p(s.skip(k)) {
                Err(e) => Err(e),
                Ok((x, m)) => Ok((xs.push(x), k + m)),
            },
        },
    decreases n,
{
    if n == 0 {
        assert(s.skip(0) =~= s);
        match p(s) {
            Err(e) => {},
            Ok((x, m)) => {
                assert(parse_many(p, s.skip(m), 0) == Ok::<(Seq<A>, int), ErrorKind>((Seq::empty(), 0)));
                assert(seq![x] + Seq::<A>::empty() =~= Seq::<A>::empty().push(x));
            },
        }
    } else {
        match p(s) {
            Err(e) => {},
            Ok((x0, k0)) => {
                let t = s.skip(k0);
                lemma_parse_many_step(p, t, (n - 1) as nat);
                lemma_parse_many_consumed(p, t, (n - 1) as nat);
                assert(parse_many(p, s, n + 1) == match parse_many(p, t, n) {
                    Err(e) => Err(e),
                    Ok((xs, m)) => Ok((seq![x0] + xs, k0 + m)),
                });
                assert(parse_many(p, s, n) == match parse_many(p, t, (n - 1) as nat) {
                    Err(e) => Err(e),
                    Ok((xs, m)) => Ok((seq![x0] + xs, k0 + m)),
                });
                match parse_many(p, t, (n - 1) as nat) {
                    Err(e) => {},
                    Ok((xs1, k1)) => {
                        assert(t.skip(k1) =~= s.skip(k0 + k1));
                        match p(s.skip(k0 + k1)) {
                            Err(e) => {},
                            Ok((x, m)) => {
                                assert(seq![x0] + xs1.push(x) =~= (seq![x0] + xs1).push(x));
                            },
                        }
                    },
                }
            },
        }
    }
}

/// Reading back encodings gives the items back, when each item reads back
/// from its encoding whatever follows it.
pub proof fn lemma_many_roundtrip<A>(
    p: spec_fn(Seq<u8>) -> Parsed<A>,
    f: spec_fn(A) -> Seq<u8>,
    xs: Seq<A>,
    rest: Seq<u8>,
)
    requires
        forall|i: int, r: Seq<u8>|
            0 <= i < xs.len() ==> #[trigger] p(f(xs[i]) + r) == Ok::<(A, int), ErrorKind>(
                (xs[i], f(xs[i]).len() as int),
            ),
    ensures
        parse_many(p, concat_bytes(f, xs) + rest, xs.len()) == Ok::<(Seq<A>, int), ErrorKind>(
            (xs, concat_bytes(f, xs).len() as int),
        ),
    decreases xs.len(),
{
    if xs.len() > 0 {
        let tail = xs.drop_first();
        assert forall|i: int, r: Seq<u8>| 0 <= i < tail.len() implies #[trigger] p(f(tail[i]) + r)
            == Ok::<(A, int), ErrorKind>((tail[i], f(tail[i]).len() as int)) by {
            assert(tail[i] == xs[i + 1]);
        }
        lemma_many_roundtrip(p, f, tail, rest);
        assert(xs.map_values(f).drop_first() =~= tail.map_values(f));
        let s = concat_bytes(f, xs) + rest;
        assert(concat_bytes(f, xs) == f(xs[0]) + concat_bytes(f, tail));
        assert(s =~= f(xs[0]) + (concat_bytes(f, tail) + rest));
        assert(p(s) == Ok::<(A, int), ErrorKind>((xs[0], f(xs[0]).len() as int)));
        assert(s.skip(f(xs[0]).len() as int) =~= concat_bytes(f, tail) + rest);
        assert(seq![xs[0]] + tail =~= xs);
        assert(concat_bytes(f, xs).len() == f(xs[0]).len() + concat_bytes(f, tail).len());
    } else {
        assert(xs =~= Seq::<A>::empty());
        assert(xs.map_values(f) =~= Seq::<Seq<u8>>::empty());
        assert(concat_bytes(f, xs) =~= Seq::<u8>::empty());
    }
}

/// A byte string: its `u64` length, then its bytes. A length past
/// [`MAX_READ_BYTES`] or past the end of the input is corruption.
pub open spec fn parse_blob(s: Seq<u8>) -> Parsed<Seq<u8>> {
    match parse_u64(s) {
        Err(e) => Err(e),
        Ok((n, _)) => if n > MAX_READ_BYTES {
            Err(ErrorKind::Corruption)
        } else if s.len() - 8 < n {
            Err(ErrorKind::Corruption)
        } else {
            Ok((s.subrange(8, 8 + n), 8 + n))
        },
    }
}

/// A text: a byte string that must be valid UTF-8, else corruption.
pub open spec fn parse_text(s: Seq<u8>) -> Parsed<Seq<char>> {
    match parse_blob(s) {
        Err(e) => Err(e),
        Ok((b, n)) => if valid_utf8(b) {
            Ok((decode_utf8(b), n))
        } else {
            Err(ErrorKind::Corruption)
        },
    }
}

/// A flag: one byte, set unless zero.
pub open spec fn parse_bool(s: Seq<u8>) -> Parsed<bool> {
    match parse_u8(s) {
        Err(e) => Err(e),
        Ok((b, n)) => Ok((b != 0, n)),
    }
}

/// The encoding of a text.
pub open spec fn text_bytes(t: Seq<char>) -> Seq<u8> {
    bytes_field(encode_utf8(t))
}

/// The encoding of a value: a tag byte, then the payload.
pub open spec fn value_bytes(v: ValueModel) -> Seq<u8> {
    match v {
        ValueModel::Null => seq![TAG_NULL],
        ValueModel::Integer(i) => seq![TAG_INTEGER] + spec_u64_to_le_bytes(i as u64),
        ValueModel::Float(b) => seq![TAG_FLOAT] + spec_u64_to_le_bytes(b),
        ValueModel::Text(t) => seq![TAG_TEXT] + text_bytes(t),
        ValueModel::Blob(b) => seq![TAG_BLOB] + bytes_field(b),
        ValueModel::Boolean(b) => seq![TAG_BOOLEAN, if b { 1u8 } else { 0u8 }],
    }
}

/// A value. An unknown tag is corruption; a double that is not finite is a
/// type mismatch.
pub open spec fn parse_value(s: Seq<u8>) -> Parsed<ValueModel> {
    match parse_u8(s) {
        Err(e) => Err(e),
        Ok((tag, _)) => {
            let t = s.skip(1);
            if tag == TAG_NULL {
                Ok((ValueModel::Null, 1))
            } else if tag == TAG_INTEGER {
                match parse_u64(t) {
                    Err(e) => Err(e),
                    Ok((x, n)) => Ok((ValueModel::Integer(x as i64), n + 1)),
                }
            } else if tag == TAG_FLOAT {
                match parse_u64(t) {
                    Err(e) => Err(e),
                    Ok((x, n)) => if is_finite_bits(x) {
                        Ok((ValueModel::Float(x), n + 1))
                    } else {
                        Err(ErrorKind::TypeMismatch)
                    },
                }
            } else if tag == TAG_TEXT {
                match parse_text(t) {
                    Err(e) => Err(e),
                    Ok((x, n)) => Ok((ValueModel::Text(x), n + 1)),
                }
            } else if tag == TAG_BLOB {
                match parse_blob(t) {
                    Err(e) => Err(e),
                    Ok((x, n)) => Ok((ValueModel::Blob(x), n + 1)),
                }
            } else if tag == TAG_BOOLEAN {
                match parse_bool(t) {
                    Err(e) => Err(e),
                    Ok((x, n)) => Ok((ValueModel::Boolean(x), n + 1)),
                }
            } else {
                Err(ErrorKind::Corruption)
            }
        },
    }
}

/// A value that reads back from its encoding: a finite double, and a text
/// or blob of at most [`MAX_READ_BYTES`] bytes.
pub open spec fn encodable(v: ValueModel) -> bool {
    match v {
        ValueModel::Float(b) => is_finite_bits(b),
        ValueModel::Text(t) => encode_utf8(t).len() <= MAX_READ_BYTES,
        ValueModel::Blob(b) => b.len() <= MAX_READ_BYTES,
        _ => true,
    }
}

pub open spec fn value_parser() -> spec_fn(Seq<u8>) -> Parsed<ValueModel> {
    |s: Seq<u8>| parse_value(s)
}

pub open spec fn value_encoder() -> spec_fn(ValueModel) -> Seq<u8> {
    |v: ValueModel| value_bytes(v)
}

/// A row: its `u32` count of values, then the values. More than
/// [`MAX_DECODED_ITEMS`] values is corruption.
pub open spec fn parse_row(s: Seq<u8>) -> Parsed<Seq<ValueModel>> {
    match parse_u32(s) {
        Err(e) => Err(e),
        Ok((n, _)) => if n > MAX_DECODED_ITEMS {
            Err(ErrorKind::Corruption)
        } else {
            shifted(parse_many(value_parser(), s.skip(4), n as nat), 4)
        },
    }
}

/// The encoding of a row.
pub open spec fn row_bytes(vs: Seq<ValueModel>) -> Seq<u8> {
    spec_u32_to_le_bytes(vs.len() as u32) + concat_bytes(value_encoder(), vs)
}

proof fn lemma_i64_u64(i: i64)
    ensures
        (i as u64) as i64 == i,
{
    assert((i as u64) as i64 == i) by (bit_vector);
}

pub proof fn lemma_blob_roundtrip(b: Seq<u8>, rest: Seq<u8>)
    requires
        b.len() <= MAX_READ_BYTES,
    ensures
        parse_blob(bytes_field(b) + rest) == Ok::<(Seq<u8>, int), ErrorKind>((b, bytes_field(b).len() as int)),
        bytes_field(b).len() == 8 + b.len(),
{
    lemma_auto_spec_u64_to_from_le_bytes();
    let s = bytes_field(b) + rest;
    assert(s.subrange(0, 8) =~= spec_u64_to_le_bytes(b.len() as u64));
    assert(s.subrange(8, 8 + b.len() as int) =~= b);
}

/// Reading back the encoding of a value gives the value, whatever follows.
pub proof fn lemma_value_roundtrip(v: ValueModel, rest: Seq<u8>)
    requires
        encodable(v),
    ensures
        parse_value(value_bytes(v) + rest) == Ok::<(ValueModel, int), ErrorKind>(
            (v, value_bytes(v).len() as int),
        ),
{
    lemma_auto_spec_u64_to_from_le_bytes();
    let s = value_bytes(v) + rest;
    let t = s.skip(1);
    match v {
        ValueModel::Null => {},
        ValueModel::Integer(i) => {
            lemma_i64_u64(i);
            assert(t.subrange(0, 8) =~= spec_u64_to_le_bytes(i as u64));
        },
        ValueModel::Float(b) => {
            assert(t.subrange(0, 8) =~= spec_u64_to_le_bytes(b));
        },
        ValueModel::Text(x) => {
            assert(t =~= text_bytes(x) + rest);
            lemma_blob_roundtrip(encode_utf8(x), rest);
            vstd::utf8::encode_utf8_valid_utf8(x);
            vstd::utf8::encode_utf8_decode_utf8(x);
        },
        ValueModel::Blob(b) => {
            assert(t =~= bytes_field(b) + rest);
            lemma_blob_roundtrip(b, rest);
        },
        ValueModel::Boolean(b) => {},
    }
}


/// What is left after a reader moved on by `n` bytes.
pub proof fn lemma_rest_skip(a: Reader, b: Reader, n: int)
    requires
        a.wf(),
        b.wf(),
        b.input() == a.input(),
        b.position() == a.position() + n,
        0 <= n,
    ensures
        b.rest() == a.rest().skip(n),
        n <= a.rest().len(),
{
    a.lemma_rest(0);
    b.lemma_rest(0);
    a.lemma_rest(n);
    assert(b.rest() =~= a.rest().skip(n));
}

/// The encodings of `xs` then that of `x`.
pub proof fn lemma_concat_push<A>(f: spec_fn(A) -> Seq<u8>, xs: Seq<A>, x: A)
    ensures
        concat_bytes(f, xs.push(x)) == concat_bytes(f, xs) + f(x),
{
    assert(xs.push(x).map_values(f) =~= xs.map_values(f).push(f(x)));
    xs.map_values(f).lemma_flatten_push(f(x));
}

/// Appends the encoding of a value.
pub fn encode_value(v: &Value, buf: &mut Vec<u8>)
    ensures
        final(buf)@ == old(buf)@ + value_bytes(v@),
{
    let ghost b0 = buf@;
    match v {
        Value::Null => {
            push_u8(buf, TAG_NULL);
            assert(buf@ =~= b0 + value_bytes(v@));
        },
        Value::Integer(i) => {
            push_u8(buf, TAG_INTEGER);
            push_u64(buf, i.as_i64() as u64);
            assert(buf@ =~= b0 + value_bytes(v@));
        },
        Value::Float(f) => {
            push_u8(buf, TAG_FLOAT);
            push_u64(buf, f.to_bits());
            assert(buf@ =~= b0 + value_bytes(v@));
        },
        Value::Text(t) => {
            push_u8(buf, TAG_TEXT);
            let bytes = t.as_bytes();
            push_u64(buf, bytes.len() as u64);
            push_bytes(buf, bytes);
            assert(buf@ =~= b0 + value_bytes(v@));
        },
        Value::Blob(bl) => {
            push_u8(buf, TAG_BLOB);
            let bytes = bl.as_slice();
            push_u64(buf, bytes.len() as u64);
            push_bytes(buf, bytes);
            assert(buf@ =~= b0 + value_bytes(v@));
        },
        Value::Boolean(b) => {
            push_u8(buf, TAG_BOOLEAN);
            push_u8(buf, if *b { 1u8 } else { 0u8 });
            assert(buf@ =~= b0 + value_bytes(v@));
        },
    }
}

/// Appends the encoding of a text.
pub fn encode_text(t: &str, buf: &mut Vec<u8>)
    ensures
        final(buf)@ == old(buf)@ + text_bytes(t@),
{
    let ghost b0 = buf@;
    let bytes = t.as_bytes();
    push_u64(buf, bytes.len() as u64);
    push_bytes(buf, bytes);
    assert(buf@ =~= b0 + text_bytes(t@));
}

/// Appends a flag: one for set, zero for clear.
pub fn encode_bool(b: bool, buf: &mut Vec<u8>)
    ensures
        final(buf)@ == old(buf)@.push(if b { 1u8 } else { 0u8 }),
{
    push_u8(buf, if b { 1u8 } else { 0u8 });
}

/// Reads a byte string (see [`parse_blob`]).
pub fn read_blob(r: &mut Reader) -> (res: Result<Vec<u8>, DbError>)
    requires
        old(r).wf(),
    ensures
        final(r).wf(),
        final(r).input() == old(r).input(),
        old(r).position() <= final(r).position(),
        match parse_blob(old(r).rest()) {
            Ok((v, n)) => (res matches Ok(x) && x@ == v && final(r).position() == old(r).position() + n),
            Err(k) => (res matches Err(e) && e.kind() == k),
        },
{
    let ghost r0 = *r;
    let len = r.read_u64()?;
    proof {
        lemma_rest_skip(r0, *r, 8);
    }
    if len > MAX_READ_BYTES as u64 {
        return Err(DbError::corruption("declared length exceeds maximum allowed"));
    }
    let remaining = r.remaining();
    if len > remaining as u64 {
        return Err(DbError::corruption("not enough bytes for declared length"));
    }
    let v = r.read_exact(len)?;
    proof {
        assert(r0.rest().subrange(8, 8 + len) =~= r0.rest().skip(8).subrange(0, len as int));
    }
    Ok(v)
}

/// Reads a text (see [`parse_text`]).
pub fn read_text(r: &mut Reader) -> (res: Result<String, DbError>)
    requires
        old(r).wf(),
    ensures
        final(r).wf(),
        final(r).input() == old(r).input(),
        old(r).position() <= final(r).position(),
        match parse_text(old(r).rest()) {
            Ok((v, n)) => (res matches Ok(x) && x@ == v && final(r).position() == old(r).position() + n),
            Err(k) => (res matches Err(e) && e.kind() == k),
        },
{
    let bytes = read_blob(r)?;
    match string_from_utf8(bytes) {
        Some(s) => Ok(s),
        None => Err(DbError::corruption("invalid UTF-8")),
    }
}

/// Reads a flag (see [`parse_bool`]).
pub fn read_bool(r: &mut Reader) -> (res: Result<bool, DbError>)
    requires
        old(r).wf(),
    ensures
        final(r).wf(),
        final(r).input() == old(r).input(),
        old(r).position() <= final(r).position(),
        match parse_bool(old(r).rest()) {
            Ok((v, n)) => (res matches Ok(x) && x == v && final(r).position() == old(r).position() + n),
            Err(k) => (res matches Err(e) && e.kind() == k),
        },
{
    let b = r.read_u8()?;
    Ok(b != 0)
}

/// Reads a value (see [`parse_value`]).
pub fn decode_value(r: &mut Reader) -> (res: Result<Value, DbError>)
    requires
        old(r).wf(),
    ensures
        final(r).wf(),
        final(r).input() == old(r).input(),
        old(r).position() <= final(r).position(),
        match parse_value(old(r).rest()) {
            Ok((v, n)) => (res matches Ok(x) && x@ == v && final(r).position() == old(r).position() + n),
            Err(k) => (res matches Err(e) && e.kind() == k),
        },
{
    let ghost r0 = *r;
    let tag = r.read_u8()?;
    proof {
        lemma_rest_skip(r0, *r, 1);
    }
    if tag == TAG_NULL {
        Ok(Value::Null)
    } else if tag == TAG_INTEGER {
        let x = r.read_u64()?;
        Ok(Value::Integer(Integer::new(x as i64)))
    } else if tag == TAG_FLOAT {
        let x = r.read_u64()?;
        let f = Float::try_from_bits(x)?;
        Ok(Value::Float(f))
    } else if tag == TAG_TEXT {
        let s = read_text(r)?;
        Ok(Value::Text(Text::new(s)))
    } else if tag == TAG_BLOB {
        let b = read_blob(r)?;
        Ok(Value::Blob(Blob::new(b)))
    } else if tag == TAG_BOOLEAN {
        let b = read_bool(r)?;
        Ok(Value::Boolean(b))
    } else {
        Err(DbError::corruption("invalid value tag"))
    }
}

pub proof fn lemma_value_parser_sane()
    ensures
        sane(value_parser()),
{
    assert forall|s: Seq<u8>| #[trigger] value_parser()(s) is Ok implies 0 <= (value_parser()(s)->Ok_0).1 <= s.len() by {
    }
}

/// Reads `n` values, one after another.
pub fn decode_values(r: &mut Reader, n: u32) -> (res: Result<Vec<Value>, DbError>)
    requires
        old(r).wf(),
    ensures
        final(r).wf(),
        final(r).input() == old(r).input(),
        old(r).position() <= final(r).position(),
        match parse_many(value_parser(), old(r).rest(), n as nat) {
            Ok((v, k)) => (res matches Ok(x) && models(x@) == v && final(r).position() == old(r).position() + k),
            Err(e) => (res matches Err(x) && x.kind() == e),
        },
{
    let ghost r0 = *r;
    let ghost s = r0.rest();
    proof {
        lemma_value_parser_sane();
    }
    let mut out: Vec<Value> = Vec::new();
    assert(models(out@) =~= Seq::<ValueModel>::empty());
    let mut i: u32 = 0;
    while i < n
        invariant
            r.wf(),
            r0.wf(),
            r0 == *old(r),
            r.input() == r0.input(),
            s == r0.rest(),
            sane(value_parser()),
            i <= n,
            parse_many(value_parser(), s, i as nat) == Ok::<(Seq<ValueModel>, int), ErrorKind>(
                (models(out@), r.position() - r0.position()),
            ),
            0 <= r.position() - r0.position() <= s.len(),
        decreases n - i,
    {
        let ghost r1 = *r;
        proof {
            lemma_rest_skip(r0, r1, r1.position() - r0.position());
            lemma_parse_many_step(value_parser(), s, i as nat);
        }
        let v = match decode_value(r) {
            Ok(v) => v,
            Err(e) => {
                proof {
                    lemma_parse_many_tail_err(value_parser(), s, (i + 1) as nat, n as nat);
                }
                return Err(e);
            },
        };
        proof {
            assert(models(out@.push(v)) =~= models(out@).push(v@));
        }
        out.push(v);
        i = i + 1;
    }
    Ok(out)
}

/// Once `i` items fail to read, so do `n >= i`.
pub proof fn lemma_parse_many_tail_err<A>(p: spec_fn(Seq<u8>) -> Parsed<A>, s: Seq<u8>, i: nat, n: nat)
    requires
        sane(p),
        i <= n,
        parse_many(p, s, i) is Err,
    ensures
        parse_many(p, s, n) == parse_many(p, s, i),
    decreases n - i,
{
    if i < n {
        lemma_parse_many_step(p, s, i);
        lemma_parse_many_tail_err(p, s, i + 1, n);
    }
}

/// Appends the encodings of the values, one after another.
pub fn encode_values(values: &[Value], buf: &mut Vec<u8>)
    ensures
        final(buf)@ == old(buf)@ + concat_bytes(value_encoder(), models(values@)),
{
    let ghost b0 = buf@;
    let mut i: usize = 0;
    while i < values.len()
        invariant
            i <= values@.len(),
            buf@ == b0 + concat_bytes(value_encoder(), models(values@.subrange(0, i as int))),
        decreases values@.len() - i,
    {
        encode_value(&values[i], buf);
        proof {
            assert(models(values@.subrange(0, i + 1)) =~= models(values@.subrange(0, i as int)).push(values@[i as int]@));
            lemma_concat_push(value_encoder(), models(values@.subrange(0, i as int)), values@[i as int]@);
        }
        i = i + 1;
    }
    assert(values@.subrange(0, i as int) =~= values@);
}

/// The encoding of a row; more values than a `u32` counts is an invalid
/// operation.
pub fn encode_row(row: &Row) -> (r: Result<Vec<u8>, DbError>)
    ensures
        r is Ok <==> row@.len() <= u32::MAX,
        r matches Ok(b) ==> b@ == row_bytes(row@),
        r matches Err(e) ==> e.kind() == ErrorKind::InvalidOperation,
{
    let values = row.values();
    if values.len() > u32::MAX as usize {
        return Err(DbError::invalid_operation("row too large"));
    }
    let mut buf: Vec<u8> = Vec::new();
    push_u32(&mut buf, values.len() as u32);
    encode_values(values, &mut buf);
    Ok(buf)
}

/// Reads a row (see [`parse_row`]).
pub fn read_row(r: &mut Reader) -> (res: Result<Row, DbError>)
    requires
        old(r).wf(),
    ensures
        final(r).wf(),
        final(r).input() == old(r).input(),
        old(r).position() <= final(r).position(),
        match parse_row(old(r).rest()) {
            Ok((v, n)) => (res matches Ok(x) && x@ == v && final(r).position() == old(r).position() + n),
            Err(k) => (res matches Err(e) && e.kind() == k),
        },
{
    let ghost r0 = *r;
    let n = r.read_u32()?;
    proof {
        lemma_rest_skip(r0, *r, 4);
    }
    if n > MAX_DECODED_ITEMS {
        return Err(DbError::corruption("too many values in row"));
    }
    let values = decode_values(r, n)?;
    Ok(Row::new(values))
}

/// The row encoded at the start of `data`; what follows it is ignored.
pub fn decode_row(data: &[u8]) -> (res: Result<Row, DbError>)
    ensures
        match parse_row(data@) {
            Ok((v, n)) => (res matches Ok(x) && x@ == v),
            Err(k) => (res matches Err(e) && e.kind() == k),
        },
{
    let mut r = Reader::new(data);
    read_row(&mut r)
}

/// Reading back the encoding of a row gives the row, whatever follows, when
/// it has at most [`MAX_DECODED_ITEMS`] values, each of them encodable.
pub proof fn lemma_row_roundtrip(vs: Seq<ValueModel>, rest: Seq<u8>)
    requires
        vs.len() <= MAX_DECODED_ITEMS,
        forall|i: int| 0 <= i < vs.len() ==> encodable(#[trigger] vs[i]),
    ensures
        parse_row(row_bytes(vs) + rest) == Ok::<(Seq<ValueModel>, int), ErrorKind>(
            (vs, row_bytes(vs).len() as int),
        ),
{
    lemma_auto_spec_u32_to_from_le_bytes();
    let s = row_bytes(vs) + rest;
    assert(s.subrange(0, 4) =~= spec_u32_to_le_bytes(vs.len() as u32));
    assert forall|i: int, r: Seq<u8>| 0 <= i < vs.len() implies #[trigger] value_parser()(
        value_encoder()(vs[i]) + r) == Ok::<(ValueModel, int), ErrorKind>(
        (vs[i], value_encoder()(vs[i]).len() as int),
    ) by {
        lemma_value_roundtrip(vs[i], r);
    }
    lemma_many_roundtrip(value_parser(), value_encoder(), vs, rest);
    assert(s.skip(4) =~= concat_bytes(value_encoder(), vs) + rest);
}

} // verus!
