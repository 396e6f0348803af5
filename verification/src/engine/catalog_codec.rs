use crate::codec::{parse_u32, parse_u64, parse_u8, push_u32, push_u64, push_u8, Parsed, Reader};
use crate::engine::wire::{
    concat_bytes, decode_value, decode_values, encode_bool, encode_text, encode_value, encode_values,
    lemma_rest_skip, parse_bool, parse_many, parse_text, parse_value, read_bool, read_text,
    text_bytes, value_bytes, value_encoder, value_parser, FORMAT_VERSION, MAX_DECODED_ITEMS,
    MAX_VEC_ELEMENTS,
};
use crate::error::{DbError, ErrorKind};
use crate::row::models;
use crate::engine::catalog::{
    catalog_map, has_table, lemma_entries_sorted, lemma_map_insert, lemma_map_update,
    lemma_position, lemma_sorted_unique, table_position, unique_names, Catalog,
};
use crate::engine::table::{Table, TableMeta};
use crate::schema::{column_models, schema_valid, SchemaModel, TableSchema, MAX_COLUMNS};
use crate::schema::{
    opt_check_model, opt_fk_model, opt_value_model, opt_values_model, CheckConstraint, CheckModel,
    ColumnDef, ColumnModel, ComparisonOp, DataType, ForeignKey, ForeignKeyModel,
};
use crate::value::{Value, ValueModel};
use vstd::bytes::*;
use vstd::prelude::*;

verus! {

/// The byte that stands for a data type.
pub open spec fn type_tag(t: DataType) -> u8 {
    match t {
        DataType::Null => 0,
        DataType::Integer => 1,
        DataType::Float => 2,
        DataType::Text => 3,
        DataType::Blob => 4,
        DataType::Boolean => 5,
    }
}

/// The byte that stands for a comparison operator.
pub open spec fn op_tag(op: ComparisonOp) -> u8 {
    match op {
        ComparisonOp::Eq => 0,
        ComparisonOp::NotEq => 1,
        ComparisonOp::Lt => 2,
        ComparisonOp::Lte => 3,
        ComparisonOp::Gt => 4,
        ComparisonOp::Gte => 5,
    }
}

pub open spec fn flag_byte(b: bool) -> u8 {
    if b {
        1u8
    } else {
        0u8
    }
}

/// A data type; an unknown tag is corruption.
pub open spec fn parse_data_type(s: Seq<u8>) -> Parsed<DataType> {
    match parse_u8(s) {
        Err(e) => Err(e),
        Ok((t, n)) => if t == 0 {
            Ok((DataType::Null, n))
        } else if t == 1 {
            Ok((DataType::Integer, n))
        } else if t == 2 {
            Ok((DataType::Float, n))
        } else if t == 3 {
            Ok((DataType::Text, n))
        } else if t == 4 {
            Ok((DataType::Blob, n))
        } else if t == 5 {
            Ok((DataType::Boolean, n))
        } else {
            Err(ErrorKind::Corruption)
        },
    }
}

/// A comparison operator; an unknown tag is corruption.
pub open spec fn parse_op(s: Seq<u8>) -> Parsed<ComparisonOp> {
    match parse_u8(s) {
        Err(e) => Err(e),
        Ok((t, n)) => if t == 0 {
            Ok((ComparisonOp::Eq, n))
        } else if t == 1 {
            Ok((ComparisonOp::NotEq, n))
        } else if t == 2 {
            Ok((ComparisonOp::Lt, n))
        } else if t == 3 {
            Ok((ComparisonOp::Lte, n))
        } else if t == 4 {
            Ok((ComparisonOp::Gt, n))
        } else if t == 5 {
            Ok((ComparisonOp::Gte, n))
        } else {
            Err(ErrorKind::Corruption)
        },
    }
}

/// An optional item: a flag, then the item if the flag is set.
#[verifier::opaque]
pub open spec fn parse_opt<A>(p: spec_fn(Seq<u8>) -> Parsed<A>, s: Seq<u8>) -> Parsed<Option<A>> {
    match parse_bool(s) {
        Err(e) => Err(e),
        Ok((present, n)) => if !present {
            Ok((None, n))
        } else {
            match p(s.skip(n)) {
                Err(e) => Err(e),
                Ok((x, k)) => Ok((Some(x), n + k)),
            }
        },
    }
}

/// The encoding of an optional item.
#[verifier::opaque]
pub open spec fn opt_bytes<A>(f: spec_fn(A) -> Seq<u8>, o: Option<A>) -> Seq<u8> {
    match o {
        Some(x) => seq![1u8] + f(x),
        None => seq![0u8],
    }
}

/// A check constraint: its column's name, its operator, its value.
pub open spec fn parse_check(s: Seq<u8>) -> Parsed<CheckModel> {
    match parse_text(s) {
        Err(e) => Err(e),
        Ok((column, n1)) => match parse_op(s.skip(n1)) {
            Err(e) => Err(e),
            Ok((op, n2)) => match parse_value(s.skip(n1 + n2)) {
                Err(e) => Err(e),
                Ok((value, n3)) => Ok((CheckModel { column, op, value }, n1 + n2 + n3)),
            },
        },
    }
}

pub open spec fn check_bytes(c: CheckModel) -> Seq<u8> {
    text_bytes(c.column) + seq![op_tag(c.op)] + value_bytes(c.value)
}

/// A foreign key: the table's name, then the column's.
pub open spec fn parse_fk(s: Seq<u8>) -> Parsed<ForeignKeyModel> {
    match parse_text(s) {
        Err(e) => Err(e),
        Ok((table, n1)) => match parse_text(s.skip(n1)) {
            Err(e) => Err(e),
            Ok((column, n2)) => Ok((ForeignKeyModel { table, column }, n1 + n2)),
        },
    }
}

pub open spec fn fk_bytes(f: ForeignKeyModel) -> Seq<u8> {
    text_bytes(f.table) + text_bytes(f.column)
}

/// A list of values: its `u32` count, then the values. More than
/// [`MAX_VEC_ELEMENTS`] is corruption.
pub open spec fn parse_list(s: Seq<u8>) -> Parsed<Seq<ValueModel>> {
    match parse_u32(s) {
        Err(e) => Err(e),
        Ok((n, k)) => if n > MAX_VEC_ELEMENTS {
            Err(ErrorKind::Corruption)
        } else {
            match parse_many(value_parser(), s.skip(4), n as nat) {
                Err(e) => Err(e),
                Ok((vs, m)) => Ok((vs, m + 4)),
            }
        },
    }
}

pub open spec fn list_bytes(vs: Seq<ValueModel>) -> Seq<u8> {
    spec_u32_to_le_bytes(vs.len() as u32) + concat_bytes(value_encoder(), vs)
}

pub open spec fn check_encoder() -> spec_fn(CheckModel) -> Seq<u8> {
    |x: CheckModel| check_bytes(x)
}

pub open spec fn fk_encoder() -> spec_fn(ForeignKeyModel) -> Seq<u8> {
    |x: ForeignKeyModel| fk_bytes(x)
}

pub open spec fn list_encoder() -> spec_fn(Seq<ValueModel>) -> Seq<u8> {
    |x: Seq<ValueModel>| list_bytes(x)
}

pub open spec fn check_parser() -> spec_fn(Seq<u8>) -> Parsed<CheckModel> {
    |s: Seq<u8>| parse_check(s)
}

pub open spec fn fk_parser() -> spec_fn(Seq<u8>) -> Parsed<ForeignKeyModel> {
    |s: Seq<u8>| parse_fk(s)
}

pub open spec fn list_parser() -> spec_fn(Seq<u8>) -> Parsed<Seq<ValueModel>> {
    |s: Seq<u8>| parse_list(s)
}

/// The head of a column definition: its name, its type and its three flags
/// (nullable, primary key, unique).
pub open spec fn parse_head(s: Seq<u8>) -> Parsed<(Seq<char>, DataType, bool, bool, bool)> {
    match parse_text(s) {
        Err(e) => Err(e),
        Ok((name, n1)) => match parse_data_type(s.skip(n1)) {
            Err(e) => Err(e),
            Ok((data_type, n2)) => match parse_bool(s.skip(n1 + n2)) {
                Err(e) => Err(e),
                Ok((nullable, n3)) => match parse_bool(s.skip(n1 + n2 + n3)) {
                    Err(e) => Err(e),
                    Ok((primary_key, n4)) => match parse_bool(s.skip(n1 + n2 + n3 + n4)) {
                        Err(e) => Err(e),
                        Ok((unique, n5)) => Ok(
                            ((name, data_type, nullable, primary_key, unique), n1 + n2 + n3 + n4 + n5),
                        ),
                    },
                },
            },
        },
    }
}

/// The rest of a column definition: its optional default value, check
/// constraint, foreign key and list of allowed values.
pub open spec fn parse_extras(s: Seq<u8>) -> Parsed<
    (Option<ValueModel>, Option<CheckModel>, Option<ForeignKeyModel>, Option<Seq<ValueModel>>),
> {
    match parse_opt(value_parser(), s) {
        Err(e) => Err(e),
        Ok((d, n1)) => match parse_opt(check_parser(), s.skip(n1)) {
            Err(e) => Err(e),
            Ok((c, n2)) => match parse_opt(fk_parser(), s.skip(n1 + n2)) {
                Err(e) => Err(e),
                Ok((f, n3)) => match parse_opt(list_parser(), s.skip(n1 + n2 + n3)) {
                    Err(e) => Err(e),
                    Ok((a, n4)) => Ok(((d, c, f, a), n1 + n2 + n3 + n4)),
                },
            },
        },
    }
}

/// A column definition: its head (see [`parse_head`]), then its extras
/// (see [`parse_extras`]).
pub open spec fn parse_column(s: Seq<u8>) -> Parsed<ColumnModel> {
    match parse_head(s) {
        Err(e) => Err(e),
        Ok((h, n)) => match parse_extras(s.skip(n)) {
            Err(e) => Err(e),
            Ok((x, m)) => Ok(
                (
                    ColumnModel {
                        name: h.0,
                        data_type: h.1,
                        nullable: h.2,
                        primary_key: h.3,
                        unique: h.4,
                        default_value: x.0,
                        check: x.1,
                        foreign_key: x.2,
                        allowed_values: x.3,
                    },
                    n + m,
                ),
            ),
        },
    }
}

/// The encoding of a column definition's head.
pub open spec fn head_bytes(c: ColumnModel) -> Seq<u8> {
    text_bytes(c.name) + seq![
        type_tag(c.data_type),
        flag_byte(c.nullable),
        flag_byte(c.primary_key),
        flag_byte(c.unique),
    ]
}

/// The encoding of a column definition's extras.
pub open spec fn extras_bytes(c: ColumnModel) -> Seq<u8> {
    opt_bytes(value_encoder(), c.default_value) + opt_bytes(check_encoder(), c.check)
        + opt_bytes(fk_encoder(), c.foreign_key) + opt_bytes(
        list_encoder(),
        c.allowed_values,
    )
}

/// The encoding of a column definition.
pub open spec fn column_bytes(c: ColumnModel) -> Seq<u8> {
    head_bytes(c) + extras_bytes(c)
}

fn encode_data_type(t: DataType, buf: &mut Vec<u8>)
    ensures
        final(buf)@ == old(buf)@.push(type_tag(t)),
{
    let tag: u8 = match t {
        DataType::Null => 0,
        DataType::Integer => 1,
        DataType::Float => 2,
        DataType::Text => 3,
        DataType::Blob => 4,
        DataType::Boolean => 5,
    };
    push_u8(buf, tag);
}

fn decode_data_type(r: &mut Reader) -> (res: Result<DataType, DbError>)
    requires
        old(r).wf(),
    ensures
        final(r).wf(),
        final(r).input() == old(r).input(),
        old(r).position() <= final(r).position(),
        match parse_data_type(old(r).rest()) {
            Ok((v, n)) => (res matches Ok(x) && x == v && final(r).position() == old(r).position() + n),
            Err(k) => (res matches Err(e) && e.kind() == k),
        },
{
    let t = r.read_u8()?;
    match t {
        0 => Ok(DataType::Null),
        1 => Ok(DataType::Integer),
        2 => Ok(DataType::Float),
        3 => Ok(DataType::Text),
        4 => Ok(DataType::Blob),
        5 => Ok(DataType::Boolean),
        _ => Err(DbError::corruption("invalid data type tag")),
    }
}

fn decode_op(r: &mut Reader) -> (res: Result<ComparisonOp, DbError>)
    requires
        old(r).wf(),
    ensures
        final(r).wf(),
        final(r).input() == old(r).input(),
        old(r).position() <= final(r).position(),
        match parse_op(old(r).rest()) {
            Ok((v, n)) => (res matches Ok(x) && x == v && final(r).position() == old(r).position() + n),
            Err(k) => (res matches Err(e) && e.kind() == k),
        },
{
    let t = r.read_u8()?;
    match t {
        0 => Ok(ComparisonOp::Eq),
        1 => Ok(ComparisonOp::NotEq),
        2 => Ok(ComparisonOp::Lt),
        3 => Ok(ComparisonOp::Lte),
        4 => Ok(ComparisonOp::Gt),
        5 => Ok(ComparisonOp::Gte),
        _ => Err(DbError::corruption("invalid comparison op tag")),
    }
}


/// Result agreement of a decoder with its parser, with `m` mapping the
/// decoded value to the parser's model.
fn decode_check(r: &mut Reader) -> (res: Result<CheckConstraint, DbError>)
    requires
        old(r).wf(),
    ensures
        final(r).wf(),
        final(r).input() == old(r).input(),
        old(r).position() <= final(r).position(),
        match parse_check(old(r).rest()) {
            Ok((v, n)) => (res matches Ok(x) && x@ == v && final(r).position() == old(r).position() + n),
            Err(k) => (res matches Err(e) && e.kind() == k),
        },
{
    let ghost r0 = *r;
    let column = read_text(r)?;
    let ghost r1 = *r;
    proof {
        lemma_rest_skip(r0, r1, r1.position() - r0.position());
    }
    let op = decode_op(r)?;
    let ghost r2 = *r;
    proof {
        lemma_rest_skip(r0, r2, r2.position() - r0.position());
    }
    let value = decode_value(r)?;
    Ok(CheckConstraint { column, op, value })
}

fn decode_fk(r: &mut Reader) -> (res: Result<ForeignKey, DbError>)
    requires
        old(r).wf(),
    ensures
        final(r).wf(),
        final(r).input() == old(r).input(),
        old(r).position() <= final(r).position(),
        match parse_fk(old(r).rest()) {
            Ok((v, n)) => (res matches Ok(x) && x@ == v && final(r).position() == old(r).position() + n),
            Err(k) => (res matches Err(e) && e.kind() == k),
        },
{
    let ghost r0 = *r;
    let table = read_text(r)?;
    let ghost r1 = *r;
    proof {
        lemma_rest_skip(r0, r1, r1.position() - r0.position());
    }
    let column = read_text(r)?;
    Ok(ForeignKey { table, column })
}

fn decode_list(r: &mut Reader) -> (res: Result<Vec<Value>, DbError>)
    requires
        old(r).wf(),
    ensures
        final(r).wf(),
        final(r).input() == old(r).input(),
        old(r).position() <= final(r).position(),
        match parse_list(old(r).rest()) {
            Ok((v, n)) => (res matches Ok(x) && models(x@) == v && final(r).position() == old(r).position() + n),
            Err(k) => (res matches Err(e) && e.kind() == k),
        },
{
    let ghost r0 = *r;
    let n = r.read_u32()?;
    proof {
        lemma_rest_skip(r0, *r, 4);
    }
    if n as usize > MAX_VEC_ELEMENTS {
        return Err(DbError::corruption("vector too large"));
    }
    decode_values(r, n)
}

fn decode_opt_value(r: &mut Reader) -> (res: Result<Option<Value>, DbError>)
    requires
        old(r).wf(),
    ensures
        final(r).wf(),
        final(r).input() == old(r).input(),
        old(r).position() <= final(r).position(),
        match parse_opt(value_parser(), old(r).rest()) {
            Ok((v, n)) => (res matches Ok(x) && opt_value_model(x) == v && final(r).position()
                == old(r).position() + n),
            Err(k) => (res matches Err(e) && e.kind() == k),
        },
{
    reveal(parse_opt);
    let ghost r0 = *r;
    let present = read_bool(r)?;
    if !present {
        return Ok(None);
    }
    proof {
        lemma_rest_skip(r0, *r, 1);
    }
    let v = decode_value(r)?;
    Ok(Some(v))
}

fn decode_opt_check(r: &mut Reader) -> (res: Result<Option<CheckConstraint>, DbError>)
    requires
        old(r).wf(),
    ensures
        final(r).wf(),
        final(r).input() == old(r).input(),
        old(r).position() <= final(r).position(),
        match parse_opt(check_parser(), old(r).rest()) {
            Ok((v, n)) => (res matches Ok(x) && opt_check_model(x) == v && final(r).position()
                == old(r).position() + n),
            Err(k) => (res matches Err(e) && e.kind() == k),
        },
{
    reveal(parse_opt);
    let ghost r0 = *r;
    let present = read_bool(r)?;
    if !present {
        return Ok(None);
    }
    proof {
        lemma_rest_skip(r0, *r, 1);
    }
    let v = decode_check(r)?;
    Ok(Some(v))
}

fn decode_opt_fk(r: &mut Reader) -> (res: Result<Option<ForeignKey>, DbError>)
    requires
        old(r).wf(),
    ensures
        final(r).wf(),
        final(r).input() == old(r).input(),
        old(r).position() <= final(r).position(),
        match parse_opt(fk_parser(), old(r).rest()) {
            Ok((v, n)) => (res matches Ok(x) && opt_fk_model(x) == v && final(r).position()
                == old(r).position() + n),
            Err(k) => (res matches Err(e) && e.kind() == k),
        },
{
    reveal(parse_opt);
    let ghost r0 = *r;
    let present = read_bool(r)?;
    if !present {
        return Ok(None);
    }
    proof {
        lemma_rest_skip(r0, *r, 1);
    }
    let v = decode_fk(r)?;
    Ok(Some(v))
}

fn decode_opt_list(r: &mut Reader) -> (res: Result<Option<Vec<Value>>, DbError>)
    requires
        old(r).wf(),
    ensures
        final(r).wf(),
        final(r).input() == old(r).input(),
        old(r).position() <= final(r).position(),
        match parse_opt(list_parser(), old(r).rest()) {
            Ok((v, n)) => (res matches Ok(x) && opt_values_model(x) == v && final(r).position()
                == old(r).position() + n),
            Err(k) => (res matches Err(e) && e.kind() == k),
        },
{
    reveal(parse_opt);
    let ghost r0 = *r;
    let present = read_bool(r)?;
    if !present {
        return Ok(None);
    }
    proof {
        lemma_rest_skip(r0, *r, 1);
    }
    let v = decode_list(r)?;
    Ok(Some(v))
}

fn decode_head(r: &mut Reader) -> (res: Result<(String, DataType, bool, bool, bool), DbError>)
    requires
        old(r).wf(),
    ensures
        final(r).wf(),
        final(r).input() == old(r).input(),
        old(r).position() <= final(r).position(),
        match parse_head(old(r).rest()) {
            Ok((v, n)) => (res matches Ok(x) && x.0@ == v.0 && x.1 == v.1 && x.2 == v.2 && x.3 == v.3
                && x.4 == v.4 && final(r).position() == old(r).position() + n),
            Err(k) => (res matches Err(e) && e.kind() == k),
        },
{
    let ghost r0 = *r;
    let name = read_text(r)?;
    let ghost r1 = *r;
    proof {
        lemma_rest_skip(r0, r1, r1.position() - r0.position());
    }
    let data_type = decode_data_type(r)?;
    let ghost r2 = *r;
    proof {
        lemma_rest_skip(r0, r2, r2.position() - r0.position());
    }
    let nullable = read_bool(r)?;
    let ghost r3 = *r;
    proof {
        lemma_rest_skip(r0, r3, r3.position() - r0.position());
    }
    let primary_key = read_bool(r)?;
    let ghost r4 = *r;
    proof {
        lemma_rest_skip(r0, r4, r4.position() - r0.position());
    }
    let unique = read_bool(r)?;
    Ok((name, data_type, nullable, primary_key, unique))
}

fn decode_extras(r: &mut Reader) -> (res: Result<
    (Option<Value>, Option<CheckConstraint>, Option<ForeignKey>, Option<Vec<Value>>),
    DbError,
>)
    requires
        old(r).wf(),
    ensures
        final(r).wf(),
        final(r).input() == old(r).input(),
        old(r).position() <= final(r).position(),
        match parse_extras(old(r).rest()) {
            Ok((v, n)) => (res matches Ok(x) && opt_value_model(x.0) == v.0 && opt_check_model(x.1)
                == v.1 && opt_fk_model(x.2) == v.2 && opt_values_model(x.3) == v.3
                && final(r).position() == old(r).position() + n),
            Err(k) => (res matches Err(e) && e.kind() == k),
        },
{
    let ghost r0 = *r;
    let d = decode_opt_value(r)?;
    let ghost r1 = *r;
    proof {
        lemma_rest_skip(r0, r1, r1.position() - r0.position());
    }
    let c = decode_opt_check(r)?;
    let ghost r2 = *r;
    proof {
        lemma_rest_skip(r0, r2, r2.position() - r0.position());
    }
    let f = decode_opt_fk(r)?;
    let ghost r3 = *r;
    proof {
        lemma_rest_skip(r0, r3, r3.position() - r0.position());
    }
    let a = decode_opt_list(r)?;
    Ok((d, c, f, a))
}

/// Reads a column definition (see [`parse_column`]).
pub fn decode_column(r: &mut Reader) -> (res: Result<ColumnDef, DbError>)
    requires
        old(r).wf(),
    ensures
        final(r).wf(),
        final(r).input() == old(r).input(),
        old(r).position() <= final(r).position(),
        match parse_column(old(r).rest()) {
            Ok((v, n)) => (res matches Ok(x) && x@ == v && final(r).position() == old(r).position() + n),
            Err(k) => (res matches Err(e) && e.kind() == k),
        },
{
    let ghost r0 = *r;
    let (name, data_type, nullable, primary_key, unique) = decode_head(r)?;
    let ghost r1 = *r;
    proof {
        lemma_rest_skip(r0, r1, r1.position() - r0.position());
    }
    let (d, c, f, a) = decode_extras(r)?;
    let mut col = ColumnDef::new(name.as_str(), data_type);
    col.set_flags_raw(nullable, primary_key, unique);
    col.set_default(d);
    col.set_check(c);
    col.set_foreign_key(f);
    col.set_allowed_values(a);
    Ok(col)
}


fn encode_check(c: &CheckConstraint, buf: &mut Vec<u8>)
    ensures
        final(buf)@ == old(buf)@ + check_bytes(c@),
{
    let ghost b0 = buf@;
    encode_text(c.column.as_str(), buf);
    let tag: u8 = match c.op {
        ComparisonOp::Eq => 0,
        ComparisonOp::NotEq => 1,
        ComparisonOp::Lt => 2,
        ComparisonOp::Lte => 3,
        ComparisonOp::Gt => 4,
        ComparisonOp::Gte => 5,
    };
    push_u8(buf, tag);
    encode_value(&c.value, buf);
    assert(buf@ =~= b0 + check_bytes(c@));
}

fn encode_fk(f: &ForeignKey, buf: &mut Vec<u8>)
    ensures
        final(buf)@ == old(buf)@ + fk_bytes(f@),
{
    let ghost b0 = buf@;
    encode_text(f.table.as_str(), buf);
    encode_text(f.column.as_str(), buf);
    assert(buf@ =~= b0 + fk_bytes(f@));
}

fn encode_list(vs: &Vec<Value>, buf: &mut Vec<u8>) -> (r: Result<(), DbError>)
    ensures
        r is Ok <==> vs@.len() <= u32::MAX,
        r is Ok ==> final(buf)@ == old(buf)@ + list_bytes(models(vs@)),
        r is Err ==> final(buf)@ == old(buf)@,
        r matches Err(e) ==> e.kind() == ErrorKind::InvalidOperation,
{
    if vs.len() > u32::MAX as usize {
        return Err(DbError::invalid_operation("too many elements"));
    }
    let ghost b0 = buf@;
    push_u32(buf, vs.len() as u32);
    encode_values(vs.as_slice(), buf);
    assert(buf@ =~= b0 + list_bytes(models(vs@)));
    Ok(())
}

fn encode_head(c: &ColumnDef, buf: &mut Vec<u8>)
    ensures
        final(buf)@ == old(buf)@ + head_bytes(c@),
{
    let ghost b0 = buf@;
    encode_text(c.name(), buf);
    encode_data_type(*c.data_type(), buf);
    encode_bool(c.is_nullable(), buf);
    encode_bool(c.is_primary_key(), buf);
    encode_bool(c.is_unique(), buf);
    assert(buf@ =~= b0 + head_bytes(c@));
}

fn encode_opt_value(o: Option<&Value>, buf: &mut Vec<u8>)
    ensures
        final(buf)@ == old(buf)@ + opt_bytes(value_encoder(), match o {
            Some(v) => Some(v@),
            None => None,
        }),
{
    reveal(opt_bytes);
    let ghost b0 = buf@;
    match o {
        Some(v) => {
            encode_bool(true, buf);
            encode_value(v, buf);
        },
        None => {
            encode_bool(false, buf);
        },
    }
    assert(buf@ =~= b0 + opt_bytes(value_encoder(), match o {
        Some(v) => Some(v@),
        None => None,
    }));
}

fn encode_opt_check(o: Option<&CheckConstraint>, buf: &mut Vec<u8>)
    ensures
        final(buf)@ == old(buf)@ + opt_bytes(check_encoder(), match o {
            Some(v) => Some(v@),
            None => None,
        }),
{
    reveal(opt_bytes);
    let ghost b0 = buf@;
    match o {
        Some(v) => {
            encode_bool(true, buf);
            encode_check(v, buf);
        },
        None => {
            encode_bool(false, buf);
        },
    }
    assert(buf@ =~= b0 + opt_bytes(check_encoder(), match o {
        Some(v) => Some(v@),
        None => None,
    }));
}

fn encode_opt_fk(o: Option<&ForeignKey>, buf: &mut Vec<u8>)
    ensures
        final(buf)@ == old(buf)@ + opt_bytes(fk_encoder(), match o {
            Some(v) => Some(v@),
            None => None,
        }),
{
    reveal(opt_bytes);
    let ghost b0 = buf@;
    match o {
        Some(v) => {
            encode_bool(true, buf);
            encode_fk(v, buf);
        },
        None => {
            encode_bool(false, buf);
        },
    }
    assert(buf@ =~= b0 + opt_bytes(fk_encoder(), match o {
        Some(v) => Some(v@),
        None => None,
    }));
}

fn encode_opt_list(o: Option<&Vec<Value>>, buf: &mut Vec<u8>) -> (r: Result<(), DbError>)
    ensures
        r is Ok <==> (o matches Some(l) ==> l@.len() <= u32::MAX),
        r is Ok ==> final(buf)@ == old(buf)@ + opt_bytes(list_encoder(), match o {
            Some(v) => Some(models(v@)),
            None => None,
        }),
        r matches Err(e) ==> e.kind() == ErrorKind::InvalidOperation,
{
    reveal(opt_bytes);
    let ghost b0 = buf@;
    match o {
        Some(v) => {
            if v.len() > u32::MAX as usize {
                return Err(DbError::invalid_operation("too many elements"));
            }
            encode_bool(true, buf);
            encode_list(v, buf)?;
        },
        None => {
            encode_bool(false, buf);
        },
    }
    assert(buf@ =~= b0 + opt_bytes(list_encoder(), match o {
        Some(v) => Some(models(v@)),
        None => None,
    }));
    Ok(())
}

/// Appends the encoding of a column definition; an allowed-values list
/// longer than a `u32` counts is an invalid operation.
pub fn encode_column(c: &ColumnDef, buf: &mut Vec<u8>) -> (r: Result<(), DbError>)
    ensures
        r is Ok <==> (c@.allowed_values matches Some(l) ==> l.len() <= u32::MAX),
        r is Ok ==> final(buf)@ == old(buf)@ + column_bytes(c@),
        r matches Err(e) ==> e.kind() == ErrorKind::InvalidOperation,
{
    let ghost b0 = buf@;
    encode_head(c, buf);
    let ghost b1 = buf@;
    let d = c.default_value();
    assert((match d {
        Some(v) => Some(v@),
        None => None,
    }) == c@.default_value);
    encode_opt_value(d, buf);
    let ghost b2 = buf@;
    let k = c.check_constraint();
    assert((match k {
        Some(v) => Some(v@),
        None => None,
    }) == c@.check);
    encode_opt_check(k, buf);
    let ghost b3 = buf@;
    let f = c.foreign_key();
    assert((match f {
        Some(v) => Some(v@),
        None => None,
    }) == c@.foreign_key);
    encode_opt_fk(f, buf);
    let ghost b4 = buf@;
    let a = c.allowed_values();
    assert((match a {
        Some(v) => Some(models(v@)),
        None => None,
    }) == c@.allowed_values);
    encode_opt_list(a, buf)?;
    proof {
        let x1 = opt_bytes(value_encoder(), c@.default_value);
        let x2 = opt_bytes(check_encoder(), c@.check);
        let x3 = opt_bytes(fk_encoder(), c@.foreign_key);
        let x4 = opt_bytes(list_encoder(), c@.allowed_values);
        assert(b2 == b1 + x1);
        assert(b3 == b2 + x2);
        assert(b4 == b3 + x3);
        assert(buf@ == b4 + x4);
        assert(extras_bytes(c@) == x1 + x2 + x3 + x4);
        assert(buf@ =~= b1 + (x1 + x2 + x3 + x4));
        assert(b1 == b0 + head_bytes(c@));
        assert(buf@ =~= b0 + (head_bytes(c@) + extras_bytes(c@)));
    }
    Ok(())
}


pub open spec fn column_parser() -> spec_fn(Seq<u8>) -> Parsed<ColumnModel> {
    |s: Seq<u8>| parse_column(s)
}

pub open spec fn column_encoder() -> spec_fn(ColumnModel) -> Seq<u8> {
    |c: ColumnModel| column_bytes(c)
}

/// A table schema: its name, its `u32` count of columns, then the columns.
/// More than [`MAX_COLUMNS`] columns is corruption; a schema the schema rules
/// refuse is an invalid operation.
pub open spec fn parse_schema(s: Seq<u8>) -> Parsed<SchemaModel> {
    match parse_text(s) {
        Err(e) => Err(e),
        Ok((name, n1)) => match parse_u32(s.skip(n1)) {
            Err(e) => Err(e),
            Ok((count, n2)) => if count > MAX_COLUMNS {
                Err(ErrorKind::Corruption)
            } else {
                match parse_many(column_parser(), s.skip(n1 + n2), count as nat) {
                    Err(e) => Err(e),
                    Ok((columns, n3)) => if schema_valid(name, columns) {
                        Ok((SchemaModel { name, columns }, n1 + n2 + n3))
                    } else {
                        Err(ErrorKind::InvalidOperation)
                    },
                }
            },
        },
    }
}

/// The encoding of a table schema.
pub open spec fn schema_bytes(sch: SchemaModel) -> Seq<u8> {
    text_bytes(sch.name) + spec_u32_to_le_bytes(sch.columns.len() as u32) + concat_bytes(
        column_encoder(),
        sch.columns,
    )
}

proof fn lemma_opt_consumed<A>(p: spec_fn(Seq<u8>) -> Parsed<A>, s: Seq<u8>)
    requires
        crate::engine::wire::sane(p),
    ensures
        parse_opt(p, s) is Ok ==> 0 <= (parse_opt(p, s)->Ok_0).1 <= s.len(),
{
    reveal(parse_opt);
    if let Ok((present, n)) = parse_bool(s) {
        if present {
            let _ = p(s.skip(n));
        }
    }
}

/// Every parser of this module takes no more than its input.
pub proof fn lemma_parsers_sane()
    ensures
        crate::engine::wire::sane(value_parser()),
        crate::engine::wire::sane(check_parser()),
        crate::engine::wire::sane(fk_parser()),
        crate::engine::wire::sane(list_parser()),
        crate::engine::wire::sane(column_parser()),
{
    crate::engine::wire::lemma_value_parser_sane();
    assert forall|s: Seq<u8>| #[trigger] check_parser()(s) is Ok implies 0 <= (check_parser()(
        s,
    )->Ok_0).1 <= s.len() by {
        if let Ok((c, n1)) = parse_text(s) {
            if let Ok((o, n2)) = parse_op(s.skip(n1)) {
                let _ = value_parser()(s.skip(n1 + n2));
            }
        }
    }
    assert forall|s: Seq<u8>| #[trigger] fk_parser()(s) is Ok implies 0 <= (fk_parser()(s)->Ok_0).1
        <= s.len() by {}
    assert forall|s: Seq<u8>| #[trigger] list_parser()(s) is Ok implies 0 <= (list_parser()(
        s,
    )->Ok_0).1 <= s.len() by {
        if let Ok((n, k)) = parse_u32(s) {
            crate::engine::wire::lemma_parse_many_consumed(value_parser(), s.skip(4), n as nat);
        }
    }
    assert forall|s: Seq<u8>| #[trigger] column_parser()(s) is Ok implies 0 <= (column_parser()(
        s,
    )->Ok_0).1 <= s.len() by {
        if let Ok((h, n)) = parse_head(s) {
            let t = s.skip(n);
            lemma_opt_consumed(value_parser(), t);
            if let Ok((d, n1)) = parse_opt(value_parser(), t) {
                lemma_opt_consumed(check_parser(), t.skip(n1));
                if let Ok((c, n2)) = parse_opt(check_parser(), t.skip(n1)) {
                    lemma_opt_consumed(fk_parser(), t.skip(n1 + n2));
                    if let Ok((f, n3)) = parse_opt(fk_parser(), t.skip(n1 + n2)) {
                        lemma_opt_consumed(list_parser(), t.skip(n1 + n2 + n3));
                    }
                }
            }
        }
    }
}


fn decode_columns(r: &mut Reader, n: u32) -> (res: Result<Vec<ColumnDef>, DbError>)
    requires
        old(r).wf(),
    ensures
        final(r).wf(),
        final(r).input() == old(r).input(),
        old(r).position() <= final(r).position(),
        match parse_many(column_parser(), old(r).rest(), n as nat) {
            Ok((v, k)) => (res matches Ok(x) && column_models(x@) == v && final(r).position() == old(
                r,
            ).position() + k),
            Err(e) => (res matches Err(x) && x.kind() == e),
        },
{
    let ghost r0 = *r;
    let ghost s = r0.rest();
    proof {
        lemma_parsers_sane();
    }
    let mut out: Vec<ColumnDef> = Vec::new();
    assert(column_models(out@) =~= Seq::<ColumnModel>::empty());
    let mut i: u32 = 0;
    while i < n
        invariant
            r.wf(),
            r0.wf(),
            r0 == *old(r),
            r.input() == r0.input(),
            s == r0.rest(),
            crate::engine::wire::sane(column_parser()),
            i <= n,
            parse_many(column_parser(), s, i as nat) == Ok::<(Seq<ColumnModel>, int), ErrorKind>(
                (column_models(out@), r.position() - r0.position()),
            ),
            0 <= r.position() - r0.position() <= s.len(),
        decreases n - i,
    {
        let ghost r1 = *r;
        proof {
            lemma_rest_skip(r0, r1, r1.position() - r0.position());
            crate::engine::wire::lemma_parse_many_step(column_parser(), s, i as nat);
        }
        let c = match decode_column(r) {
            Ok(c) => c,
            Err(e) => {
                proof {
                    crate::engine::wire::lemma_parse_many_tail_err(
                        column_parser(),
                        s,
                        (i + 1) as nat,
                        n as nat,
                    );
                }
                return Err(e);
            },
        };
        proof {
            assert(column_models(out@.push(c)) =~= column_models(out@).push(c@));
            lemma_rest_skip(r0, *r, r.position() - r0.position());
        }
        out.push(c);
        i = i + 1;
    }
    Ok(out)
}

/// Reads a table schema (see [`parse_schema`]).
pub fn decode_schema(r: &mut Reader) -> (res: Result<TableSchema, DbError>)
    requires
        old(r).wf(),
    ensures
        final(r).wf(),
        final(r).input() == old(r).input(),
        old(r).position() <= final(r).position(),
        match parse_schema(old(r).rest()) {
            Ok((v, n)) => (res matches Ok(x) && x@ == v && final(r).position() == old(r).position() + n),
            Err(k) => (res matches Err(e) && e.kind() == k),
        },
{
    let ghost r0 = *r;
    let name = read_text(r)?;
    let ghost r1 = *r;
    proof {
        lemma_rest_skip(r0, r1, r1.position() - r0.position());
    }
    let count = r.read_u32()?;
    let ghost r2 = *r;
    proof {
        lemma_rest_skip(r0, r2, r2.position() - r0.position());
    }
    if count as usize > MAX_COLUMNS {
        return Err(DbError::corruption("too many columns"));
    }
    let columns = decode_columns(r, count)?;
    match TableSchema::try_new(name.as_str(), columns) {
        Ok(t) => Ok(t),
        Err(e) => Err(e),
    }
}

fn encode_columns(cols: &[ColumnDef], buf: &mut Vec<u8>) -> (r: Result<(), DbError>)
    ensures
        r is Ok <==> forall|i: int|
            0 <= i < cols@.len() ==> ((#[trigger] cols@[i])@.allowed_values matches Some(l) ==> l.len()
                <= u32::MAX),
        r is Ok ==> final(buf)@ == old(buf)@ + concat_bytes(column_encoder(), column_models(cols@)),
        r matches Err(e) ==> e.kind() == ErrorKind::InvalidOperation,
{
    let ghost b0 = buf@;
    let mut i: usize = 0;
    while i < cols.len()
        invariant
            i <= cols@.len(),
            buf@ == b0 + concat_bytes(column_encoder(), column_models(cols@.subrange(0, i as int))),
            forall|k: int|
                0 <= k < i ==> ((#[trigger] cols@[k])@.allowed_values matches Some(l) ==> l.len()
                    <= u32::MAX),
        decreases cols@.len() - i,
    {
        match encode_column(&cols[i], buf) {
            Ok(()) => {},
            Err(e) => {
                return Err(e);
            },
        }
        proof {
            assert(column_models(cols@.subrange(0, i + 1)) =~= column_models(
                cols@.subrange(0, i as int),
            ).push(cols@[i as int]@));
            crate::engine::wire::lemma_concat_push(
                column_encoder(),
                column_models(cols@.subrange(0, i as int)),
                cols@[i as int]@,
            );
        }
        i = i + 1;
    }
    assert(cols@.subrange(0, i as int) =~= cols@);
    Ok(())
}

/// Appends the encoding of a table schema; more columns than a `u32`
/// counts, or a column that cannot be encoded, is an invalid operation.
pub fn encode_schema(sch: &TableSchema, buf: &mut Vec<u8>) -> (r: Result<(), DbError>)
    ensures
        r is Ok <==> (sch@.columns.len() <= u32::MAX && forall|i: int|
            0 <= i < sch@.columns.len() ==> ((#[trigger] sch@.columns[i]).allowed_values matches Some(
                l,
            ) ==> l.len() <= u32::MAX)),
        r is Ok ==> final(buf)@ == old(buf)@ + schema_bytes(sch@),
        r matches Err(e) ==> e.kind() == ErrorKind::InvalidOperation,
{
    let ghost b0 = buf@;
    let cols = sch.columns();
    if cols.len() > u32::MAX as usize {
        return Err(DbError::invalid_operation("too many columns"));
    }
    encode_text(sch.name(), buf);
    push_u32(buf, cols.len() as u32);
    let ghost b1 = buf@;
    match encode_columns(cols, buf) {
        Ok(()) => {},
        Err(e) => {
            proof {
                let i = choose|i: int|
                    0 <= i < cols@.len() && !((#[trigger] cols@[i])@.allowed_values matches Some(l)
                        ==> l.len() <= u32::MAX);
                assert(sch@.columns[i] == column_models(cols@)[i]);
            }
            return Err(e);
        },
    }
    proof {
        assert forall|i: int| 0 <= i < sch@.columns.len() implies #[trigger] sch@.columns[i] == cols@[i]@ by {}
        assert(buf@ =~= b0 + schema_bytes(sch@));
    }
    Ok(())
}


/// An optional page id: a flag, then the id if the flag is set.
pub open spec fn parse_opt_id(s: Seq<u8>) -> Parsed<Option<u32>> {
    match parse_bool(s) {
        Err(e) => Err(e),
        Ok((present, n)) => if !present {
            Ok((None, n))
        } else {
            match parse_u32(s.skip(n)) {
                Err(e) => Err(e),
                Ok((x, k)) => Ok((Some(x), n + k)),
            }
        },
    }
}

pub open spec fn opt_id_bytes(o: Option<u32>) -> Seq<u8> {
    match o {
        Some(x) => seq![1u8] + spec_u32_to_le_bytes(x),
        None => seq![0u8],
    }
}

/// A table's record in the catalog: its schema, its read-only flag, its
/// optional first data page and index root, then its next row id.
pub open spec fn parse_table(s: Seq<u8>) -> Parsed<TableMeta> {
    match parse_schema(s) {
        Err(e) => Err(e),
        Ok((schema, n1)) => match parse_bool(s.skip(n1)) {
            Err(e) => Err(e),
            Ok((read_only, n2)) => match parse_opt_id(s.skip(n1 + n2)) {
                Err(e) => Err(e),
                Ok((data_page_id, n3)) => match parse_opt_id(s.skip(n1 + n2 + n3)) {
                    Err(e) => Err(e),
                    Ok((index_root_page_id, n4)) => match parse_u64(s.skip(n1 + n2 + n3 + n4)) {
                        Err(e) => Err(e),
                        Ok((next_row_id, n5)) => Ok(
                            (
                                TableMeta {
                                    schema,
                                    read_only,
                                    data_page_id,
                                    index_root_page_id,
                                    next_row_id,
                                },
                                n1 + n2 + n3 + n4 + n5,
                            ),
                        ),
                    },
                },
            },
        },
    }
}

/// The encoding of a table's record.
pub open spec fn table_bytes(t: TableMeta) -> Seq<u8> {
    schema_bytes(t.schema) + seq![flag_byte(t.read_only)] + opt_id_bytes(t.data_page_id) + opt_id_bytes(
        t.index_root_page_id,
    ) + spec_u64_to_le_bytes(t.next_row_id)
}

fn decode_opt_id(r: &mut Reader) -> (res: Result<Option<u32>, DbError>)
    requires
        old(r).wf(),
    ensures
        final(r).wf(),
        final(r).input() == old(r).input(),
        old(r).position() <= final(r).position(),
        match parse_opt_id(old(r).rest()) {
            Ok((v, n)) => (res matches Ok(x) && x == v && final(r).position() == old(r).position() + n),
            Err(k) => (res matches Err(e) && e.kind() == k),
        },
{
    let ghost r0 = *r;
    let present = read_bool(r)?;
    if !present {
        return Ok(None);
    }
    proof {
        lemma_rest_skip(r0, *r, 1);
    }
    let v = r.read_u32()?;
    Ok(Some(v))
}

fn encode_opt_id(o: Option<u32>, buf: &mut Vec<u8>)
    ensures
        final(buf)@ == old(buf)@ + opt_id_bytes(o),
{
    let ghost b0 = buf@;
    match o {
        Some(x) => {
            push_u8(buf, 1);
            push_u32(buf, x);
        },
        None => {
            push_u8(buf, 0);
        },
    }
    assert(buf@ =~= b0 + opt_id_bytes(o));
}

/// Reads a table's record (see [`parse_table`]).
pub fn decode_table(r: &mut Reader) -> (res: Result<Table, DbError>)
    requires
        old(r).wf(),
    ensures
        final(r).wf(),
        final(r).input() == old(r).input(),
        old(r).position() <= final(r).position(),
        match parse_table(old(r).rest()) {
            Ok((v, n)) => (res matches Ok(x) && x@ == v && final(r).position() == old(r).position() + n),
            Err(k) => (res matches Err(e) && e.kind() == k),
        },
{
    let ghost r0 = *r;
    let schema = decode_schema(r)?;
    let ghost r1 = *r;
    proof {
        lemma_rest_skip(r0, r1, r1.position() - r0.position());
    }
    let read_only = read_bool(r)?;
    let ghost r2 = *r;
    proof {
        lemma_rest_skip(r0, r2, r2.position() - r0.position());
    }
    let data_page_id = decode_opt_id(r)?;
    let ghost r3 = *r;
    proof {
        lemma_rest_skip(r0, r3, r3.position() - r0.position());
    }
    let index_root_page_id = decode_opt_id(r)?;
    let ghost r4 = *r;
    proof {
        lemma_rest_skip(r0, r4, r4.position() - r0.position());
    }
    let next_row_id = r.read_u64()?;
    let mut table = Table::new(schema);
    table.set_read_only(read_only);
    match data_page_id {
        Some(id) => table.set_data_page_id(id),
        None => {},
    }
    match index_root_page_id {
        Some(id) => table.set_index_root_page_id(id),
        None => {},
    }
    table.set_next_row_id(next_row_id);
    Ok(table)
}

/// Appends the encoding of a table's record; a schema that cannot be
/// encoded is an invalid operation.
pub fn encode_table(t: &Table, buf: &mut Vec<u8>) -> (r: Result<(), DbError>)
    ensures
        r is Ok <==> (t@.schema.columns.len() <= u32::MAX && forall|i: int|
            0 <= i < t@.schema.columns.len() ==> ((#[trigger] t@.schema.columns[i]).allowed_values matches Some(
                l,
            ) ==> l.len() <= u32::MAX)),
        r is Ok ==> final(buf)@ == old(buf)@ + table_bytes(t@),
        r matches Err(e) ==> e.kind() == ErrorKind::InvalidOperation,
{
    let ghost b0 = buf@;
    encode_schema(t.schema(), buf)?;
    encode_bool(t.is_read_only(), buf);
    encode_opt_id(t.data_page_id(), buf);
    encode_opt_id(t.index_root_page_id(), buf);
    push_u64(buf, t.next_row_id());
    assert(buf@ =~= b0 + table_bytes(t@));
    Ok(())
}


/// The record of a table just created with this schema.
pub open spec fn fresh_meta(schema: SchemaModel) -> TableMeta {
    TableMeta { schema, read_only: false, data_page_id: None, index_root_page_id: None, next_row_id: 0 }
}

/// One catalog entry, a name then a table's record, applied to the tables
/// `m`: the table is created under its schema's name (an empty or taken name
/// is an invalid operation), then stored under the entry's name (which must
/// then name a table, else table-not-found).
pub open spec fn parse_entry(s: Seq<u8>, m: Map<Seq<char>, TableMeta>) -> Result<
    (Map<Seq<char>, TableMeta>, int),
    ErrorKind,
> {
    match parse_text(s) {
        Err(e) => Err(e),
        Ok((name, k1)) => match parse_table(s.skip(k1)) {
            Err(e) => Err(e),
            Ok((t, k2)) => {
                let sname = t.schema.name;
                if sname.len() == 0 || m.contains_key(sname) {
                    Err(ErrorKind::InvalidOperation)
                } else {
                    let m1 = m.insert(sname, fresh_meta(t.schema));
                    if !m1.contains_key(name) {
                        Err(ErrorKind::TableNotFound)
                    } else {
                        Ok((m1.insert(name, t), k1 + k2))
                    }
                }
            },
        },
    }
}

/// `n` catalog entries applied in turn to the tables `m` (see
/// [`parse_entry`]).
pub open spec fn parse_entries(s: Seq<u8>, n: nat, m: Map<Seq<char>, TableMeta>) -> Result<
    (Map<Seq<char>, TableMeta>, int),
    ErrorKind,
>
    decreases n,
{
    if n == 0 {
        Ok((m, 0))
    } else {
        match parse_entry(s, m) {
            Err(e) => Err(e),
            Ok((m1, k)) => match parse_entries(s.skip(k), (n - 1) as nat, m1) {
                Err(e) => Err(e),
                Ok((mf, k2)) => Ok((mf, k + k2)),
            },
        }
    }
}

/// An encoded catalog: the format version (another is corruption), the
/// `u32` count of entries (more than [`MAX_DECODED_ITEMS`] is corruption),
/// then the entries (see [`parse_entries`]), starting from no table.
pub open spec fn parse_catalog(s: Seq<u8>) -> Result<(Map<Seq<char>, TableMeta>, int), ErrorKind> {
    match parse_u32(s) {
        Err(e) => Err(e),
        Ok((v, _)) => if v != FORMAT_VERSION {
            Err(ErrorKind::Corruption)
        } else {
            match parse_u32(s.skip(4)) {
                Err(e) => Err(e),
                Ok((n, _)) => if n > MAX_DECODED_ITEMS {
                    Err(ErrorKind::Corruption)
                } else {
                    match parse_entries(s.skip(8), n as nat, Map::empty()) {
                        Err(e) => Err(e),
                        Ok((m, k)) => Ok((m, k + 8)),
                    }
                },
            }
        },
    }
}

/// The encoding of a catalog entry.
pub open spec fn entry_bytes(e: (Seq<char>, TableMeta)) -> Seq<u8> {
    text_bytes(e.0) + table_bytes(e.1)
}

pub open spec fn entry_encoder() -> spec_fn((Seq<char>, TableMeta)) -> Seq<u8> {
    |e: (Seq<char>, TableMeta)| entry_bytes(e)
}

/// The encoding of a catalog.
pub open spec fn catalog_bytes(entries: Seq<(Seq<char>, TableMeta)>) -> Seq<u8> {
    spec_u32_to_le_bytes(FORMAT_VERSION) + spec_u32_to_le_bytes(entries.len() as u32) + concat_bytes(
        entry_encoder(),
        entries,
    )
}

/// A table's record can be encoded: its schema's column count and every
/// allowed-values list fit a `u32` count.
pub open spec fn table_encodable(t: TableMeta) -> bool {
    t.schema.columns.len() <= u32::MAX && forall|i: int|
        0 <= i < t.schema.columns.len() ==> ((#[trigger] t.schema.columns[i]).allowed_values matches Some(
            l,
        ) ==> l.len() <= u32::MAX)
}

/// The encoding of a catalog; more entries than a `u32` counts, or a table
/// that cannot be encoded, is an invalid operation.
pub fn encode_catalog(catalog: &Catalog) -> (r: Result<Vec<u8>, DbError>)
    requires
        catalog.wf(),
    ensures
        r is Ok <==> (catalog@.len() <= u32::MAX && forall|i: int|
            0 <= i < catalog@.len() ==> table_encodable(#[trigger] catalog@[i].1)),
        r matches Ok(b) ==> b@ == catalog_bytes(catalog@),
        r matches Err(e) ==> e.kind() == ErrorKind::InvalidOperation,
{
    let entries = catalog.tables();
    if entries.len() > u32::MAX as usize {
        return Err(DbError::invalid_operation("catalog too large"));
    }
    let mut buf: Vec<u8> = Vec::new();
    push_u32(&mut buf, FORMAT_VERSION);
    push_u32(&mut buf, entries.len() as u32);
    let ghost b0 = buf@;
    let ghost view = catalog@;
    let mut i: usize = 0;
    while i < entries.len()
        invariant
            entries@.len() == view.len(),
            view == catalog@,
            forall|k: int| 0 <= k < entries@.len() ==> (#[trigger] entries@[k]).0@ == view[k].0 && entries@[k].1@ == view[k].1,
            i <= view.len(),
            buf@ == b0 + concat_bytes(entry_encoder(), view.subrange(0, i as int)),
            forall|k: int| 0 <= k < i ==> table_encodable(#[trigger] view[k].1),
        decreases view.len() - i,
    {
        let (name, table) = entries[i];
        encode_text(name, &mut buf);
        match encode_table(table, &mut buf) {
            Ok(()) => {},
            Err(e) => {
                return Err(e);
            },
        }
        proof {
            assert(view.subrange(0, i + 1) =~= view.subrange(0, i as int).push(view[i as int]));
            crate::engine::wire::lemma_concat_push(entry_encoder(), view.subrange(0, i as int), view[i as int]);
        }
        i = i + 1;
    }
    assert(view.subrange(0, i as int) =~= view);
    Ok(buf)
}

fn decode_entry(r: &mut Reader, catalog: &mut Catalog) -> (res: Result<(), DbError>)
    requires
        old(r).wf(),
        old(catalog).wf(),
    ensures
        final(r).wf(),
        final(r).input() == old(r).input(),
        old(r).position() <= final(r).position(),
        match parse_entry(old(r).rest(), catalog_map(old(catalog)@)) {
            Ok((m, n)) => (res is Ok && final(catalog).wf() && catalog_map(final(catalog)@) == m
                && final(r).position() == old(r).position() + n),
            Err(k) => (res matches Err(e) && e.kind() == k),
        },
{
    let ghost r0 = *r;
    let ghost m0 = catalog_map(catalog@);
    let name = read_text(r)?;
    let ghost r1 = *r;
    proof {
        lemma_rest_skip(r0, r1, r1.position() - r0.position());
    }
    let table = decode_table(r)?;
    proof {
        lemma_entries_sorted(catalog);
        lemma_sorted_unique(catalog@);
        assert(m0.contains_key(table@.schema.name) == has_table(catalog@, table@.schema.name));
    }
    let ghost v0 = catalog@;
    catalog.create_table(table.schema().duplicate())?;
    let ghost v1 = catalog@;
    proof {
        let pos = choose|pos: int|
            0 <= pos <= v0.len() && v1 == v0.insert(pos, (table@.schema.name, fresh_meta(table@.schema)));
        lemma_map_insert(v0, pos, (table@.schema.name, fresh_meta(table@.schema)));
        assert(catalog_map(v1).contains_key(name@) == has_table(v1, name@));
    }
    match catalog.get_table_mut(name.as_str()) {
        Some(t) => {
            *t = table;
        },
        None => {
            return Err(DbError::table_not_found(name.as_str()));
        },
    }
    proof {
        let p = table_position(v1, name@);
        lemma_map_update(v1, p, table@);
    }
    Ok(())
}

/// Reads a catalog (see [`parse_catalog`]); what follows it is ignored.
pub fn decode_catalog(data: &[u8]) -> (res: Result<Catalog, DbError>)
    ensures
        match parse_catalog(data@) {
            Ok((m, _)) => (res matches Ok(c) && c.wf() && catalog_map(c@) == m),
            Err(k) => (res matches Err(e) && e.kind() == k),
        },
{
    let mut r = Reader::new(data);
    let ghost r0 = r;
    let version = r.read_u32()?;
    proof {
        lemma_rest_skip(r0, r, 4);
    }
    if version != FORMAT_VERSION {
        return Err(DbError::corruption("unsupported format version"));
    }
    let count = r.read_u32()?;
    let ghost r8 = r;
    proof {
        lemma_rest_skip(r0, r8, 8);
        assert(data@.skip(4).skip(4) =~= data@.skip(8));
    }
    if count > MAX_DECODED_ITEMS {
        return Err(DbError::corruption("too many tables"));
    }
    let ghost s8 = r8.rest();
    assert(parse_catalog(data@) == match parse_entries(s8, count as nat, Map::empty()) {
        Err(e) => Err(e),
        Ok((m, k)) => Ok((m, k + 8)),
    });
    let mut catalog = Catalog::new();
    proof {
        assert(catalog_map(catalog@) =~= Map::<Seq<char>, TableMeta>::empty());
    }
    let mut i: u32 = 0;
    while i < count
        invariant
            parse_catalog(data@) == match parse_entries(s8, count as nat, Map::empty()) {
                Err(e) => Err(e),
                Ok((m, k)) => Ok((m, k + 8)),
            },
            r.wf(),
            r8.wf(),
            r.input() == r8.input(),
            r8.position() <= r.position(),
            s8 == r8.rest(),
            catalog.wf(),
            i <= count,
            parse_entries(s8, count as nat, Map::empty()) == match parse_entries(
                r.rest(),
                (count - i) as nat,
                catalog_map(catalog@),
            ) {
                Err(e) => Err(e),
                Ok((m, k)) => Ok((m, k + (r.position() - r8.position()))),
            },
        decreases count - i,
    {
        let ghost ri = r;
        match decode_entry(&mut r, &mut catalog) {
            Ok(()) => {},
            Err(e) => {
                return Err(e);
            },
        }
        proof {
            lemma_rest_skip(ri, r, r.position() - ri.position());
        }
        i = i + 1;
    }
    Ok(catalog)
}

} // verus!
