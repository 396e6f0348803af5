//! Reading back what was written: every record of the catalog format
//! decodes to what was encoded, whatever bytes follow it.
use crate::codec::{bytes_field, parse_u32, parse_u64, Parsed};
use crate::engine::catalog::{catalog_map, has_table, lemma_map_insert, unique_names};
use crate::engine::table::TableMeta;
use crate::engine::catalog_codec::{
    catalog_bytes, column_encoder, column_parser, entry_bytes, entry_encoder, fresh_meta,
    opt_id_bytes, parse_catalog, parse_entries, parse_entry, parse_opt_id, parse_schema,
    parse_table, schema_bytes, table_bytes,
    check_bytes, check_parser, column_bytes, extras_bytes, fk_bytes, fk_parser, flag_byte,
    head_bytes, list_bytes, list_parser, check_encoder, fk_encoder, list_encoder, op_tag, opt_bytes, parse_check, parse_column, parse_fk,
    parse_head, parse_list, parse_opt, type_tag,
};
use crate::engine::wire::{
    concat_bytes, encodable, lemma_blob_roundtrip, lemma_many_roundtrip, lemma_value_roundtrip,
    parse_bool, parse_many, parse_text, parse_value, text_bytes, value_bytes, value_encoder,
    value_parser, FORMAT_VERSION, MAX_DECODED_ITEMS, MAX_READ_BYTES, MAX_VEC_ELEMENTS,
};
use crate::error::ErrorKind;
use crate::schema::{schema_valid, CheckModel, ColumnModel, ComparisonOp, DataType, ForeignKeyModel, SchemaModel, MAX_COLUMNS};
use crate::value::ValueModel;
use vstd::bytes::*;
use vstd::prelude::*;
use vstd::utf8::encode_utf8;

verus! {

/// A text short enough to be read back.
pub open spec fn text_fits(t: Seq<char>) -> bool {
    encode_utf8(t).len() <= MAX_READ_BYTES
}

/// A column definition whose texts, values and list of allowed values can
/// all be read back.
pub open spec fn column_fits(c: ColumnModel) -> bool {
    &&& text_fits(c.name)
    &&& (c.default_value matches Some(v) ==> encodable(v))
    &&& (c.check matches Some(k) ==> text_fits(k.column) && encodable(k.value))
    &&& (c.foreign_key matches Some(f) ==> text_fits(f.table) && text_fits(f.column))
    &&& (c.allowed_values matches Some(l) ==> l.len() <= MAX_VEC_ELEMENTS && forall|i: int|
        0 <= i < l.len() ==> encodable(#[trigger] l[i]))
}

/// The result of reading `x` back from bytes of length `n`.
pub open spec fn read_back<A>(x: A, n: nat) -> Parsed<A> {
    Ok((x, n as int))
}

pub proof fn lemma_text_roundtrip(t: Seq<char>, rest: Seq<u8>)
    requires
        text_fits(t),
    ensures
        parse_text(text_bytes(t) + rest) == read_back(t, text_bytes(t).len()),
{
    lemma_blob_roundtrip(encode_utf8(t), rest);
    vstd::utf8::encode_utf8_valid_utf8(t);
    vstd::utf8::encode_utf8_decode_utf8(t);
}

/// An optional item reads back when its item does.
pub proof fn lemma_opt_roundtrip<A>(
    p: spec_fn(Seq<u8>) -> Parsed<A>,
    f: spec_fn(A) -> Seq<u8>,
    o: Option<A>,
    rest: Seq<u8>,
)
    requires
        o matches Some(x) ==> forall|r: Seq<u8>| #[trigger] p(f(x) + r) == read_back(x, f(x).len()),
    ensures
        parse_opt(p, opt_bytes(f, o) + rest) == read_back(o, opt_bytes(f, o).len()),
{
    reveal(parse_opt);
    reveal(opt_bytes);
    let s = opt_bytes(f, o) + rest;
    match o {
        Some(x) => {
            assert(s.skip(1) =~= f(x) + rest);
            assert(p(f(x) + rest) == read_back(x, f(x).len()));
        },
        None => {},
    }
}

pub proof fn lemma_check_roundtrip(c: CheckModel, rest: Seq<u8>)
    requires
        text_fits(c.column),
        encodable(c.value),
    ensures
        parse_check(check_bytes(c) + rest) == read_back(c, check_bytes(c).len()),
{
    let s = check_bytes(c) + rest;
    let t1 = text_bytes(c.column);
    lemma_text_roundtrip(c.column, seq![op_tag(c.op)] + value_bytes(c.value) + rest);
    assert(s =~= t1 + (seq![op_tag(c.op)] + value_bytes(c.value) + rest));
    assert(s.skip(t1.len() as int) =~= seq![op_tag(c.op)] + (value_bytes(c.value) + rest));
    assert(s.skip(t1.len() as int + 1) =~= value_bytes(c.value) + rest);
    lemma_value_roundtrip(c.value, rest);
}

pub proof fn lemma_fk_roundtrip(f: ForeignKeyModel, rest: Seq<u8>)
    requires
        text_fits(f.table),
        text_fits(f.column),
    ensures
        parse_fk(fk_bytes(f) + rest) == read_back(f, fk_bytes(f).len()),
{
    let s = fk_bytes(f) + rest;
    let t1 = text_bytes(f.table);
    lemma_text_roundtrip(f.table, text_bytes(f.column) + rest);
    assert(s =~= t1 + (text_bytes(f.column) + rest));
    assert(s.skip(t1.len() as int) =~= text_bytes(f.column) + rest);
    lemma_text_roundtrip(f.column, rest);
}

pub proof fn lemma_list_roundtrip(l: Seq<ValueModel>, rest: Seq<u8>)
    requires
        l.len() <= MAX_VEC_ELEMENTS,
        forall|i: int| 0 <= i < l.len() ==> encodable(#[trigger] l[i]),
    ensures
        parse_list(list_bytes(l) + rest) == read_back(l, list_bytes(l).len()),
{
    lemma_auto_spec_u32_to_from_le_bytes();
    let s = list_bytes(l) + rest;
    assert(s.subrange(0, 4) =~= spec_u32_to_le_bytes(l.len() as u32));
    assert forall|i: int, r: Seq<u8>| 0 <= i < l.len() implies #[trigger] value_parser()(
        value_encoder()(l[i]) + r) == Ok::<(ValueModel, int), ErrorKind>(
        (l[i], value_encoder()(l[i]).len() as int),
    ) by {
        lemma_value_roundtrip(l[i], r);
    }
    lemma_many_roundtrip(value_parser(), value_encoder(), l, rest);
    assert(s.skip(4) =~= concat_bytes(value_encoder(), l) + rest);
}

proof fn lemma_head_roundtrip(c: ColumnModel, rest: Seq<u8>)
    requires
        text_fits(c.name),
    ensures
        parse_head(head_bytes(c) + rest) == read_back(
            (c.name, c.data_type, c.nullable, c.primary_key, c.unique),
            head_bytes(c).len(),
        ),
{
    let t = text_bytes(c.name);
    let tail = seq![type_tag(c.data_type), flag_byte(c.nullable), flag_byte(c.primary_key), flag_byte(c.unique)];
    let s = head_bytes(c) + rest;
    lemma_text_roundtrip(c.name, tail + rest);
    assert(s =~= t + (tail + rest));
    let n1 = t.len() as int;
    assert(s.skip(n1) =~= tail + rest);
    assert(s.skip(n1 + 1) =~= tail.skip(1) + rest);
    assert(s.skip(n1 + 2) =~= tail.skip(2) + rest);
    assert(s.skip(n1 + 3) =~= tail.skip(3) + rest);
    match c.data_type {
        DataType::Null => {},
        DataType::Integer => {},
        DataType::Float => {},
        DataType::Text => {},
        DataType::Blob => {},
        DataType::Boolean => {},
    }
}

/// A column definition reads back from its encoding.
pub proof fn lemma_column_roundtrip(c: ColumnModel, rest: Seq<u8>)
    requires
        column_fits(c),
    ensures
        parse_column(column_bytes(c) + rest) == read_back(c, column_bytes(c).len()),
{
    let h = head_bytes(c);
    let d = opt_bytes(value_encoder(), c.default_value);
    let k = opt_bytes(check_encoder(), c.check);
    let f = opt_bytes(fk_encoder(), c.foreign_key);
    let a = opt_bytes(list_encoder(), c.allowed_values);
    let s = column_bytes(c) + rest;
    assert(extras_bytes(c) == d + k + f + a);
    lemma_head_roundtrip(c, extras_bytes(c) + rest);
    assert(s =~= h + (extras_bytes(c) + rest));
    let t = s.skip(h.len() as int);
    assert(t =~= d + k + f + a + rest);
    // default value
    if let Some(v) = c.default_value {
        assert forall|r: Seq<u8>| #[trigger] value_parser()(value_encoder()(v) + r) == read_back(
            v,
            value_encoder()(v).len(),
        ) by {
            lemma_value_roundtrip(v, r);
        }
    }
    lemma_opt_roundtrip(value_parser(), value_encoder(), c.default_value, k + f + a + rest);
    assert(t =~= d + (k + f + a + rest));
    assert(t.skip(d.len() as int) =~= k + (f + a + rest));
    if let Some(x) = c.check {
        assert forall|r: Seq<u8>| #[trigger] check_parser()(check_encoder()(x) + r)
            == read_back(x, check_encoder()(x).len()) by {
            lemma_check_roundtrip(x, r);
        }
    }
    lemma_opt_roundtrip(check_parser(), check_encoder(), c.check, f + a + rest);
    assert(t.skip(d.len() as int + k.len()) =~= f + (a + rest));
    if let Some(x) = c.foreign_key {
        assert forall|r: Seq<u8>| #[trigger] fk_parser()(fk_encoder()(x) + r)
            == read_back(x, fk_encoder()(x).len()) by {
            lemma_fk_roundtrip(x, r);
        }
    }
    lemma_opt_roundtrip(fk_parser(), fk_encoder(), c.foreign_key, a + rest);
    assert(t.skip(d.len() as int + k.len() + f.len()) =~= a + rest);
    if let Some(x) = c.allowed_values {
        assert forall|r: Seq<u8>| #[trigger] list_parser()(list_encoder()(x) + r)
            == read_back(x, list_encoder()(x).len()) by {
            lemma_list_roundtrip(x, r);
        }
    }
    lemma_opt_roundtrip(list_parser(), list_encoder(), c.allowed_values, rest);
}

/// A table schema that can be read back: a valid schema whose name and
/// columns fit.
pub open spec fn schema_fits(sch: SchemaModel) -> bool {
    &&& text_fits(sch.name)
    &&& schema_valid(sch.name, sch.columns)
    &&& forall|i: int| 0 <= i < sch.columns.len() ==> column_fits(#[trigger] sch.columns[i])
}

/// A table schema reads back from its encoding.
pub proof fn lemma_schema_roundtrip(sch: SchemaModel, rest: Seq<u8>)
    requires
        schema_fits(sch),
    ensures
        parse_schema(schema_bytes(sch) + rest) == read_back(sch, schema_bytes(sch).len()),
{
    lemma_auto_spec_u32_to_from_le_bytes();
    let t = text_bytes(sch.name);
    let cb = spec_u32_to_le_bytes(sch.columns.len() as u32);
    let body = concat_bytes(column_encoder(), sch.columns);
    let s = schema_bytes(sch) + rest;
    lemma_text_roundtrip(sch.name, cb + body + rest);
    assert(s =~= t + (cb + body + rest));
    let n1 = t.len() as int;
    assert(s.skip(n1) =~= cb + (body + rest));
    assert(s.skip(n1).subrange(0, 4) =~= cb);
    assert(s.skip(n1 + 4) =~= body + rest);
    assert forall|i: int, r: Seq<u8>| 0 <= i < sch.columns.len() implies #[trigger] column_parser()(
        column_encoder()(sch.columns[i]) + r) == Ok::<(ColumnModel, int), ErrorKind>(
        (sch.columns[i], column_encoder()(sch.columns[i]).len() as int),
    ) by {
        lemma_column_roundtrip(sch.columns[i], r);
    }
    lemma_many_roundtrip(column_parser(), column_encoder(), sch.columns, rest);
}

proof fn lemma_opt_id_roundtrip(o: Option<u32>, rest: Seq<u8>)
    ensures
        parse_opt_id(opt_id_bytes(o) + rest) == read_back(o, opt_id_bytes(o).len()),
{
    lemma_auto_spec_u32_to_from_le_bytes();
    let s = opt_id_bytes(o) + rest;
    if let Some(x) = o {
        assert(s.skip(1).subrange(0, 4) =~= spec_u32_to_le_bytes(x));
    }
}

/// A table's record reads back from its encoding.
#[verifier::spinoff_prover]
#[verifier::rlimit(100)]
pub proof fn lemma_table_roundtrip(t: TableMeta, rest: Seq<u8>)
    requires
        schema_fits(t.schema),
    ensures
        parse_table(table_bytes(t) + rest) == read_back(t, table_bytes(t).len()),
{
    lemma_auto_spec_u64_to_from_le_bytes();
    let a = schema_bytes(t.schema);
    let b = seq![flag_byte(t.read_only)];
    let c = opt_id_bytes(t.data_page_id);
    let d = opt_id_bytes(t.index_root_page_id);
    let e = spec_u64_to_le_bytes(t.next_row_id);
    let s = table_bytes(t) + rest;
    assert(s =~= a + (b + c + d + e + rest));
    lemma_schema_roundtrip(t.schema, b + c + d + e + rest);
    let n1 = a.len() as int;
    assert(s.skip(n1) =~= b + (c + d + e + rest));
    assert(s.skip(n1 + 1) =~= c + (d + e + rest));
    lemma_opt_id_roundtrip(t.data_page_id, d + e + rest);
    let n3 = c.len() as int;
    assert(s.skip(n1 + 1 + n3) =~= d + (e + rest));
    lemma_opt_id_roundtrip(t.index_root_page_id, e + rest);
    let n4 = d.len() as int;
    assert(s.skip(n1 + 1 + n3 + n4) =~= e + rest);
    assert((e + rest).subrange(0, 8) =~= e);
}

/// Catalog entries that read back: each named after its table's schema,
/// which fits, no two under one name.
pub open spec fn entries_fit(entries: Seq<(Seq<char>, TableMeta)>) -> bool {
    &&& unique_names(entries)
    &&& forall|i: int|
        0 <= i < entries.len() ==> (#[trigger] entries[i]).1.schema.name == entries[i].0 && schema_fits(
            entries[i].1.schema,
        )
}

proof fn lemma_entry_roundtrip(e: (Seq<char>, TableMeta), m: Map<Seq<char>, TableMeta>, rest: Seq<u8>)
    requires
        e.1.schema.name == e.0,
        schema_fits(e.1.schema),
        !m.contains_key(e.0),
    ensures
        parse_entry(entry_bytes(e) + rest, m) == Ok::<(Map<Seq<char>, TableMeta>, int), ErrorKind>(
            (m.insert(e.0, e.1), entry_bytes(e).len() as int),
        ),
{
    let t = text_bytes(e.0);
    let s = entry_bytes(e) + rest;
    assert(s =~= t + (table_bytes(e.1) + rest));
    lemma_text_roundtrip(e.0, table_bytes(e.1) + rest);
    assert(s.skip(t.len() as int) =~= table_bytes(e.1) + rest);
    lemma_table_roundtrip(e.1, rest);
    assert(m.insert(e.0, fresh_meta(e.1.schema)).insert(e.0, e.1) =~= m.insert(e.0, e.1));
}

#[verifier::spinoff_prover]
#[verifier::rlimit(100)]
proof fn lemma_entries_roundtrip(xs: Seq<(Seq<char>, TableMeta)>, m: Map<Seq<char>, TableMeta>, rest: Seq<u8>)
    requires
        entries_fit(xs),
        forall|i: int| 0 <= i < xs.len() ==> !m.contains_key(#[trigger] xs[i].0),
    ensures
        parse_entries(concat_bytes(entry_encoder(), xs) + rest, xs.len(), m) == Ok::<
            (Map<Seq<char>, TableMeta>, int),
            ErrorKind,
        >((m.union_prefer_right(catalog_map(xs)), concat_bytes(entry_encoder(), xs).len() as int)),
    decreases xs.len(),
{
    if xs.len() == 0 {
        assert(xs.map_values(entry_encoder()) =~= Seq::<Seq<u8>>::empty());
        assert(concat_bytes(entry_encoder(), xs) =~= Seq::<u8>::empty());
        assert(m.union_prefer_right(catalog_map(xs)) =~= m);
    } else {
        let x = xs[0];
        let tail = xs.drop_first();
        assert(entries_fit(tail)) by {
            assert forall|i: int, j: int| 0 <= i < j < tail.len() implies (#[trigger] tail[i]).0
                != (#[trigger] tail[j]).0 by {
                assert(tail[i] == xs[i + 1] && tail[j] == xs[j + 1]);
            }
            assert forall|i: int| 0 <= i < tail.len() implies (#[trigger] tail[i]).1.schema.name
                == tail[i].0 && schema_fits(tail[i].1.schema) by {
                assert(tail[i] == xs[i + 1]);
            }
        }
        let m1 = m.insert(x.0, x.1);
        assert forall|i: int| 0 <= i < tail.len() implies !m1.contains_key(#[trigger] tail[i].0) by {
            assert(tail[i] == xs[i + 1]);
            assert(xs[0].0 != xs[i + 1].0);
        }
        assert(!m.contains_key(x.0));
        assert(xs[0].1.schema.name == xs[0].0 && schema_fits(xs[0].1.schema));
        lemma_entries_roundtrip(tail, m1, rest);
        assert(xs.map_values(entry_encoder()).drop_first() =~= tail.map_values(entry_encoder()));
        assert(concat_bytes(entry_encoder(), xs) == entry_bytes(x) + concat_bytes(entry_encoder(), tail));
        let s = concat_bytes(entry_encoder(), xs) + rest;
        assert(s =~= entry_bytes(x) + (concat_bytes(entry_encoder(), tail) + rest));
        lemma_entry_roundtrip(x, m, concat_bytes(entry_encoder(), tail) + rest);
        assert(s.skip(entry_bytes(x).len() as int) =~= concat_bytes(entry_encoder(), tail) + rest);
        // the map
        assert(!has_table(tail, x.0)) by {
            if has_table(tail, x.0) {
                let i = choose|i: int| 0 <= i < tail.len() && (#[trigger] tail[i]).0 == x.0;
                assert(xs[i + 1].0 == xs[0].0);
            }
        }
        assert(unique_names(tail));
        lemma_map_insert(tail, 0, x);
        assert(tail.insert(0, x) =~= xs);
        assert(m1.union_prefer_right(catalog_map(tail)) =~= m.union_prefer_right(catalog_map(xs)));
    }
}

/// Decoding an encoded catalog gives back its tables by name, for a
/// catalog whose entries are named after their tables' schemas, fit (see
/// [`schema_fits`]) and number no more than [`MAX_DECODED_ITEMS`].
pub proof fn lemma_catalog_roundtrip(entries: Seq<(Seq<char>, TableMeta)>)
    requires
        entries_fit(entries),
        entries.len() <= MAX_DECODED_ITEMS,
    ensures
        parse_catalog(catalog_bytes(entries)) == Ok::<(Map<Seq<char>, TableMeta>, int), ErrorKind>(
            (catalog_map(entries), catalog_bytes(entries).len() as int),
        ),
{
    lemma_auto_spec_u32_to_from_le_bytes();
    let v = spec_u32_to_le_bytes(FORMAT_VERSION);
    let c = spec_u32_to_le_bytes(entries.len() as u32);
    let body = concat_bytes(entry_encoder(), entries);
    let s = catalog_bytes(entries);
    assert(s.subrange(0, 4) =~= v);
    assert(s.skip(4).subrange(0, 4) =~= c);
    assert(s.skip(8) =~= body + Seq::<u8>::empty());
    lemma_entries_roundtrip(entries, Map::empty(), Seq::empty());
    assert(Map::<Seq<char>, TableMeta>::empty().union_prefer_right(catalog_map(entries)) =~= catalog_map(entries));
}

} // verus!
