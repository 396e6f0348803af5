//! The snapshot format of a database: tables with their rows, and the
//! catalog of them, one after another in the flat format of values.
use crate::catalog::{has_table, lemma_entries_sorted, table_position, Catalog};
use crate::codec::{parse_u32, push_u32, Parsed, Reader};
use crate::engine::catalog_codec::{decode_schema, encode_schema, flag_byte, parse_schema, schema_bytes};
use crate::engine::wire::{
    concat_bytes, encode_bool, encode_row, encode_text, lemma_concat_push, lemma_rest_skip,
    parse_bool, parse_row, parse_text, read_bool, read_row, read_text, row_bytes, text_bytes,
    FORMAT_VERSION, MAX_DECODED_ITEMS,
};
use crate::engine::catalog_laws::{lemma_schema_roundtrip, lemma_text_roundtrip, schema_fits};
use crate::engine::wire::{encodable, lemma_row_roundtrip};
use crate::error::{DbError, ErrorKind};
use crate::row::Row;
use crate::schema::{values_valid, ColumnModel};
use crate::table::{cell_key, clashes, fill_defaults, keys_unique, table_invariant, Table, TableModel};
use crate::value::ValueModel;
use vstd::bytes::*;
use vstd::prelude::*;

verus! {

/// A table of more rows than this is refused when read.
pub const MAX_DECODED_ROWS: u32 = 10_000_000;

/// Whether a table with columns `cols`, read-only or not, holding `rows`,
/// takes the row `vs` (see [`Table::insert`]).
pub open spec fn row_accepted(cols: Seq<ColumnModel>, read_only: bool, rows: Seq<Seq<ValueModel>>, vs: Seq<ValueModel>) -> bool {
    let filled = fill_defaults(cols, vs);
    !read_only && vs.len() == cols.len() && values_valid(cols, filled) && !clashes(cols, rows, filled)
}

/// `n` rows read one after another and inserted in turn into a table that
/// holds `rows`; a row the table refuses is corruption.
pub open spec fn load_rows(
    s: Seq<u8>,
    n: nat,
    cols: Seq<ColumnModel>,
    read_only: bool,
    rows: Seq<Seq<ValueModel>>,
) -> Result<(Seq<Seq<ValueModel>>, int), ErrorKind>
    decreases n,
{
    if n == 0 {
        Ok((rows, 0))
    } else {
        match parse_row(s) {
            Err(e) => Err(e),
            Ok((vs, k)) => if !row_accepted(cols, read_only, rows, vs) {
                Err(ErrorKind::Corruption)
            } else {
                match load_rows(s.skip(k), (n - 1) as nat, cols, read_only, rows.push(fill_defaults(cols, vs))) {
                    Err(e) => Err(e),
                    Ok((r, k2)) => Ok((r, k + k2)),
                }
            },
        }
    }
}

/// A table: its schema, its read-only flag, its `u32` count of rows (more
/// than [`MAX_DECODED_ROWS`] is corruption), then the rows, inserted in turn
/// into a fresh table that has the flag already (see [`load_rows`]).
pub open spec fn parse_table(s: Seq<u8>) -> Parsed<TableModel> {
    match parse_schema(s) {
        Err(e) => Err(e),
        Ok((schema, n1)) => match parse_bool(s.skip(n1)) {
            Err(e) => Err(e),
            Ok((read_only, n2)) => match parse_u32(s.skip(n1 + n2)) {
                Err(e) => Err(e),
                Ok((count, n3)) => if count > MAX_DECODED_ROWS {
                    Err(ErrorKind::Corruption)
                } else {
                    match load_rows(s.skip(n1 + n2 + n3), count as nat, schema.columns, read_only, Seq::empty()) {
                        Err(e) => Err(e),
                        Ok((rows, k)) => Ok((TableModel { schema, rows, read_only }, n1 + n2 + n3 + k)),
                    }
                },
            },
        },
    }
}

pub open spec fn row_encoder() -> spec_fn(Seq<ValueModel>) -> Seq<u8> {
    |vs: Seq<ValueModel>| row_bytes(vs)
}

/// The encoding of a table.
pub open spec fn table_bytes(t: TableModel) -> Seq<u8> {
    schema_bytes(t.schema) + seq![flag_byte(t.read_only)] + spec_u32_to_le_bytes(t.rows.len() as u32)
        + concat_bytes(row_encoder(), t.rows)
}

/// A table can be encoded: counts of columns, of rows and of each row's
/// values, and every allowed-values list, fit a `u32`.
pub open spec fn table_encodable(t: TableModel) -> bool {
    &&& t.schema.columns.len() <= u32::MAX
    &&& forall|i: int|
        0 <= i < t.schema.columns.len() ==> ((#[trigger] t.schema.columns[i]).allowed_values matches Some(
            l,
        ) ==> l.len() <= u32::MAX)
    &&& t.rows.len() <= u32::MAX
    &&& forall|i: int| 0 <= i < t.rows.len() ==> (#[trigger] t.rows[i]).len() <= u32::MAX
}

/// Appends the encoding of a table (see [`table_bytes`]); a table that
/// cannot be encoded (see [`table_encodable`]) is an invalid operation.
pub fn encode_table(t: &Table, buf: &mut Vec<u8>) -> (r: Result<(), DbError>)
    requires
        t.wf(),
    ensures
        r is Ok <==> table_encodable(t@),
        r is Ok ==> final(buf)@ == old(buf)@ + table_bytes(t@),
        r matches Err(e) ==> e.kind() == ErrorKind::InvalidOperation,
{
    let ghost b0 = buf@;
    encode_schema(t.schema(), buf)?;
    encode_bool(t.is_read_only(), buf);
    let rows = t.rows();
    if rows.len() > u32::MAX as usize {
        return Err(DbError::invalid_operation("too many rows"));
    }
    push_u32(buf, rows.len() as u32);
    let ghost b1 = buf@;
    let ghost view = t@.rows;
    assert(view == crate::table::row_models(rows@));
    let mut i: usize = 0;
    while i < rows.len()
        invariant
            view == crate::table::row_models(rows@),
            view == t@.rows,
            i <= rows@.len(),
            buf@ == b1 + concat_bytes(row_encoder(), view.subrange(0, i as int)),
            forall|k: int| 0 <= k < i ==> (#[trigger] view[k]).len() <= u32::MAX,
        decreases rows@.len() - i,
    {
        proof {
            assert(view[i as int] == rows@[i as int]@);
        }
        let bytes = match encode_row(&rows[i]) {
            Ok(b) => b,
            Err(e) => {
                assert(t@.rows[i as int].len() > u32::MAX);
                return Err(e);
            },
        };
        crate::codec::push_bytes(buf, bytes.as_slice());
        proof {
            assert(view[i as int] == rows@[i as int]@);
            assert(view.subrange(0, i + 1) =~= view.subrange(0, i as int).push(view[i as int]));
            lemma_concat_push(row_encoder(), view.subrange(0, i as int), view[i as int]);
        }
        i = i + 1;
    }
    assert(view.subrange(0, i as int) =~= view);
    assert(buf@ =~= b0 + table_bytes(t@));
    Ok(())
}

/// Reads a table (see [`parse_table`]).
pub fn decode_table(r: &mut Reader) -> (res: Result<Table, DbError>)
    requires
        old(r).wf(),
    ensures
        final(r).wf(),
        final(r).input() == old(r).input(),
        old(r).position() <= final(r).position(),
        match parse_table(old(r).rest()) {
            Ok((t, n)) => (res matches Ok(x) && x.wf() && x@ == t && final(r).position() == old(r).position() + n),
            Err(k) => (res matches Err(e) && e.kind() == k),
        },
{
    let ghost r0 = *r;
    let schema = decode_schema(r)?;
    let ghost r1 = *r;
    proof {
        lemma_rest_skip(r0, r1, r1.position() - r0.position());
    }
    let read_only = read_bool(r)?;
    let ghost r2 = *r;
    proof {
        lemma_rest_skip(r0, r2, r2.position() - r0.position());
        assert(r0.rest().skip(r1.position() - r0.position()).skip(r2.position() - r1.position()) =~= r0.rest().skip(
            r2.position() - r0.position(),
        ));
    }
    let count = r.read_u32()?;
    let ghost r3 = *r;
    proof {
        lemma_rest_skip(r0, r3, r3.position() - r0.position());
        lemma_rest_skip(r2, r3, 4);
        assert(r0.rest().skip(r2.position() - r0.position()).skip(4) =~= r0.rest().skip(
            r3.position() - r0.position(),
        ));
    }
    if count > MAX_DECODED_ROWS {
        return Err(DbError::corruption("too many rows"));
    }
    let ghost sm = schema@;
    let ghost cols = schema@.columns;
    let ghost s3 = r3.rest();
    let mut table = Table::new(schema);
    table.set_read_only(read_only);
    proof {
        assert(parse_table(r0.rest()) == match load_rows(s3, count as nat, cols, read_only, Seq::empty()) {
            Err(e) => Err(e),
            Ok((rows, k)) => Ok((TableModel { schema: sm, rows, read_only }, (r3.position() - r0.position()) + k)),
        });
    }
    let mut i: u32 = 0;
    while i < count
        invariant
            r.wf(),
            r3.wf(),
            r.input() == r3.input(),
            r3.position() <= r.position(),
            s3 == r3.rest(),
            r3.input() == old(r).input(),
            old(r).position() <= r3.position(),
            parse_table(old(r).rest()) == match load_rows(s3, count as nat, cols, read_only, Seq::empty()) {
                Err(e) => Err(e),
                Ok((rows, k)) => Ok((TableModel { schema: sm, rows, read_only }, (r3.position() - old(r).position()) + k)),
            },
            table.wf(),
            table@.schema == sm,
            table@.read_only == read_only,
            sm.columns == cols,
            i <= count,
            load_rows(s3, count as nat, cols, read_only, Seq::empty()) == match load_rows(
                r.rest(),
                (count - i) as nat,
                cols,
                read_only,
                table@.rows,
            ) {
                Err(e) => Err(e),
                Ok((rows, k)) => Ok((rows, k + (r.position() - r3.position()))),
            },
        decreases count - i,
    {
        let ghost ri = *r;
        let row = read_row(r)?;
        proof {
            lemma_rest_skip(ri, *r, r.position() - ri.position());
        }
        match table.insert(row) {
            Ok(()) => {},
            Err(_) => {
                return Err(DbError::corruption("row refused by its table"));
            },
        }
        i = i + 1;
    }
    Ok(table)
}

/// The tables of a catalog by name.
pub open spec fn tables_map(entries: Seq<(Seq<char>, TableModel)>) -> Map<Seq<char>, TableModel> {
    Map::new(|k: Seq<char>| has_table(entries, k), |k: Seq<char>| entries[table_position(entries, k)].1)
}

/// No two entries share a name.
pub open spec fn names_unique(entries: Seq<(Seq<char>, TableModel)>) -> bool {
    forall|i: int, j: int|
        0 <= i < j < entries.len() ==> (#[trigger] entries[i]).0 != (#[trigger] entries[j]).0
}

proof fn lemma_catalog_unique(catalog: &Catalog)
    requires
        catalog.wf(),
    ensures
        names_unique(catalog@),
{
    lemma_entries_sorted(catalog);
    let e = catalog@;
    assert forall|i: int, j: int| 0 <= i < j < e.len() implies (#[trigger] e[i]).0 != (#[trigger] e[j]).0 by {
        assert(crate::catalog::entry_names(e)[i] == e[i].0);
        assert(crate::catalog::entry_names(e)[j] == e[j].0);
        crate::names::lemma_name_order(e[i].0, e[j].0, e[j].0);
    }
}

proof fn lemma_place(entries: Seq<(Seq<char>, TableModel)>, i: int)
    requires
        names_unique(entries),
        0 <= i < entries.len(),
    ensures
        has_table(entries, entries[i].0),
        table_position(entries, entries[i].0) == i,
{
    let k = entries[i].0;
    assert(has_table(entries, k));
    let p = table_position(entries, k);
    if p != i {
        if p < i {
            assert(entries[p].0 != entries[i].0);
        } else {
            assert(entries[i].0 != entries[p].0);
        }
    }
}

proof fn lemma_tables_insert(entries: Seq<(Seq<char>, TableModel)>, pos: int, e: (Seq<char>, TableModel))
    requires
        names_unique(entries),
        !has_table(entries, e.0),
        0 <= pos <= entries.len(),
    ensures
        names_unique(entries.insert(pos, e)),
        tables_map(entries.insert(pos, e)) == tables_map(entries).insert(e.0, e.1),
{
    let n = entries.insert(pos, e);
    assert forall|i: int, j: int| 0 <= i < j < n.len() implies (#[trigger] n[i]).0 != (#[trigger] n[j]).0 by {
        if i == pos {
            assert(n[j] == entries[j - 1]);
        } else if j == pos {
            assert(n[i] == entries[i]);
        } else {
            let ii = if i < pos { i } else { i - 1 };
            let jj = if j < pos { j } else { j - 1 };
            assert(n[i] == entries[ii]);
            assert(n[j] == entries[jj]);
        }
    }
    assert forall|k: Seq<char>| #[trigger] tables_map(n).contains_key(k) == tables_map(entries).insert(e.0, e.1).contains_key(k) by {
        if has_table(n, k) {
            let p = table_position(n, k);
            if p != pos {
                let q = if p < pos { p } else { p - 1 };
                assert(entries[q] == n[p]);
            }
        }
        if has_table(entries, k) {
            let p = table_position(entries, k);
            let q = if p < pos { p } else { p + 1 };
            assert(n[q] == entries[p]);
        }
        if k == e.0 {
            assert(n[pos] == e);
        }
    }
    assert forall|k: Seq<char>| #[trigger] tables_map(n).contains_key(k) implies tables_map(n)[k] == tables_map(entries).insert(e.0, e.1)[k] by {
        let p = table_position(n, k);
        lemma_place(n, p);
        if p != pos {
            let q = if p < pos { p } else { p - 1 };
            assert(entries[q] == n[p]);
            lemma_place(entries, q);
        }
    }
    assert(tables_map(n) =~= tables_map(entries).insert(e.0, e.1));
}

proof fn lemma_tables_update(entries: Seq<(Seq<char>, TableModel)>, i: int, t: TableModel)
    requires
        names_unique(entries),
        0 <= i < entries.len(),
    ensures
        tables_map(entries.update(i, (entries[i].0, t))) == tables_map(entries).insert(entries[i].0, t),
{
    let n = entries.update(i, (entries[i].0, t));
    assert forall|a: int, b: int| 0 <= a < b < n.len() implies (#[trigger] n[a]).0 != (#[trigger] n[b]).0 by {}
    assert forall|k: Seq<char>| #[trigger] tables_map(n).contains_key(k) == tables_map(entries).insert(entries[i].0, t).contains_key(k) by {
        if has_table(n, k) {
            let p = table_position(n, k);
            assert(entries[p].0 == n[p].0);
        }
        if has_table(entries, k) {
            let p = table_position(entries, k);
            assert(n[p].0 == entries[p].0);
        }
        lemma_place(entries, i);
    }
    assert forall|k: Seq<char>| #[trigger] tables_map(n).contains_key(k) implies tables_map(n)[k] == tables_map(entries).insert(entries[i].0, t)[k] by {
        let p = table_position(n, k);
        lemma_place(n, p);
        lemma_place(entries, p);
        lemma_place(entries, i);
    }
    assert(tables_map(n) =~= tables_map(entries).insert(entries[i].0, t));
}

/// One catalog entry, a name then a table, applied to the tables `m`: an
/// empty table is created under the schema's name (an empty or taken name is
/// an invalid operation), then the table read is stored under the entry's
/// name (which must then name a table, else table-not-found).
pub open spec fn parse_entry(s: Seq<u8>, m: Map<Seq<char>, TableModel>) -> Result<
    (Map<Seq<char>, TableModel>, int),
    ErrorKind,
> {
    match parse_text(s) {
        Err(e) => Err(e),
        Ok((name, k1)) => match parse_table(s.skip(k1)) {
            Err(e) => Err(e),
            Ok((t, k2)) => {
                let sname = t.schema.name;
                if sname.len() == 0 || m.contains_key(sname) {
                    Err(ErrorKind::InvalidOperation)
                } else {
                    let m1 = m.insert(sname, TableModel { schema: t.schema, rows: Seq::empty(), read_only: false });
                    if !m1.contains_key(name) {
                        Err(ErrorKind::TableNotFound)
                    } else {
                        Ok((m1.insert(name, t), k1 + k2))
                    }
                }
            },
        },
    }
}

/// `n` catalog entries applied in turn to the tables `m`.
pub open spec fn parse_entries(s: Seq<u8>, n: nat, m: Map<Seq<char>, TableModel>) -> Result<
    (Map<Seq<char>, TableModel>, int),
    ErrorKind,
>
    decreases n,
{
    if n == 0 {
        Ok((m, 0))
    } else {
        match parse_entry(s, m) {
            Err(e) => Err(e),
            Ok((m1, k)) => match parse_entries(s.skip(k), (n - 1) as nat, m1) {
                Err(e) => Err(e),
                Ok((mf, k2)) => Ok((mf, k + k2)),
            },
        }
    }
}

/// A database snapshot: the format version (another is corruption), the
/// `u32` count of tables (more than [`MAX_DECODED_ITEMS`] is corruption),
/// then the entries, starting from no table.
pub open spec fn parse_catalog(s: Seq<u8>) -> Result<(Map<Seq<char>, TableModel>, int), ErrorKind> {
    match parse_u32(s) {
        Err(e) => Err(e),
        Ok((v, _)) => if v != FORMAT_VERSION {
            Err(ErrorKind::Corruption)
        } else {
            match parse_u32(s.skip(4)) {
                Err(e) => Err(e),
                Ok((n, _)) => if n > MAX_DECODED_ITEMS {
                    Err(ErrorKind::Corruption)
                } else {
                    match parse_entries(s.skip(8), n as nat, Map::empty()) {
                        Err(e) => Err(e),
                        Ok((m, k)) => Ok((m, k + 8)),
                    }
                },
            }
        },
    }
}

/// The encoding of a catalog entry.
pub open spec fn entry_bytes(e: (Seq<char>, TableModel)) -> Seq<u8> {
    text_bytes(e.0) + table_bytes(e.1)
}

pub open spec fn entry_encoder() -> spec_fn((Seq<char>, TableModel)) -> Seq<u8> {
    |e: (Seq<char>, TableModel)| entry_bytes(e)
}

/// The encoding of a catalog.
pub open spec fn catalog_bytes(entries: Seq<(Seq<char>, TableModel)>) -> Seq<u8> {
    spec_u32_to_le_bytes(FORMAT_VERSION) + spec_u32_to_le_bytes(entries.len() as u32) + concat_bytes(
        entry_encoder(),
        entries,
    )
}

/// The encoding of a database's catalog (see [`catalog_bytes`]); more
/// tables than a `u32` counts, or a table that cannot be encoded, is an
/// invalid operation.
pub fn encode_catalog(catalog: &Catalog) -> (r: Result<Vec<u8>, DbError>)
    requires
        catalog.wf(),
    ensures
        r is Ok <==> (catalog@.len() <= u32::MAX && forall|i: int|
            0 <= i < catalog@.len() ==> table_encodable(#[trigger] catalog@[i].1)),
        r matches Ok(b) ==> b@ == catalog_bytes(catalog@),
        r matches Err(e) ==> e.kind() == ErrorKind::InvalidOperation,
{
    let entries = catalog.tables();
    if entries.len() > u32::MAX as usize {
        return Err(DbError::invalid_operation("catalog too large"));
    }
    let mut buf: Vec<u8> = Vec::new();
    push_u32(&mut buf, FORMAT_VERSION);
    push_u32(&mut buf, entries.len() as u32);
    let ghost b0 = buf@;
    let ghost view = catalog@;
    let mut i: usize = 0;
    while i < entries.len()
        invariant
            entries@.len() == view.len(),
            view == catalog@,
            forall|k: int|
                0 <= k < entries@.len() ==> (#[trigger] entries@[k]).0@ == view[k].0 && entries@[k].1@ == view[k].1
                    && entries@[k].1.wf(),
            i <= view.len(),
            buf@ == b0 + concat_bytes(entry_encoder(), view.subrange(0, i as int)),
            forall|k: int| 0 <= k < i ==> table_encodable(#[trigger] view[k].1),
        decreases view.len() - i,
    {
        let (name, table) = entries[i];
        encode_text(name, &mut buf);
        match encode_table(table, &mut buf) {
            Ok(()) => {},
            Err(e) => {
                return Err(e);
            },
        }
        proof {
            assert(view.subrange(0, i + 1) =~= view.subrange(0, i as int).push(view[i as int]));
            lemma_concat_push(entry_encoder(), view.subrange(0, i as int), view[i as int]);
        }
        i = i + 1;
    }
    assert(view.subrange(0, i as int) =~= view);
    Ok(buf)
}

fn decode_entry(r: &mut Reader, catalog: &mut Catalog) -> (res: Result<(), DbError>)
    requires
        old(r).wf(),
        old(catalog).wf(),
    ensures
        final(r).wf(),
        final(r).input() == old(r).input(),
        old(r).position() <= final(r).position(),
        match parse_entry(old(r).rest(), tables_map(old(catalog)@)) {
            Ok((m, n)) => (res is Ok && final(catalog).wf() && tables_map(final(catalog)@) == m
                && final(r).position() == old(r).position() + n),
            Err(k) => (res matches Err(e) && e.kind() == k),
        },
{
    let ghost r0 = *r;
    let ghost m0 = tables_map(catalog@);
    let name = read_text(r)?;
    let ghost r1 = *r;
    proof {
        lemma_rest_skip(r0, r1, r1.position() - r0.position());
    }
    let table = decode_table(r)?;
    proof {
        lemma_catalog_unique(catalog);
        assert(m0.contains_key(table@.schema.name) == has_table(catalog@, table@.schema.name));
    }
    let ghost v0 = catalog@;
    catalog.create_table(table.schema().duplicate())?;
    let ghost v1 = catalog@;
    let ghost fresh = TableModel { schema: table@.schema, rows: Seq::empty(), read_only: false };
    proof {
        let pos = choose|pos: int| 0 <= pos <= v0.len() && v1 == v0.insert(pos, (table@.schema.name, fresh));
        lemma_tables_insert(v0, pos, (table@.schema.name, fresh));
        assert(tables_map(v1).contains_key(name@) == has_table(v1, name@));
    }
    match catalog.get_table_mut(name.as_str()) {
        Some(t) => {
            *t = table;
        },
        None => {
            return Err(DbError::table_not_found(name.as_str()));
        },
    }
    proof {
        let p = table_position(v1, name@);
        lemma_tables_update(v1, p, table@);
    }
    Ok(())
}

/// Reads a database's catalog (see [`parse_catalog`]); what follows it is
/// ignored.
pub fn decode_catalog(data: &[u8]) -> (res: Result<Catalog, DbError>)
    ensures
        match parse_catalog(data@) {
            Ok((m, _)) => (res matches Ok(c) && c.wf() && tables_map(c@) == m),
            Err(k) => (res matches Err(e) && e.kind() == k),
        },
{
    let mut r = Reader::new(data);
    let ghost r0 = r;
    let version = r.read_u32()?;
    proof {
        lemma_rest_skip(r0, r, 4);
    }
    if version != FORMAT_VERSION {
        return Err(DbError::corruption("unsupported format version"));
    }
    let count = r.read_u32()?;
    let ghost r8 = r;
    proof {
        lemma_rest_skip(r0, r8, 8);
        assert(data@.skip(4).skip(4) =~= data@.skip(8));
    }
    if count > MAX_DECODED_ITEMS {
        return Err(DbError::corruption("too many tables"));
    }
    let ghost s8 = r8.rest();
    assert(parse_catalog(data@) == match parse_entries(s8, count as nat, Map::empty()) {
        Err(e) => Err(e),
        Ok((m, k)) => Ok((m, k + 8)),
    });
    let mut catalog = Catalog::new();
    proof {
        assert(tables_map(catalog@) =~= Map::<Seq<char>, TableModel>::empty());
    }
    let mut i: u32 = 0;
    while i < count
        invariant
            parse_catalog(data@) == match parse_entries(s8, count as nat, Map::empty()) {
                Err(e) => Err(e),
                Ok((m, k)) => Ok((m, k + 8)),
            },
            r.wf(),
            r8.wf(),
            r.input() == r8.input(),
            r8.position() <= r.position(),
            s8 == r8.rest(),
            catalog.wf(),
            i <= count,
            parse_entries(s8, count as nat, Map::empty()) == match parse_entries(
                r.rest(),
                (count - i) as nat,
                tables_map(catalog@),
            ) {
                Err(e) => Err(e),
                Ok((m, k)) => Ok((m, k + (r.position() - r8.position()))),
            },
        decreases count - i,
    {
        let ghost ri = r;
        match decode_entry(&mut r, &mut catalog) {
            Ok(()) => {},
            Err(e) => {
                return Err(e);
            },
        }
        proof {
            lemma_rest_skip(ri, r, r.position() - ri.position());
        }
        i = i + 1;
    }
    Ok(catalog)
}

/// `res` is what decoding the snapshot `bytes` gives (see
/// [`parse_catalog`]).
pub open spec fn decoded_as(bytes: Seq<u8>, res: Result<Catalog, DbError>) -> bool {
    match parse_catalog(bytes) {
        Ok((m, _)) => (res matches Ok(c) && c.wf() && tables_map(c@) == m),
        Err(k) => (res matches Err(e) && e.kind() == k),
    }
}

/// The catalog a database opens with: the snapshot of its data file, if it
/// has one, replaced by the last snapshot of its log, if there is one. A
/// snapshot that does not decode is an error, even one that a later one
/// would replace.
pub fn open_catalog(data: Option<&[u8]>, log: &[Vec<u8>]) -> (res: Result<Catalog, DbError>)
    ensures
        match data {
            Some(d) => if parse_catalog(d@) is Err || log@.len() == 0 {
                decoded_as(d@, res)
            } else {
                decoded_as(log@.last()@, res)
            },
            None => if log@.len() == 0 {
                (res matches Ok(c) && c.wf() && c@.len() == 0)
            } else {
                decoded_as(log@.last()@, res)
            },
        },
{
    let mut catalog = Catalog::new();
    match data {
        Some(d) => {
            catalog = decode_catalog(d)?;
        },
        None => {},
    }
    if log.len() > 0 {
        catalog = decode_catalog(log[log.len() - 1].as_slice())?;
    }
    Ok(catalog)
}

/// Rows that a snapshot gives back as they are: each already has its
/// column defaults in place of its nulls, and holds only values that can be
/// read back.
pub open spec fn rows_fit(cols: Seq<ColumnModel>, rows: Seq<Seq<ValueModel>>) -> bool {
    &&& rows.len() <= MAX_DECODED_ROWS
    &&& forall|r: int| 0 <= r < rows.len() ==> fill_defaults(cols, #[trigger] rows[r]) == rows[r]
    &&& forall|r: int, i: int|
        0 <= r < rows.len() && 0 <= i < rows[r].len() ==> encodable(#[trigger] rows[r][i])
}

#[verifier::rlimit(100)]
proof fn lemma_load_rows(cols: Seq<ColumnModel>, schema: crate::schema::SchemaModel, all: Seq<Seq<ValueModel>>, i: nat, rest: Seq<u8>)
    requires
        schema.columns == cols,
        schema_fits(schema),
        table_invariant(schema, all),
        rows_fit(cols, all),
        i <= all.len(),
    ensures
        load_rows(
            concat_bytes(row_encoder(), all.subrange(i as int, all.len() as int)) + rest,
            (all.len() - i) as nat,
            cols,
            false,
            all.subrange(0, i as int),
        ) == Ok::<(Seq<Seq<ValueModel>>, int), ErrorKind>(
            (all, concat_bytes(row_encoder(), all.subrange(i as int, all.len() as int)).len() as int),
        ),
    decreases all.len() - i,
{
    let n = all.len() as int;
    let xs = all.subrange(i as int, n);
    if i == all.len() {
        assert(xs.map_values(row_encoder()) =~= Seq::<Seq<u8>>::empty());
        assert(concat_bytes(row_encoder(), xs) =~= Seq::<u8>::empty());
        assert(all.subrange(0, i as int) =~= all);
    } else {
        let tail = all.subrange(i as int + 1, n);
        let x = all[i as int];
        lemma_load_rows(cols, schema, all, i + 1, rest);
        assert(xs.map_values(row_encoder()).drop_first() =~= tail.map_values(row_encoder()));
        assert(concat_bytes(row_encoder(), xs) == row_bytes(x) + concat_bytes(row_encoder(), tail));
        let s = concat_bytes(row_encoder(), xs) + rest;
        assert(s =~= row_bytes(x) + (concat_bytes(row_encoder(), tail) + rest));
        // the row reads back
        assert(crate::schema::values_valid(cols, all[i as int]));
        assert(x.len() == cols.len());
        assert forall|k: int| 0 <= k < x.len() implies encodable(#[trigger] x[k]) by {
            assert(encodable(all[i as int][k]));
        }
        lemma_row_roundtrip(x, concat_bytes(row_encoder(), tail) + rest);
        assert(s.skip(row_bytes(x).len() as int) =~= concat_bytes(row_encoder(), tail) + rest);
        // the table takes it
        let done = all.subrange(0, i as int);
        assert(fill_defaults(cols, all[i as int]) == all[i as int]);
        assert(!clashes(cols, done, x)) by {
            if clashes(cols, done, x) {
                let (c, r) = choose|c: int, r: int|
                    0 <= c < cols.len() && (#[trigger] cols[c]).is_keyed() && cell_key(x[c]) is Some && 0
                        <= r < done.len() && cell_key(#[trigger] done[r][c]) == cell_key(x[c]);
                assert(keys_unique(all, c));
                assert(done[r] == all[r]);
                assert(cell_key(all[i as int][c]) != cell_key(all[r][c]));
            }
        }
        assert(done.push(x) =~= all.subrange(0, i as int + 1));
    }
}

/// A table reads back from its encoding, when it is writable or empty (a
/// read-only table refuses the rows it is read back with), its schema fits
/// (see [`schema_fits`]) and its rows fit (see [`rows_fit`]).
#[verifier::spinoff_prover]
#[verifier::rlimit(100)]
pub proof fn lemma_table_roundtrip(t: TableModel, rest: Seq<u8>)
    requires
        t.read_only ==> t.rows.len() == 0,
        schema_fits(t.schema),
        table_invariant(t.schema, t.rows),
        rows_fit(t.schema.columns, t.rows),
    ensures
        parse_table(table_bytes(t) + rest) == Ok::<(TableModel, int), ErrorKind>((t, table_bytes(t).len() as int)),
{
    lemma_auto_spec_u32_to_from_le_bytes();
    let a = schema_bytes(t.schema);
    let b = seq![flag_byte(t.read_only)];
    let c = spec_u32_to_le_bytes(t.rows.len() as u32);
    let d = concat_bytes(row_encoder(), t.rows);
    let s = table_bytes(t) + rest;
    assert(s =~= a + (b + c + d + rest));
    lemma_schema_roundtrip(t.schema, b + c + d + rest);
    let n1 = a.len() as int;
    assert(s.skip(n1) =~= b + (c + d + rest));
    assert(s.skip(n1 + 1) =~= c + (d + rest));
    assert((c + (d + rest)).subrange(0, 4) =~= c);
    assert(s.skip(n1 + 5) =~= d + rest);
    assert(t.rows.subrange(0, t.rows.len() as int) =~= t.rows);
    assert(t.rows.subrange(0, 0) =~= Seq::<Seq<ValueModel>>::empty());
    if t.rows.len() > 0 {
        lemma_load_rows(t.schema.columns, t.schema, t.rows, 0, rest);
    } else {
        assert(d =~= Seq::<u8>::empty()) by {
            assert(t.rows.map_values(row_encoder()) =~= Seq::<Seq<u8>>::empty());
        }
    }
}

/// A table that a snapshot gives back as it is (see [`lemma_table_roundtrip`]).
pub open spec fn table_fits(t: TableModel) -> bool {
    &&& t.read_only ==> t.rows.len() == 0
    &&& schema_fits(t.schema)
    &&& table_invariant(t.schema, t.rows)
    &&& rows_fit(t.schema.columns, t.rows)
}

/// Catalog entries that a snapshot gives back: each named after its
/// table's schema, with a table that fits, no two under one name.
pub open spec fn entries_fit(entries: Seq<(Seq<char>, TableModel)>) -> bool {
    &&& names_unique(entries)
    &&& forall|i: int|
        0 <= i < entries.len() ==> (#[trigger] entries[i]).1.schema.name == entries[i].0 && table_fits(
            entries[i].1,
        )
}

proof fn lemma_entry_roundtrip(e: (Seq<char>, TableModel), m: Map<Seq<char>, TableModel>, rest: Seq<u8>)
    requires
        e.1.schema.name == e.0,
        table_fits(e.1),
        !m.contains_key(e.0),
    ensures
        parse_entry(entry_bytes(e) + rest, m) == Ok::<(Map<Seq<char>, TableModel>, int), ErrorKind>(
            (m.insert(e.0, e.1), entry_bytes(e).len() as int),
        ),
{
    let t = text_bytes(e.0);
    let s = entry_bytes(e) + rest;
    assert(s =~= t + (table_bytes(e.1) + rest));
    lemma_text_roundtrip(e.0, table_bytes(e.1) + rest);
    assert(s.skip(t.len() as int) =~= table_bytes(e.1) + rest);
    lemma_table_roundtrip(e.1, rest);
    assert(m.insert(e.0, TableModel { schema: e.1.schema, rows: Seq::empty(), read_only: false }).insert(e.0, e.1)
        =~= m.insert(e.0, e.1));
}

#[verifier::spinoff_prover]
#[verifier::rlimit(100)]
proof fn lemma_entries_roundtrip(xs: Seq<(Seq<char>, TableModel)>, m: Map<Seq<char>, TableModel>, rest: Seq<u8>)
    requires
        entries_fit(xs),
        forall|i: int| 0 <= i < xs.len() ==> !m.contains_key(#[trigger] xs[i].0),
    ensures
        parse_entries(concat_bytes(entry_encoder(), xs) + rest, xs.len(), m) == Ok::<
            (Map<Seq<char>, TableModel>, int),
            ErrorKind,
        >((m.union_prefer_right(tables_map(xs)), concat_bytes(entry_encoder(), xs).len() as int)),
    decreases xs.len(),
{
    if xs.len() == 0 {
        assert(xs.map_values(entry_encoder()) =~= Seq::<Seq<u8>>::empty());
        assert(concat_bytes(entry_encoder(), xs) =~= Seq::<u8>::empty());
        assert(m.union_prefer_right(tables_map(xs)) =~= m);
    } else {
        let x = xs[0];
        let tail = xs.drop_first();
        assert(entries_fit(tail)) by {
            assert forall|i: int, j: int| 0 <= i < j < tail.len() implies (#[trigger] tail[i]).0
                != (#[trigger] tail[j]).0 by {
                assert(tail[i] == xs[i + 1] && tail[j] == xs[j + 1]);
            }
            assert forall|i: int| 0 <= i < tail.len() implies (#[trigger] tail[i]).1.schema.name
                == tail[i].0 && table_fits(tail[i].1) by {
                assert(tail[i] == xs[i + 1]);
            }
        }
        let m1 = m.insert(x.0, x.1);
        assert forall|i: int| 0 <= i < tail.len() implies !m1.contains_key(#[trigger] tail[i].0) by {
            assert(tail[i] == xs[i + 1]);
            assert(xs[0].0 != xs[i + 1].0);
        }
        assert(!m.contains_key(x.0));
        assert(xs[0].1.schema.name == xs[0].0 && table_fits(xs[0].1));
        lemma_entries_roundtrip(tail, m1, rest);
        assert(xs.map_values(entry_encoder()).drop_first() =~= tail.map_values(entry_encoder()));
        assert(concat_bytes(entry_encoder(), xs) == entry_bytes(x) + concat_bytes(entry_encoder(), tail));
        let s = concat_bytes(entry_encoder(), xs) + rest;
        assert(s =~= entry_bytes(x) + (concat_bytes(entry_encoder(), tail) + rest));
        lemma_entry_roundtrip(x, m, concat_bytes(entry_encoder(), tail) + rest);
        assert(s.skip(entry_bytes(x).len() as int) =~= concat_bytes(entry_encoder(), tail) + rest);
        assert(!has_table(tail, x.0)) by {
            if has_table(tail, x.0) {
                let i = choose|i: int| 0 <= i < tail.len() && (#[trigger] tail[i]).0 == x.0;
                assert(xs[i + 1].0 == xs[0].0);
            }
        }
        lemma_tables_insert(tail, 0, x);
        assert(tail.insert(0, x) =~= xs);
        assert(m1.union_prefer_right(tables_map(tail)) =~= m.union_prefer_right(tables_map(xs)));
    }
}

/// Decoding a database snapshot gives back its tables by name, with their
/// rows, for a catalog whose entries fit (see [`entries_fit`]) and number no
/// more than [`MAX_DECODED_ITEMS`].
pub proof fn lemma_snapshot_roundtrip(entries: Seq<(Seq<char>, TableModel)>)
    requires
        entries_fit(entries),
        entries.len() <= MAX_DECODED_ITEMS,
    ensures
        parse_catalog(catalog_bytes(entries)) == Ok::<(Map<Seq<char>, TableModel>, int), ErrorKind>(
            (tables_map(entries), catalog_bytes(entries).len() as int),
        ),
{
    lemma_auto_spec_u32_to_from_le_bytes();
    let v = spec_u32_to_le_bytes(FORMAT_VERSION);
    let c = spec_u32_to_le_bytes(entries.len() as u32);
    let body = concat_bytes(entry_encoder(), entries);
    let s = catalog_bytes(entries);
    assert(s.subrange(0, 4) =~= v);
    assert(s.skip(4).subrange(0, 4) =~= c);
    assert(s.skip(8) =~= body + Seq::<u8>::empty());
    lemma_entries_roundtrip(entries, Map::empty(), Seq::empty());
    assert(Map::<Seq<char>, TableModel>::empty().union_prefer_right(tables_map(entries)) =~= tables_map(entries));
}

} // verus!
