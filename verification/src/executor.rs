use crate::catalog::{has_table, table_position, Catalog};
use crate::error::{DbError, ErrorKind};
use crate::row::{models, Row};
use crate::schema::{
    column_verdict, first_failure, type_accepts, validation_error, values_valid, ColumnModel,
    SchemaModel, TableSchema, Verdict,
};
use crate::table::{
    cell_key, clashes, fill_defaults, keys_unique, row_models, rows_keys_unique, rows_valid,
    Table, TableModel,
};
use crate::text::eq_ignore_ascii_case;
use crate::value::{values_match, Value, ValueModel};
use vstd::prelude::*;
use vstd::utf8::encode_utf8;

verus! {

/// A filter on the rows: the named column must equal `value`.
#[derive(Debug, Clone, PartialEq)]
pub struct WhereClause {
    pub column: String,
    pub value: Value,
}

/// A statement that an [`Executor`] carries out.
#[derive(Debug, Clone, PartialEq)]
pub enum Statement {
    CreateTable(TableSchema),
    DropTable(String),
    Insert { table: String, values: Vec<Value> },
    Select { table: String, columns: Vec<String>, where_clause: Option<WhereClause> },
    Update { table: String, assignments: Vec<(String, Value)>, where_clause: Option<WhereClause> },
    Delete { table: String, where_clause: Option<WhereClause> },
}

/// What a statement returns.
#[derive(Debug, Clone, PartialEq)]
pub enum QueryResult {
    Empty,
    Rows(Vec<Row>),
    AffectedRows(usize),
}

/// The filter of a where clause, as a column name and a value.
pub open spec fn where_model(w: Option<WhereClause>) -> Option<(Seq<char>, ValueModel)> {
    match w {
        Some(c) => Some((c.column@, c.value@)),
        None => None,
    }
}

/// Whether column `c` has the name `name`, up to ASCII case.
pub open spec fn name_matches(c: ColumnModel, name: Seq<char>) -> bool {
    eq_ignore_ascii_case(encode_utf8(c.name), encode_utf8(name))
}

/// Column `i` is the first one named `name`.
pub open spec fn first_named(cols: Seq<ColumnModel>, name: Seq<char>, i: int) -> bool {
    &&& 0 <= i < cols.len()
    &&& name_matches(cols[i], name)
    &&& forall|j: int| 0 <= j < i ==> !name_matches(#[trigger] cols[j], name)
}

/// The position of the first column named `name`, if any.
pub open spec fn column_pos(cols: Seq<ColumnModel>, name: Seq<char>) -> Option<int> {
    if exists|i: int| #[trigger] first_named(cols, name, i) {
        Some(choose|i: int| #[trigger] first_named(cols, name, i))
    } else {
        None
    }
}

proof fn lemma_first_named_unique(cols: Seq<ColumnModel>, name: Seq<char>, i: int, k: int)
    requires
        first_named(cols, name, i),
        first_named(cols, name, k),
    ensures
        i == k,
{
    if i < k {
        assert(!name_matches(cols[i], name));
    } else if k < i {
        assert(!name_matches(cols[k], name));
    }
}

/// The value in place `i` of a row, or null past its end.
pub open spec fn cell_or_null(row: Seq<ValueModel>, i: int) -> ValueModel {
    if 0 <= i < row.len() {
        row[i]
    } else {
        ValueModel::Null
    }
}

/// Whether a row passes a filter whose column is at `pos`.
pub open spec fn passes_at(row: Seq<ValueModel>, pos: int, value: ValueModel) -> bool {
    values_match(cell_or_null(row, pos), value)
}

/// Whether a row passes a filter (no filter lets every row pass); the filter
/// is `Err` when its column does not exist.
pub open spec fn passes(row: Seq<ValueModel>, cols: Seq<ColumnModel>, w: Option<(Seq<char>, ValueModel)>) -> Result<bool, ErrorKind> {
    match w {
        None => Ok(true),
        Some((name, value)) => match column_pos(cols, name) {
            None => Err(ErrorKind::ColumnNotFound),
            Some(p) => Ok(passes_at(row, p, value)),
        },
    }
}

/// The positions of the named columns, the first missing one making it `Err`.
pub open spec fn projection(cols: Seq<ColumnModel>, names: Seq<Seq<char>>) -> Result<Seq<int>, ErrorKind>
    decreases names.len(),
{
    if names.len() == 0 {
        Ok(Seq::empty())
    } else {
        match projection(cols, names.drop_last()) {
            Err(e) => Err(e),
            Ok(p) => match column_pos(cols, names.last()) {
                None => Err(ErrorKind::ColumnNotFound),
                Some(i) => Ok(p.push(i)),
            },
        }
    }
}

/// The columns a select returns: all of them when none is named.
pub open spec fn select_columns(cols: Seq<ColumnModel>, names: Seq<Seq<char>>) -> Result<Seq<int>, ErrorKind> {
    if names.len() == 0 {
        Ok(Seq::new(cols.len(), |i: int| i))
    } else {
        projection(cols, names)
    }
}

/// The values of a row at the given positions.
pub open spec fn project(row: Seq<ValueModel>, proj: Seq<int>) -> Seq<ValueModel> {
    Seq::new(proj.len(), |k: int| cell_or_null(row, proj[k]))
}

/// The rows that pass a filter on column `pos`, projected (every row when
/// there is no filter).
pub open spec fn select_rows(rows: Seq<Seq<ValueModel>>, filter: Option<(int, ValueModel)>, proj: Seq<int>) -> Seq<Seq<ValueModel>>
    decreases rows.len(),
{
    if rows.len() == 0 {
        Seq::empty()
    } else {
        let acc = select_rows(rows.drop_last(), filter, proj);
        let row = rows.last();
        let keep = match filter {
            None => true,
            Some((p, v)) => passes_at(row, p, v),
        };
        if keep {
            acc.push(project(row, proj))
        } else {
            acc
        }
    }
}

/// The filter of a statement resolved against the columns: `Err` when its
/// column is missing.
pub open spec fn resolve_filter(cols: Seq<ColumnModel>, w: Option<(Seq<char>, ValueModel)>) -> Result<Option<(int, ValueModel)>, ErrorKind> {
    match w {
        None => Ok(None),
        Some((name, value)) => match column_pos(cols, name) {
            None => Err(ErrorKind::ColumnNotFound),
            Some(p) => Ok(Some((p, value))),
        },
    }
}

/// The error kind validation reports for an invalid row (see [`validation_error`]).
pub open spec fn validation_kind(cols: Seq<ColumnModel>, vals: Seq<ValueModel>) -> ErrorKind {
    if vals.len() != cols.len() {
        ErrorKind::InvalidOperation
    } else {
        let i = choose|i: int| #[trigger] first_failure(cols, vals, i);
        if column_verdict(cols[i], vals[i]) is WrongType {
            ErrorKind::TypeMismatch
        } else {
            ErrorKind::InvalidOperation
        }
    }
}

pub proof fn lemma_validation_kind(cols: Seq<ColumnModel>, vals: Seq<ValueModel>, e: DbError)
    requires
        validation_error(cols, vals, e),
    ensures
        e.kind() == validation_kind(cols, vals),
{
    if vals.len() == cols.len() {
        let i = choose|i: int|
            #[trigger] first_failure(cols, vals, i) && if column_verdict(cols[i], vals[i]) is WrongType {
                e is TypeMismatch
            } else {
                e is InvalidOperation
            };
        let k = choose|i: int| #[trigger] first_failure(cols, vals, i);
        if i < k {
            assert(column_verdict(cols[i], vals[i]) is Pass);
        } else if k < i {
            assert(column_verdict(cols[k], vals[k]) is Pass);
        }
    }
}

/// What inserting `vals` into a table gives: the new table, or the kind of
/// the error that refuses it.
pub open spec fn insert_outcome(t: TableModel, vals: Seq<ValueModel>) -> Result<TableModel, ErrorKind> {
    let cols = t.schema.columns;
    let filled = fill_defaults(cols, vals);
    if t.read_only || vals.len() != cols.len() {
        Err(ErrorKind::InvalidOperation)
    } else if !values_valid(cols, filled) {
        Err(validation_kind(cols, filled))
    } else if clashes(cols, t.rows, filled) {
        Err(ErrorKind::InvalidOperation)
    } else {
        Ok(TableModel { rows: t.rows.push(filled), ..t })
    }
}

/// A row with the assignments applied in order: each names a column, which
/// must exist, and gives a value, which must be null or of the column's type.
pub open spec fn assign(row: Seq<ValueModel>, cols: Seq<ColumnModel>, assigns: Seq<(Seq<char>, ValueModel)>) -> Result<Seq<ValueModel>, ErrorKind>
    decreases assigns.len(),
{
    if assigns.len() == 0 {
        Ok(row)
    } else {
        match assign(row, cols, assigns.drop_last()) {
            Err(e) => Err(e),
            Ok(v) => {
                let (name, value) = assigns.last();
                match column_pos(cols, name) {
                    None => Err(ErrorKind::ColumnNotFound),
                    Some(i) => if !(value is Null) && !type_accepts(cols[i].data_type, value) {
                        Err(ErrorKind::TypeMismatch)
                    } else {
                        Ok(v.update(i, value))
                    },
                }
            },
        }
    }
}

/// The updated row, or why it cannot be: an assignment fails, or the row
/// it makes is one the schema rejects.
pub open spec fn update_row(row: Seq<ValueModel>, cols: Seq<ColumnModel>, assigns: Seq<(Seq<char>, ValueModel)>) -> Result<Seq<ValueModel>, ErrorKind> {
    match assign(row, cols, assigns) {
        Err(e) => Err(e),
        Ok(v) => if values_valid(cols, v) {
            Ok(v)
        } else {
            Err(validation_kind(cols, v))
        },
    }
}

/// The rows after an update, with the count of rows updated; the first row
/// whose update fails makes it `Err`.
pub open spec fn update_rows(rows: Seq<Seq<ValueModel>>, cols: Seq<ColumnModel>, filter: Option<(int, ValueModel)>, assigns: Seq<(Seq<char>, ValueModel)>) -> Result<(Seq<Seq<ValueModel>>, nat), ErrorKind>
    decreases rows.len(),
{
    if rows.len() == 0 {
        Ok((Seq::empty(), 0))
    } else {
        match update_rows(rows.drop_last(), cols, filter, assigns) {
            Err(e) => Err(e),
            Ok((acc, n)) => {
                let row = rows.last();
                let hit = match filter {
                    None => true,
                    Some((p, v)) => passes_at(row, p, v),
                };
                if hit {
                    match update_row(row, cols, assigns) {
                        Err(e) => Err(e),
                        Ok(v) => Ok((acc.push(v), n + 1)),
                    }
                } else {
                    Ok((acc.push(row), n))
                }
            },
        }
    }
}

proof fn lemma_update_rows_err(rows: Seq<Seq<ValueModel>>, cols: Seq<ColumnModel>, filter: Option<(int, ValueModel)>, assigns: Seq<(Seq<char>, ValueModel)>, k: int)
    requires
        0 <= k <= rows.len(),
        update_rows(rows.subrange(0, k), cols, filter, assigns) is Err,
    ensures
        update_rows(rows, cols, filter, assigns) == update_rows(rows.subrange(0, k), cols, filter, assigns),
    decreases rows.len() - k,
{
    if k == rows.len() {
        assert(rows.subrange(0, k) =~= rows);
    } else {
        assert(rows.subrange(0, k + 1).drop_last() =~= rows.subrange(0, k));
        lemma_update_rows_err(rows, cols, filter, assigns, k + 1);
    }
}

/// Some unique or primary-key column repeats a non-null value among `rows`
/// (by `==` on values).
pub open spec fn repeats_value(cols: Seq<ColumnModel>, rows: Seq<Seq<ValueModel>>) -> bool {
    exists|c: int, i: int, j: int|
        0 <= c < cols.len() && (#[trigger] cols[c]).is_keyed() && 0 <= i < j < rows.len() && !(cell_or_null(
            #[trigger] rows[j],
            c,
        ) is Null) && values_match(cell_or_null(#[trigger] rows[i], c), cell_or_null(rows[j], c))
}

/// The rows that do not pass a filter (none when there is no filter), and
/// the count of the others.
pub open spec fn delete_rows(rows: Seq<Seq<ValueModel>>, filter: Option<(int, ValueModel)>) -> (Seq<Seq<ValueModel>>, nat)
    decreases rows.len(),
{
    if rows.len() == 0 {
        (Seq::empty(), 0)
    } else {
        let (acc, n) = delete_rows(rows.drop_last(), filter);
        let row = rows.last();
        let hit = match filter {
            None => true,
            Some((p, v)) => passes_at(row, p, v),
        };
        if hit {
            (acc, n + 1)
        } else {
            (acc.push(row), n)
        }
    }
}

/// The table after its rows are replaced, when the replacement is accepted
/// (see [`Table::replace_rows`]); unchanged otherwise.
pub open spec fn after_replace(t: TableModel, rows: Seq<Seq<ValueModel>>) -> TableModel {
    if !t.read_only && rows_valid(t.schema.columns, rows) && rows_keys_unique(t.schema.columns, rows) {
        TableModel { rows, ..t }
    } else {
        t
    }
}

/// The model of a query result.
pub enum ResultModel {
    Empty,
    Rows(Seq<Seq<ValueModel>>),
    AffectedRows(nat),
}

pub open spec fn result_model(r: QueryResult) -> ResultModel {
    match r {
        QueryResult::Empty => ResultModel::Empty,
        QueryResult::Rows(rows) => ResultModel::Rows(row_models(rows@)),
        QueryResult::AffectedRows(n) => ResultModel::AffectedRows(n as nat),
    }
}

pub open spec fn string_models(s: Seq<String>) -> Seq<Seq<char>> {
    s.map_values(|x: String| x@)
}

pub open spec fn assignment_models(s: Seq<(String, Value)>) -> Seq<(Seq<char>, ValueModel)> {
    s.map_values(|x: (String, Value)| (x.0@, x.1@))
}


pub open spec fn index_models(s: Seq<usize>) -> Seq<int> {
    s.map_values(|x: usize| x as int)
}

/// The position of the first column named `name`.
pub fn resolve_column(schema: &TableSchema, name: &str) -> (r: Result<usize, DbError>)
    ensures
        r is Err <==> column_pos(schema@.columns, name@) is None,
        r matches Ok(i) ==> column_pos(schema@.columns, name@) == Some(i as int),
        r matches Err(e) ==> e is ColumnNotFound,
{
    let ghost cols = schema@.columns;
    match schema.column_index(name) {
        Some(i) => {
            proof {
                assert(first_named(cols, name@, i as int));
                let k = choose|k: int| #[trigger] first_named(cols, name@, k);
                lemma_first_named_unique(cols, name@, i as int, k);
            }
            Ok(i)
        },
        None => {
            proof {
                if exists|i: int| #[trigger] first_named(cols, name@, i) {
                    let k = choose|k: int| #[trigger] first_named(cols, name@, k);
                    assert(name_matches(cols[k], name@));
                }
            }
            Err(DbError::column_not_found(name))
        },
    }
}

/// Whether `row` passes the where clause.
pub fn matches_where(row: &Row, schema: &TableSchema, wc: &WhereClause) -> (r: Result<bool, DbError>)
    ensures
        r is Err <==> column_pos(schema@.columns, wc.column@) is None,
        r matches Err(e) ==> e is ColumnNotFound,
        r matches Ok(b) ==> b == passes_at(row@, column_pos(schema@.columns, wc.column@).unwrap(), wc.value@),
{
    let idx = resolve_column(schema, wc.column.as_str())?;
    let r = match row.get(idx) {
        Some(v) => v.equals(&wc.value),
        None => Value::Null.equals(&wc.value),
    };
    Ok(r)
}

/// Copies the values of `row` at the given positions (null past its end).
fn project_row(row: &Row, indices: &[usize]) -> (r: Row)
    ensures
        r@ == project(row@, index_models(indices@)),
{
    let mut out: Vec<Value> = Vec::new();
    let mut k: usize = 0;
    while k < indices.len()
        invariant
            k <= indices@.len(),
            out@.len() == k,
            forall|j: int| 0 <= j < k ==> #[trigger] models(out@)[j] == cell_or_null(row@, indices@[j] as int),
        decreases indices@.len() - k,
    {
        let v = match row.get(indices[k]) {
            Some(v) => v.duplicate(),
            None => Value::Null,
        };
        assert(v@ == cell_or_null(row@, indices@[k as int] as int));
        let ghost prev = models(out@);
        out.push(v);
        proof {
            assert(models(out@)[k as int] == v@);
            assert forall|j: int| 0 <= j < k + 1 implies #[trigger] models(out@)[j] == cell_or_null(row@, indices@[j] as int) by {
                if j < k {
                    assert(models(out@)[j] == prev[j]);
                }
            }
        }
        k = k + 1;
    }
    let r = Row::new(out);
    assert(r@ =~= project(row@, index_models(indices@)));
    r
}

/// The positions of the columns a select returns.
fn select_indices(schema: &TableSchema, columns: &[String]) -> (r: Result<Vec<usize>, DbError>)
    ensures
        r is Ok <==> select_columns(schema@.columns, string_models(columns@)) is Ok,
        r matches Ok(v) ==> select_columns(schema@.columns, string_models(columns@)) == Ok::<Seq<int>, ErrorKind>(index_models(v@)),
        r matches Err(e) ==> select_columns(schema@.columns, string_models(columns@)) == Err::<Seq<int>, ErrorKind>(e.kind()),
{
    let ghost cols = schema@.columns;
    let ghost names = string_models(columns@);
    let mut out: Vec<usize> = Vec::new();
    if columns.len() == 0 {
        let n = schema.columns().len();
        let mut i: usize = 0;
        while i < n
            invariant
                n == cols.len(),
                i <= n,
                out@.len() == i,
                forall|j: int| 0 <= j < i ==> out@[j] == j,
            decreases n - i,
        {
            out.push(i);
            i = i + 1;
        }
        assert(index_models(out@) =~= Seq::new(cols.len(), |i: int| i));
        return Ok(out);
    }
    let mut i: usize = 0;
    proof {
        assert(names.subrange(0, 0) =~= Seq::<Seq<char>>::empty());
        assert(index_models(out@) =~= Seq::<int>::empty());
    }
    while i < columns.len()
        invariant
            cols == schema@.columns,
            names == string_models(columns@),
            i <= columns@.len(),
            projection(cols, names.subrange(0, i as int)) == Ok::<Seq<int>, ErrorKind>(index_models(out@)),
        decreases columns@.len() - i,
    {
        proof {
            assert(names.subrange(0, i + 1).drop_last() =~= names.subrange(0, i as int));
            assert(names.subrange(0, i + 1).last() == columns@[i as int]@);
        }
        match resolve_column(schema, columns[i].as_str()) {
            Ok(idx) => {
                let ghost prev = index_models(out@);
                out.push(idx);
                proof {
                    assert(index_models(out@) =~= prev.push(idx as int));
                }
            },
            Err(e) => {
                proof {
                    lemma_projection_err(cols, names, i as int + 1);
                }
                return Err(e);
            },
        }
        i = i + 1;
    }
    proof {
        assert(names.subrange(0, columns@.len() as int) =~= names);
    }
    Ok(out)
}

proof fn lemma_projection_err(cols: Seq<ColumnModel>, names: Seq<Seq<char>>, k: int)
    requires
        0 <= k <= names.len(),
        projection(cols, names.subrange(0, k)) is Err,
    ensures
        projection(cols, names) == projection(cols, names.subrange(0, k)),
    decreases names.len() - k,
{
    if k == names.len() {
        assert(names.subrange(0, k) =~= names);
    } else {
        assert(names.subrange(0, k + 1).drop_last() =~= names.subrange(0, k));
        lemma_projection_err(cols, names, k + 1);
    }
}


/// The rows a select returns, or the kind of the error that refuses it.
pub open spec fn select_outcome(t: TableModel, names: Seq<Seq<char>>, w: Option<(Seq<char>, ValueModel)>) -> Result<Seq<Seq<ValueModel>>, ErrorKind> {
    let cols = t.schema.columns;
    match select_columns(cols, names) {
        Err(e) => Err(e),
        Ok(p) => match resolve_filter(cols, w) {
            Err(e) => if t.rows.len() > 0 {
                Err(e)
            } else {
                Ok(Seq::empty())
            },
            Ok(f) => Ok(select_rows(t.rows, f, p)),
        },
    }
}

/// The table after an update and the count of rows updated, or the kind of
/// the error that refuses it.
pub open spec fn update_outcome(t: TableModel, assigns: Seq<(Seq<char>, ValueModel)>, w: Option<(Seq<char>, ValueModel)>) -> Result<(TableModel, nat), ErrorKind> {
    let cols = t.schema.columns;
    let filt = resolve_filter(cols, w);
    if filt is Err && t.rows.len() > 0 {
        Err(ErrorKind::ColumnNotFound)
    } else {
        let f = match filt {
            Ok(f) => f,
            Err(_) => None,
        };
        match update_rows(t.rows, cols, f, assigns) {
            Err(e) => Err(e),
            Ok((nr, n)) => if repeats_value(cols, nr) {
                Err(ErrorKind::InvalidOperation)
            } else {
                Ok((after_replace(t, nr), n))
            },
        }
    }
}

/// The table after a delete and the count of rows deleted, or the kind of
/// the error that refuses it.
pub open spec fn delete_outcome(t: TableModel, w: Option<(Seq<char>, ValueModel)>) -> Result<(TableModel, nat), ErrorKind> {
    let cols = t.schema.columns;
    let filt = resolve_filter(cols, w);
    if filt is Err && t.rows.len() > 0 {
        Err(ErrorKind::ColumnNotFound)
    } else {
        let f = match filt {
            Ok(f) => f,
            Err(_) => None,
        };
        let (rem, n) = delete_rows(t.rows, f);
        Ok((after_replace(t, rem), n))
    }
}

proof fn lemma_assign_err(row: Seq<ValueModel>, cols: Seq<ColumnModel>, assigns: Seq<(Seq<char>, ValueModel)>, k: int)
    requires
        0 <= k <= assigns.len(),
        assign(row, cols, assigns.subrange(0, k)) is Err,
    ensures
        assign(row, cols, assigns) == assign(row, cols, assigns.subrange(0, k)),
    decreases assigns.len() - k,
{
    if k == assigns.len() {
        assert(assigns.subrange(0, k) =~= assigns);
    } else {
        assert(assigns.subrange(0, k + 1).drop_last() =~= assigns.subrange(0, k));
        lemma_assign_err(row, cols, assigns, k + 1);
    }
}

proof fn lemma_repeat_witness(cols: Seq<ColumnModel>, rows: Seq<Seq<ValueModel>>, c: int, i: int, j: int)
    requires
        0 <= c < cols.len(),
        cols[c].is_keyed(),
        0 <= i < j < rows.len(),
        !(cell_or_null(rows[j], c) is Null),
        values_match(cell_or_null(rows[i], c), cell_or_null(rows[j], c)),
    ensures
        repeats_value(cols, rows),
{
    assert(cols[c].is_keyed() && !(cell_or_null(rows[j], c) is Null));
}

/// Whether some unique or primary-key column repeats a non-null value (see [`repeats_value`]).
fn has_repeat(schema: &TableSchema, rows: &[Row]) -> (r: bool)
    ensures
        r == repeats_value(schema@.columns, row_models(rows@)),
{
    let ghost cols = schema@.columns;
    let ghost rs = row_models(rows@);
    let columns = schema.columns();
    let mut c: usize = 0;
    while c < columns.len()
        invariant
            cols == crate::schema::column_models(columns@),
            cols == schema@.columns,
            rs == row_models(rows@),
            c <= cols.len(),
            forall|cc: int, i: int, j: int|
                0 <= cc < c && (#[trigger] cols[cc]).is_keyed() && 0 <= i < j < rs.len() ==> !(!(cell_or_null(
                    #[trigger] rs[j],
                    cc,
                ) is Null) && values_match(cell_or_null(#[trigger] rs[i], cc), cell_or_null(rs[j], cc))),
        decreases cols.len() - c,
    {
        assert(columns@[c as int]@ == cols[c as int]);
        if columns[c].is_unique() || columns[c].is_primary_key() {
            let mut j: usize = 0;
            while j < rows.len()
                invariant
                    cols == crate::schema::column_models(columns@),
                    cols == schema@.columns,
                    rs == row_models(rows@),
                    c < cols.len(),
                    cols[c as int].is_keyed(),
                    j <= rs.len(),
                    forall|i: int, jj: int|
                        0 <= i < jj < j ==> !(!(cell_or_null(#[trigger] rs[jj], c as int) is Null) && values_match(
                            cell_or_null(#[trigger] rs[i], c as int),
                            cell_or_null(rs[jj], c as int),
                        )),
                decreases rs.len() - j,
            {
                assert(rows@[j as int]@ == rs[j as int]);
                let vj = match rows[j].get(c) {
                    Some(v) => v.duplicate(),
                    None => Value::Null,
                };
                assert(vj@ == cell_or_null(rs[j as int], c as int));
                if !vj.is_null() {
                    let mut i: usize = 0;
                    while i < j
                        invariant
                            rs == row_models(rows@),
                            cols == crate::schema::column_models(columns@),
                            cols == schema@.columns,
                            c < cols.len(),
                            cols[c as int].is_keyed(),
                            j < rs.len(),
                            i <= j,
                            vj@ == cell_or_null(rs[j as int], c as int),
                            !(vj@ is Null),
                            forall|ii: int| 0 <= ii < i ==> !values_match(cell_or_null(#[trigger] rs[ii], c as int), vj@),
                        decreases j - i,
                    {
                        assert(rows@[i as int]@ == rs[i as int]);
                        let vi = match rows[i].get(c) {
                            Some(v) => v.duplicate(),
                            None => Value::Null,
                        };
                        assert(vi@ == cell_or_null(rs[i as int], c as int));
                        if vi.equals(&vj) {
                            proof {
                                lemma_repeat_witness(cols, rs, c as int, i as int, j as int);
                            }
                            return true;
                        }
                        i = i + 1;
                    }
                }
                j = j + 1;
            }
        }
        c = c + 1;
    }
    false
}

/// Carries out a select on `catalog`.
pub fn execute_select(catalog: &Catalog, table: &str, columns: &[String], where_clause: &Option<WhereClause>) -> (r: Result<QueryResult, DbError>)
    requires
        catalog.wf(),
    ensures
        !has_table(catalog@, table@) ==> (r matches Err(e) && e.kind() == ErrorKind::TableNotFound),
        has_table(catalog@, table@) ==> {
            let t = catalog@[table_position(catalog@, table@)].1;
            match select_outcome(t, string_models(columns@), where_model(*where_clause)) {
                Ok(rows) => (r matches Ok(QueryResult::Rows(rs)) && row_models(rs@) == rows),
                Err(k) => (r matches Err(e) && e.kind() == k),
            }
        },
{
    let table_ref = match catalog.get_table(table) {
        Some(t) => t,
        None => {
            return Err(DbError::table_not_found(table));
        },
    };
    proof {
        let p = table_position(catalog@, table@);
        let w = choose|i: int| 0 <= i < catalog@.len() && catalog@[i].0 == table@ && table_ref@ == catalog@[i].1;
        crate::names::lemma_name_order(table@, table@, table@);
        assert(catalog@[p].0 == table@);
        lemma_catalog_position(catalog, p, w);
    }
    let schema = table_ref.schema();
    let ghost cols = schema@.columns;
    let ghost t = table_ref@;
    let ghost names = string_models(columns@);
    let ghost w = where_model(*where_clause);
    let column_indices = select_indices(schema, columns)?;
    let ghost proj = index_models(column_indices@);
    let rows = table_ref.rows();
    let ghost filt = match resolve_filter(cols, w) {
        Ok(f) => f,
        Err(_) => None,
    };
    let mut selected: Vec<Row> = Vec::new();
    let mut i: usize = 0;
    proof {
        assert(t.rows.subrange(0, 0) =~= Seq::<Seq<ValueModel>>::empty());
        assert(row_models(selected@) =~= Seq::<Seq<ValueModel>>::empty());
    }
    while i < rows.len()
        invariant
            has_table(catalog@, table@),
            t == catalog@[table_position(catalog@, table@)].1,
            names == string_models(columns@),
            t.rows == row_models(rows@),
            cols == t.schema.columns,
            cols == schema@.columns,
            w == where_model(*where_clause),
            proj == index_models(column_indices@),
            select_columns(cols, names) == Ok::<Seq<int>, ErrorKind>(proj),
            filt == (match resolve_filter(cols, w) { Ok(f) => f, Err(_) => None }),
            i <= rows@.len(),
            i > 0 ==> resolve_filter(cols, w) is Ok,
            row_models(selected@) == select_rows(t.rows.subrange(0, i as int), filt, proj),
        decreases rows@.len() - i,
    {
        let row = &rows[i];
        assert(row@ == t.rows[i as int]);
        let keep = match where_clause {
            Some(wc) => match matches_where(row, schema, wc) {
                Ok(b) => b,
                Err(e) => {
                    return Err(e);
                },
            },
            None => true,
        };
        proof {
            assert(t.rows.subrange(0, i + 1).drop_last() =~= t.rows.subrange(0, i as int));
            assert(t.rows.subrange(0, i + 1).last() == t.rows[i as int]);
        }
        if keep {
            let ghost prev = row_models(selected@);
            let projected = project_row(row, column_indices.as_slice());
            selected.push(projected);
            proof {
                assert(row_models(selected@) =~= prev.push(project(t.rows[i as int], proj)));
            }
        }
        i = i + 1;
    }
    proof {
        assert(t.rows.subrange(0, rows@.len() as int) =~= t.rows);
    }
    Ok(QueryResult::Rows(selected))
}

proof fn lemma_catalog_position(catalog: &Catalog, p: int, w: int)
    requires
        catalog.wf(),
        0 <= p < catalog@.len(),
        0 <= w < catalog@.len(),
        catalog@[p].0 == catalog@[w].0,
    ensures
        p == w,
{
    crate::catalog::lemma_entries_sorted(catalog);
    assert(crate::catalog::entry_names(catalog@)[p] == catalog@[p].0);
    assert(crate::catalog::entry_names(catalog@)[w] == catalog@[w].0);
    if p < w {
        crate::names::lemma_name_order(catalog@[p].0, catalog@[w].0, catalog@[w].0);
    } else if w < p {
        crate::names::lemma_name_order(catalog@[w].0, catalog@[p].0, catalog@[p].0);
    }
}


/// Carries out an insert on `catalog`.
pub fn execute_insert(catalog: &mut Catalog, table: &str, values: Vec<Value>) -> (r: Result<QueryResult, DbError>)
    requires
        old(catalog).wf(),
    ensures
        final(catalog).wf(),
        !has_table(old(catalog)@, table@) ==> (r matches Err(e) && e.kind() == ErrorKind::TableNotFound
            && final(catalog)@ == old(catalog)@),
        has_table(old(catalog)@, table@) ==> {
            let p = table_position(old(catalog)@, table@);
            match insert_outcome(old(catalog)@[p].1, models(values@)) {
                Ok(t) => (r matches Ok(QueryResult::AffectedRows(n)) && n == 1 && final(catalog)@
                    == old(catalog)@.update(p, (table@, t))),
                Err(k) => (r matches Err(e) && e.kind() == k && final(catalog)@ == old(catalog)@),
            }
        },
{
    let t = match catalog.get_table_mut(table) {
        Some(t) => t,
        None => {
            return Err(DbError::table_not_found(table));
        },
    };
    let ghost cols = t@.schema.columns;
    let ghost vals = models(values@);
    let row = Row::new(values);
    match t.insert(row) {
        Ok(()) => Ok(QueryResult::AffectedRows(1)),
        Err(e) => {
            proof {
                let filled = fill_defaults(cols, vals);
                if !t@.read_only && vals.len() == cols.len() && !values_valid(cols, filled) {
                    if validation_error(cols, filled, e) {
                        lemma_validation_kind(cols, filled, e);
                    } else {
                        assert(values_valid(cols, filled));
                    }
                }
            }
            Err(e)
        },
    }
}

/// Carries out a delete on `catalog`.
#[verifier::loop_isolation(false)]
pub fn execute_delete(catalog: &mut Catalog, table: &str, where_clause: &Option<WhereClause>) -> (r: Result<QueryResult, DbError>)
    requires
        old(catalog).wf(),
    ensures
        final(catalog).wf(),
        !has_table(old(catalog)@, table@) ==> (r matches Err(e) && e.kind() == ErrorKind::TableNotFound
            && final(catalog)@ == old(catalog)@),
        has_table(old(catalog)@, table@) ==> {
            let p = table_position(old(catalog)@, table@);
            match delete_outcome(old(catalog)@[p].1, where_model(*where_clause)) {
                Ok((t, n)) => (r matches Ok(QueryResult::AffectedRows(m)) && m == n && final(catalog)@
                    == old(catalog)@.update(p, (table@, t))),
                Err(k) => (r matches Err(e) && e.kind() == k && final(catalog)@ == old(catalog)@),
            }
        },
{
    let t = match catalog.get_table_mut(table) {
        Some(t) => t,
        None => {
            return Err(DbError::table_not_found(table));
        },
    };
    let schema = t.schema().duplicate();
    let ghost t0 = t@;
    let ghost cols = t0.schema.columns;
    let ghost w = where_model(*where_clause);
    let ghost filt = match resolve_filter(cols, w) {
        Ok(f) => f,
        Err(_) => None,
    };
    let rows = t.rows();
    let mut affected: usize = 0;
    let mut remaining: Vec<Row> = Vec::new();
    let mut i: usize = 0;
    proof {
        assert(t0.rows.subrange(0, 0) =~= Seq::<Seq<ValueModel>>::empty());
        assert(row_models(remaining@) =~= Seq::<Seq<ValueModel>>::empty());
    }
    while i < rows.len()
        invariant
            t0.rows == row_models(rows@),
            cols == t0.schema.columns,
            cols == schema@.columns,
            w == where_model(*where_clause),
            filt == (match resolve_filter(cols, w) { Ok(f) => f, Err(_) => None }),
            i <= rows@.len(),
            i > 0 ==> resolve_filter(cols, w) is Ok,
            (row_models(remaining@), affected as nat) == delete_rows(t0.rows.subrange(0, i as int), filt),
            affected <= i,
        decreases rows@.len() - i,
    {
        let row = &rows[i];
        assert(row@ == t0.rows[i as int]);
        let hit = match where_clause {
            Some(wc) => match matches_where(row, &schema, wc) {
                Ok(b) => b,
                Err(e) => {
                    return Err(e);
                },
            },
            None => true,
        };
        proof {
            assert(t0.rows.subrange(0, i + 1).drop_last() =~= t0.rows.subrange(0, i as int));
            assert(t0.rows.subrange(0, i + 1).last() == t0.rows[i as int]);
        }
        if hit {
            affected = affected + 1;
        } else {
            let ghost prev = row_models(remaining@);
            remaining.push(row.duplicate());
            proof {
                assert(row_models(remaining@) =~= prev.push(t0.rows[i as int]));
            }
        }
        i = i + 1;
    }
    proof {
        assert(t0.rows.subrange(0, rows@.len() as int) =~= t0.rows);
    }
    let _ = t.replace_rows(remaining);
    Ok(QueryResult::AffectedRows(affected))
}


fn data_type_allows(t: &crate::schema::DataType, v: &Value) -> (r: bool)
    ensures
        r == type_accepts(*t, v@),
{
    match t {
        crate::schema::DataType::Null => false,
        crate::schema::DataType::Integer => v.is_integer(),
        crate::schema::DataType::Float => v.is_float(),
        crate::schema::DataType::Text => v.is_text(),
        crate::schema::DataType::Blob => v.is_blob(),
        crate::schema::DataType::Boolean => v.is_boolean(),
    }
}

/// The row with the assignments applied (see [`update_row`]).
#[verifier::loop_isolation(false)]
fn apply_assignments(row: &Row, schema: &TableSchema, assignments: &[(String, Value)]) -> (r: Result<Row, DbError>)
    requires
        row@.len() == schema@.columns.len(),
    ensures
        match update_row(row@, schema@.columns, assignment_models(assignments@)) {
            Ok(v) => (r matches Ok(nr) && nr@ == v),
            Err(k) => (r matches Err(e) && e.kind() == k),
        },
{
    let ghost cols = schema@.columns;
    let ghost asg = assignment_models(assignments@);
    let mut new_values = crate::value::duplicate_values(row.values());
    proof {
        assert(models(new_values@) =~= row@);
        assert(asg.subrange(0, 0) =~= Seq::<(Seq<char>, ValueModel)>::empty());
    }
    let mut k: usize = 0;
    while k < assignments.len()
        invariant
            k <= assignments@.len(),
            models(new_values@).len() == cols.len(),
            assign(row@, cols, asg.subrange(0, k as int)) == Ok::<Seq<ValueModel>, ErrorKind>(models(new_values@)),
        decreases assignments@.len() - k,
    {
        let (col_name, new_val) = &assignments[k];
        proof {
            assert(asg.subrange(0, k + 1).drop_last() =~= asg.subrange(0, k as int));
            assert(asg.subrange(0, k + 1).last() == (col_name@, new_val@));
        }
        let idx = match resolve_column(schema, col_name.as_str()) {
            Ok(i) => i,
            Err(e) => {
                proof {
                    lemma_assign_err(row@, cols, asg, k + 1);
                }
                return Err(e);
            },
        };
        let col = &schema.columns()[idx];
        assert(col@ == cols[idx as int]);
        if !new_val.is_null() && !data_type_allows(col.data_type(), new_val) {
            proof {
                lemma_assign_err(row@, cols, asg, k + 1);
            }
            return Err(DbError::TypeMismatch(crate::text::concat3("column '", col_name.as_str(), "' has a value of the wrong type")));
        }
        let ghost prev = models(new_values@);
        new_values.set(idx, new_val.duplicate());
        proof {
            assert(models(new_values@) =~= prev.update(idx as int, new_val@));
        }
        k = k + 1;
    }
    proof {
        assert(asg.subrange(0, assignments@.len() as int) =~= asg);
    }
    match schema.validate_values(new_values.as_slice()) {
        Ok(()) => Ok(Row::new(new_values)),
        Err(e) => {
            proof {
                lemma_validation_kind(cols, models(new_values@), e);
            }
            Err(e)
        },
    }
}

/// Carries out an update on `catalog`.
#[verifier::loop_isolation(false)]
pub fn execute_update(catalog: &mut Catalog, table: &str, assignments: &[(String, Value)], where_clause: &Option<WhereClause>) -> (r: Result<QueryResult, DbError>)
    requires
        old(catalog).wf(),
    ensures
        final(catalog).wf(),
        !has_table(old(catalog)@, table@) ==> (r matches Err(e) && e.kind() == ErrorKind::TableNotFound
            && final(catalog)@ == old(catalog)@),
        has_table(old(catalog)@, table@) ==> {
            let p = table_position(old(catalog)@, table@);
            match update_outcome(old(catalog)@[p].1, assignment_models(assignments@), where_model(*where_clause)) {
                Ok((t, n)) => (r matches Ok(QueryResult::AffectedRows(m)) && m == n && final(catalog)@
                    == old(catalog)@.update(p, (table@, t))),
                Err(k) => (r matches Err(e) && e.kind() == k && final(catalog)@ == old(catalog)@),
            }
        },
{
    let t = match catalog.get_table_mut(table) {
        Some(t) => t,
        None => {
            return Err(DbError::table_not_found(table));
        },
    };
    proof {
        t.lemma_invariant();
    }
    let schema = t.schema().duplicate();
    let ghost t0 = t@;
    let ghost cols = t0.schema.columns;
    let ghost w = where_model(*where_clause);
    let ghost asg = assignment_models(assignments@);
    let ghost filt = match resolve_filter(cols, w) {
        Ok(f) => f,
        Err(_) => None,
    };
    let rows = t.rows();
    let mut affected: usize = 0;
    let mut new_rows: Vec<Row> = Vec::new();
    let mut i: usize = 0;
    proof {
        assert(t0.rows.subrange(0, 0) =~= Seq::<Seq<ValueModel>>::empty());
        assert(row_models(new_rows@) =~= Seq::<Seq<ValueModel>>::empty());
    }
    while i < rows.len()
        invariant
            t0.rows == row_models(rows@),
            i <= rows@.len(),
            i > 0 ==> resolve_filter(cols, w) is Ok,
            update_rows(t0.rows.subrange(0, i as int), cols, filt, asg) == Ok::<(Seq<Seq<ValueModel>>, nat), ErrorKind>((row_models(new_rows@), affected as nat)),
            affected <= i,
        decreases rows@.len() - i,
    {
        let row = &rows[i];
        assert(row@ == t0.rows[i as int]);
        assert(values_valid(cols, t0.rows[i as int]));
        let hit = match where_clause {
            Some(wc) => match matches_where(row, &schema, wc) {
                Ok(b) => b,
                Err(e) => {
                    return Err(e);
                },
            },
            None => true,
        };
        proof {
            assert(t0.rows.subrange(0, i + 1).drop_last() =~= t0.rows.subrange(0, i as int));
            assert(t0.rows.subrange(0, i + 1).last() == t0.rows[i as int]);
        }
        if hit {
            match apply_assignments(row, &schema, assignments) {
                Ok(nr) => {
                    let ghost prev = row_models(new_rows@);
                    new_rows.push(nr);
                    proof {
                        assert(row_models(new_rows@) =~= prev.push(nr@));
                    }
                    affected = affected + 1;
                },
                Err(e) => {
                    proof {
                        lemma_update_rows_err(t0.rows, cols, filt, asg, i + 1);
                    }
                    return Err(e);
                },
            }
        } else {
            let ghost prev = row_models(new_rows@);
            new_rows.push(row.duplicate());
            proof {
                assert(row_models(new_rows@) =~= prev.push(t0.rows[i as int]));
            }
        }
        i = i + 1;
    }
    proof {
        assert(t0.rows.subrange(0, rows@.len() as int) =~= t0.rows);
    }
    if has_repeat(&schema, new_rows.as_slice()) {
        return Err(DbError::invalid_operation("duplicate value for a unique column"));
    }
    let _ = t.replace_rows(new_rows);
    Ok(QueryResult::AffectedRows(affected))
}


/// Something that carries out statements.
pub trait Executor {
    /// Whether the executor is ready to carry out statements.
    spec fn ready(&self) -> bool;

    fn execute(&mut self, statement: Statement) -> (r: Result<QueryResult, DbError>)
        requires
            old(self).ready(),
        ensures
            final(self).ready(),
    ;
}

/// Carries out statements on a catalog.
pub struct SimpleExecutor<'a> {
    catalog: &'a mut Catalog,
}

impl<'a> SimpleExecutor<'a> {
    pub fn new(catalog: &'a mut Catalog) -> (r: Self)
        ensures
            r.catalog_model() == old(catalog)@,
            r.ready() == old(catalog).wf(),
    {
        SimpleExecutor { catalog }
    }

    /// The catalog the executor works on.
    pub closed spec fn catalog_model(&self) -> Seq<(Seq<char>, TableModel)> {
        (*self.catalog)@
    }
}

impl<'a> Executor for SimpleExecutor<'a> {
    closed spec fn ready(&self) -> bool {
        self.catalog.wf()
    }

    /// Carries out one statement.
    ///
    /// A create adds a table (refused for an empty or taken name) and
    /// returns `Empty`; a drop removes one and returns `Empty`; an insert,
    /// update or delete returns the count of rows it affects, a select the
    /// rows it finds. A statement naming a missing table is refused with
    /// `TableNotFound`; a refused statement leaves the catalog unchanged.
    fn execute(&mut self, statement: Statement) -> (r: Result<QueryResult, DbError>)
        ensures
            ({
                let before = old(self).catalog_model();
                let after = final(self).catalog_model();
                match statement {
                    Statement::CreateTable(schema) => {
                        &&& r is Ok <==> (schema@.name.len() > 0 && !has_table(before, schema@.name))
                        &&& r is Ok ==> (r matches Ok(QueryResult::Empty) && exists|pos: int|
                            0 <= pos <= before.len() && after == before.insert(
                                pos,
                                (schema@.name, TableModel { schema: schema@, rows: Seq::empty(), read_only: false }),
                            ))
                        &&& r matches Err(e) ==> e is InvalidOperation && after == before
                    },
                    Statement::DropTable(name) => {
                        &&& r is Ok <==> has_table(before, name@)
                        &&& r is Ok ==> (r matches Ok(QueryResult::Empty) && after == before.remove(
                            table_position(before, name@),
                        ))
                        &&& r matches Err(e) ==> e is TableNotFound && after == before
                    },
                    Statement::Insert { table, values } => {
                        &&& !has_table(before, table@) ==> (r matches Err(e) && e.kind()
                            == ErrorKind::TableNotFound && after == before)
                        &&& has_table(before, table@) ==> {
                            let p = table_position(before, table@);
                            match insert_outcome(before[p].1, models(values@)) {
                                Ok(t) => (r matches Ok(QueryResult::AffectedRows(n)) && n == 1 && after
                                    == before.update(p, (table@, t))),
                                Err(k) => (r matches Err(e) && e.kind() == k && after == before),
                            }
                        }
                    },
                    Statement::Select { table, columns, where_clause } => {
                        &&& after == before
                        &&& !has_table(before, table@) ==> (r matches Err(e) && e.kind()
                            == ErrorKind::TableNotFound)
                        &&& has_table(before, table@) ==> {
                            let t = before[table_position(before, table@)].1;
                            match select_outcome(t, string_models(columns@), where_model(where_clause)) {
                                Ok(rows) => (r matches Ok(QueryResult::Rows(rs)) && row_models(rs@) == rows),
                                Err(k) => (r matches Err(e) && e.kind() == k),
                            }
                        }
                    },
                    Statement::Update { table, assignments, where_clause } => {
                        &&& !has_table(before, table@) ==> (r matches Err(e) && e.kind()
                            == ErrorKind::TableNotFound && after == before)
                        &&& has_table(before, table@) ==> {
                            let p = table_position(before, table@);
                            match update_outcome(before[p].1, assignment_models(assignments@), where_model(where_clause)) {
                                Ok((t, n)) => (r matches Ok(QueryResult::AffectedRows(m)) && m == n && after
                                    == before.update(p, (table@, t))),
                                Err(k) => (r matches Err(e) && e.kind() == k && after == before),
                            }
                        }
                    },
                    Statement::Delete { table, where_clause } => {
                        &&& !has_table(before, table@) ==> (r matches Err(e) && e.kind()
                            == ErrorKind::TableNotFound && after == before)
                        &&& has_table(before, table@) ==> {
                            let p = table_position(before, table@);
                            match delete_outcome(before[p].1, where_model(where_clause)) {
                                Ok((t, n)) => (r matches Ok(QueryResult::AffectedRows(m)) && m == n && after
                                    == before.update(p, (table@, t))),
                                Err(k) => (r matches Err(e) && e.kind() == k && after == before),
                            }
                        }
                    },
                }
            }),
    {
        match statement {
            Statement::CreateTable(schema) => {
                self.catalog.create_table(schema)?;
                Ok(QueryResult::Empty)
            },
            Statement::DropTable(name) => {
                let ghost before = self.catalog@;
                match self.catalog.drop_table(name.as_str()) {
                    Ok(()) => {
                        proof {
                            let i = choose|i: int|
                                0 <= i < before.len() && before[i].0 == name@ && self.catalog@ == before.remove(i);
                            let p = table_position(before, name@);
                            lemma_position_unique(before, name@, i, p, &*old(self).catalog);
                        }
                        Ok(QueryResult::Empty)
                    },
                    Err(e) => Err(e),
                }
            },
            Statement::Insert { table, values } => execute_insert(self.catalog, table.as_str(), values),
            Statement::Select { table, columns, where_clause } => execute_select(
                self.catalog,
                table.as_str(),
                columns.as_slice(),
                &where_clause,
            ),
            Statement::Update { table, assignments, where_clause } => execute_update(
                self.catalog,
                table.as_str(),
                assignments.as_slice(),
                &where_clause,
            ),
            Statement::Delete { table, where_clause } => execute_delete(
                self.catalog,
                table.as_str(),
                &where_clause,
            ),
        }
    }
}

proof fn lemma_position_unique(entries: Seq<(Seq<char>, TableModel)>, name: Seq<char>, i: int, p: int, catalog: &Catalog)
    requires
        catalog.wf(),
        entries == catalog@,
        0 <= i < entries.len(),
        entries[i].0 == name,
        p == table_position(entries, name),
    ensures
        i == p,
{
    assert(entries[p].0 == name);
    lemma_catalog_position(catalog, p, i);
}


/// A select without a filter returns one row for each stored row, in order:
/// the stored row projected.
pub proof fn lemma_select_everything(rows: Seq<Seq<ValueModel>>, proj: Seq<int>)
    ensures
        select_rows(rows, None, proj) == rows.map_values(|r: Seq<ValueModel>| project(r, proj)),
    decreases rows.len(),
{
    if rows.len() > 0 {
        lemma_select_everything(rows.drop_last(), proj);
        assert(rows.map_values(|r: Seq<ValueModel>| project(r, proj)) =~= rows.drop_last().map_values(
            |r: Seq<ValueModel>| project(r, proj),
        ).push(project(rows.last(), proj)));
    } else {
        assert(rows.map_values(|r: Seq<ValueModel>| project(r, proj)) =~= Seq::<Seq<ValueModel>>::empty());
    }
}

/// A select with a filter returns, in order, the projections of exactly the
/// stored rows that pass the filter.
pub proof fn lemma_select_filtered(rows: Seq<Seq<ValueModel>>, p: int, v: ValueModel, proj: Seq<int>)
    ensures
        select_rows(rows, Some((p, v)), proj) == rows.filter(|r: Seq<ValueModel>| passes_at(r, p, v)).map_values(
            |r: Seq<ValueModel>| project(r, proj),
        ),
    decreases rows.len(),
{
    reveal(Seq::filter);
    let pred = |r: Seq<ValueModel>| passes_at(r, p, v);
    let f = |r: Seq<ValueModel>| project(r, proj);
    if rows.len() > 0 {
        lemma_select_filtered(rows.drop_last(), p, v, proj);
        let sub = rows.drop_last().filter(pred);
        assert(rows.filter(pred) == if pred(rows.last()) { sub.push(rows.last()) } else { sub });
        if pred(rows.last()) {
            assert(sub.push(rows.last()).map_values(f) =~= sub.map_values(f).push(f(rows.last())));
        }
    } else {
        assert(rows.filter(pred).map_values(f) =~= Seq::<Seq<ValueModel>>::empty());
    }
}

/// A delete without a filter removes every row and counts them all.
pub proof fn lemma_delete_everything(rows: Seq<Seq<ValueModel>>)
    ensures
        delete_rows(rows, None) == (Seq::<Seq<ValueModel>>::empty(), rows.len()),
    decreases rows.len(),
{
    if rows.len() > 0 {
        lemma_delete_everything(rows.drop_last());
    }
}

/// A delete with a filter keeps, in order, exactly the rows that do not pass
/// it, and counts the rows that do.
pub proof fn lemma_delete_filtered(rows: Seq<Seq<ValueModel>>, p: int, v: ValueModel)
    ensures
        delete_rows(rows, Some((p, v))) == (rows.filter(|r: Seq<ValueModel>| !passes_at(r, p, v)), rows.filter(
            |r: Seq<ValueModel>| passes_at(r, p, v),
        ).len()),
    decreases rows.len(),
{
    reveal(Seq::filter);
    let hit = |r: Seq<ValueModel>| passes_at(r, p, v);
    let miss = |r: Seq<ValueModel>| !passes_at(r, p, v);
    if rows.len() > 0 {
        lemma_delete_filtered(rows.drop_last(), p, v);
        assert(rows.filter(hit) == if hit(rows.last()) {
            rows.drop_last().filter(hit).push(rows.last())
        } else {
            rows.drop_last().filter(hit)
        });
        assert(rows.filter(miss) == if miss(rows.last()) {
            rows.drop_last().filter(miss).push(rows.last())
        } else {
            rows.drop_last().filter(miss)
        });
    } else {
        assert(rows.filter(miss) =~= Seq::<Seq<ValueModel>>::empty());
        assert(rows.filter(hit) =~= Seq::<Seq<ValueModel>>::empty());
    }
}

/// An update that succeeds changes exactly the rows its filter selects
/// (every row without a filter), each into its updated row, keeps the
/// others as they were, in place, and counts the rows it changed.
pub proof fn lemma_update_rows_law(
    rows: Seq<Seq<ValueModel>>,
    cols: Seq<ColumnModel>,
    filter: Option<(int, ValueModel)>,
    assigns: Seq<(Seq<char>, ValueModel)>,
)
    requires
        update_rows(rows, cols, filter, assigns) is Ok,
    ensures
        ({
            let (nr, n) = update_rows(rows, cols, filter, assigns)->Ok_0;
            let hit = |r: Seq<ValueModel>|
                match filter {
                    None => true,
                    Some((p, v)) => passes_at(r, p, v),
                };
            &&& n == rows.filter(hit).len()
            &&& nr.len() == rows.len()
            &&& forall|i: int|
                0 <= i < rows.len() ==> (hit(#[trigger] rows[i]) ==> update_row(rows[i], cols, assigns) == Ok::<
                    Seq<ValueModel>,
                    ErrorKind,
                >(nr[i])) && (!hit(rows[i]) ==> nr[i] == rows[i])
        }),
    decreases rows.len(),
{
    reveal(Seq::filter);
    let hit = |r: Seq<ValueModel>|
        match filter {
            None => true,
            Some((p, v)) => passes_at(r, p, v),
        };
    if rows.len() > 0 {
        let front = rows.drop_last();
        assert(update_rows(front, cols, filter, assigns) is Ok);
        lemma_update_rows_law(front, cols, filter, assigns);
        let (acc, m) = update_rows(front, cols, filter, assigns)->Ok_0;
        let (nr, n) = update_rows(rows, cols, filter, assigns)->Ok_0;
        assert(rows.filter(hit) == if hit(rows.last()) {
            front.filter(hit).push(rows.last())
        } else {
            front.filter(hit)
        });
        assert forall|i: int| 0 <= i < rows.len() implies (hit(#[trigger] rows[i]) ==> update_row(
            rows[i],
            cols,
            assigns,
        ) == Ok::<Seq<ValueModel>, ErrorKind>(nr[i])) && (!hit(rows[i]) ==> nr[i] == rows[i]) by {
            if i < rows.len() - 1 {
                assert(rows[i] == front[i]);
                assert(nr[i] == acc[i]);
            }
        }
    }
}

/// A select without a WHERE clause gives one row for each stored row, in
/// order: the stored row's values in the selected columns.
pub proof fn lemma_select_without_where(t: TableModel, names: Seq<Seq<char>>)
    requires
        select_columns(t.schema.columns, names) is Ok,
    ensures
        select_outcome(t, names, None) == Ok::<Seq<Seq<ValueModel>>, ErrorKind>(t.rows.map_values(
            |r: Seq<ValueModel>| project(r, select_columns(t.schema.columns, names)->Ok_0),
        )),
        (select_outcome(t, names, None)->Ok_0).len() == t.rows.len(),
{
    lemma_select_everything(t.rows, select_columns(t.schema.columns, names)->Ok_0);
}

/// The count a delete reports is the number of stored rows its WHERE clause
/// selects (all of them without one).
pub proof fn lemma_delete_count(t: TableModel, w: Option<(Seq<char>, ValueModel)>)
    requires
        resolve_filter(t.schema.columns, w) is Ok,
    ensures
        delete_outcome(t, w) matches Ok((_, n)) && n == match resolve_filter(t.schema.columns, w)->Ok_0 {
            None => t.rows.len(),
            Some((p, v)) => t.rows.filter(|r: Seq<ValueModel>| passes_at(r, p, v)).len(),
        },
{
    match resolve_filter(t.schema.columns, w)->Ok_0 {
        None => lemma_delete_everything(t.rows),
        Some((p, v)) => lemma_delete_filtered(t.rows, p, v),
    }
}

/// The count an update that succeeds reports is the number of stored rows
/// its WHERE clause selects (all of them without one).
pub proof fn lemma_update_count(t: TableModel, assigns: Seq<(Seq<char>, ValueModel)>, w: Option<(Seq<char>, ValueModel)>)
    requires
        resolve_filter(t.schema.columns, w) is Ok,
        update_outcome(t, assigns, w) is Ok,
    ensures
        (update_outcome(t, assigns, w)->Ok_0).1 == match resolve_filter(t.schema.columns, w)->Ok_0 {
            None => t.rows.len(),
            Some((p, v)) => t.rows.filter(|r: Seq<ValueModel>| passes_at(r, p, v)).len(),
        },
{
    let f = resolve_filter(t.schema.columns, w)->Ok_0;
    lemma_update_rows_law(t.rows, t.schema.columns, f, assigns);
    let hit = |r: Seq<ValueModel>|
        match f {
            None => true,
            Some((p, v)) => passes_at(r, p, v),
        };
    match f {
        None => {
            lemma_filter_keeps_all(t.rows, hit);
        },
        Some((p, v)) => {
            assert(hit =~= |r: Seq<ValueModel>| passes_at(r, p, v));
        },
    }
}

/// Filtering by a predicate every element meets keeps every element.
proof fn lemma_filter_keeps_all(s: Seq<Seq<ValueModel>>, pred: spec_fn(Seq<ValueModel>) -> bool)
    requires
        forall|r: Seq<ValueModel>| #[trigger] pred(r),
    ensures
        s.filter(pred) == s,
    decreases s.len(),
{
    reveal(Seq::filter);
    if s.len() > 0 {
        lemma_filter_keeps_all(s.drop_last(), pred);
        assert(s.drop_last().push(s.last()) =~= s);
    }
}


/// A filter on a value that is not a double selects a row exactly when the
/// row holds that value in the filter's column (a filter for null also
/// selects a row too short to have the column).
pub proof fn lemma_filter_meaning(row: Seq<ValueModel>, p: int, v: ValueModel)
    requires
        !(v is Float),
    ensures
        passes_at(row, p, v) <==> (0 <= p < row.len() && row[p] == v) || (!(0 <= p < row.len()) && v
            == ValueModel::Null),
{
}

/// A select of all columns (none named) without a WHERE clause gives back
/// the stored rows themselves, in order, when each has a value for every
/// column.
pub proof fn lemma_select_all_columns(t: TableModel)
    requires
        forall|i: int| 0 <= i < t.rows.len() ==> (#[trigger] t.rows[i]).len() == t.schema.columns.len(),
    ensures
        select_outcome(t, Seq::empty(), None) == Ok::<Seq<Seq<ValueModel>>, ErrorKind>(t.rows),
{
    let n = t.schema.columns.len();
    let pr = Seq::new(n, |i: int| i);
    lemma_select_without_where(t, Seq::empty());
    assert(select_columns(t.schema.columns, Seq::empty()) == Ok::<Seq<int>, ErrorKind>(pr));
    assert(t.rows.map_values(|r: Seq<ValueModel>| project(r, pr)) =~= t.rows) by {
        assert forall|i: int| 0 <= i < t.rows.len() implies project(t.rows[i], pr) == t.rows[i] by {
            assert(project(t.rows[i], pr) =~= t.rows[i]);
        }
    }
}


/// Some column bears the name `name` (ignoring ASCII case).
pub open spec fn has_column(cols: Seq<ColumnModel>, name: Seq<char>) -> bool {
    exists|i: int| #[trigger] first_named(cols, name, i)
}

/// The columns a select returns: all of them, in order, when none is named;
/// otherwise, for each name in order, the first column bearing that name
/// (ignoring ASCII case); and a name that no column bears refuses the select.
pub proof fn lemma_select_columns_meaning(cols: Seq<ColumnModel>, names: Seq<Seq<char>>)
    ensures
        names.len() == 0 ==> select_columns(cols, names) == Ok::<Seq<int>, ErrorKind>(Seq::new(cols.len(), |i: int| i)),
        names.len() > 0 ==> (select_columns(cols, names) is Ok <==> forall|k: int|
            0 <= k < names.len() ==> #[trigger] has_column(cols, names[k])),
        names.len() > 0 && select_columns(cols, names) is Ok ==> ({
            let pr = select_columns(cols, names)->Ok_0;
            &&& pr.len() == names.len()
            &&& forall|k: int| 0 <= k < names.len() ==> first_named(cols, names[k], #[trigger] pr[k])
        }),
        select_columns(cols, names) matches Err(e) ==> e == ErrorKind::ColumnNotFound,
{
    lemma_projection_meaning(cols, names);
}

proof fn lemma_projection_meaning(cols: Seq<ColumnModel>, names: Seq<Seq<char>>)
    ensures
        projection(cols, names) is Ok <==> forall|k: int|
            0 <= k < names.len() ==> #[trigger] has_column(cols, names[k]),
        projection(cols, names) is Ok ==> ({
            let pr = projection(cols, names)->Ok_0;
            &&& pr.len() == names.len()
            &&& forall|k: int| 0 <= k < names.len() ==> first_named(cols, names[k], #[trigger] pr[k])
        }),
        projection(cols, names) matches Err(e) ==> e == ErrorKind::ColumnNotFound,
    decreases names.len(),
{
    if names.len() > 0 {
        let front = names.drop_last();
        lemma_projection_meaning(cols, front);
        let last = names.last();
        if has_column(cols, last) {
            let i = choose|i: int| #[trigger] first_named(cols, last, i);
            assert(column_pos(cols, last) == Some(i));
        }
        if projection(cols, names) is Ok {
            let pr = projection(cols, names)->Ok_0;
            assert forall|k: int| 0 <= k < names.len() implies first_named(cols, names[k], #[trigger] pr[k]) by {
                if k < names.len() - 1 {
                    assert(names[k] == front[k]);
                }
            }
        }
        assert((forall|k: int| 0 <= k < names.len() ==> #[trigger] has_column(cols, names[k]))
            <==> (forall|k: int| 0 <= k < front.len() ==> #[trigger] has_column(cols, front[k]))
            && has_column(cols, last)) by {
            assert forall|k: int| 0 <= k < front.len() implies front[k] == names[k] by {}
        }
    }
}

} // verus!
