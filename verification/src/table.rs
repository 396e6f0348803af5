use crate::error::DbError;
use crate::hash_index::{key_of, without, HashIndex, IndexKey, KeyModel};
use crate::row::{models, Row};
use crate::schema::{
    column_models, schema_valid, validation_error, values_valid, ColumnModel, SchemaModel,
    TableSchema,
};
use crate::value::{values_match, Value, ValueModel};
use vstd::prelude::*;

verus! {

/// The key under which a cell is indexed: nulls and booleans have none.
pub open spec fn cell_key(v: ValueModel) -> Option<KeyModel> {
    if v is Null {
        None
    } else {
        key_of(v)
    }
}

/// No two rows hold the same key in column `c`.
pub open spec fn keys_unique(rows: Seq<Seq<ValueModel>>, c: int) -> bool {
    forall|r1: int, r2: int|
        0 <= r1 < rows.len() && 0 <= r2 < rows.len() && r1 != r2 && (cell_key(
            #[trigger] rows[r1][c],
        ) is Some) ==> cell_key(rows[r1][c]) != cell_key(#[trigger] rows[r2][c])
}

/// What every table keeps: each row is valid for the schema, and no two rows
/// share a key in a unique or primary-key column.
pub open spec fn table_invariant(schema: SchemaModel, rows: Seq<Seq<ValueModel>>) -> bool {
    &&& forall|r: int| 0 <= r < rows.len() ==> values_valid(schema.columns, #[trigger] rows[r])
    &&& forall|c: int|
        0 <= c < schema.columns.len() && (#[trigger] schema.columns[c]).is_keyed() ==> keys_unique(
            rows,
            c,
        )
}

/// The row with defaults put in place of the nulls of the columns that have one.
pub open spec fn fill_defaults(cols: Seq<ColumnModel>, vals: Seq<ValueModel>) -> Seq<ValueModel> {
    Seq::new(
        vals.len(),
        |i: int|
            if vals[i] is Null && cols[i].default_value is Some {
                cols[i].default_value.unwrap()
            } else {
                vals[i]
            },
    )
}

/// Some keyed column holds, in `row`, a key that one of `rows` already holds there.
pub open spec fn clashes(cols: Seq<ColumnModel>, rows: Seq<Seq<ValueModel>>, row: Seq<ValueModel>) -> bool {
    exists|c: int, r: int|
        0 <= c < cols.len() && (#[trigger] cols[c]).is_keyed() && cell_key(row[c]) is Some && 0
            <= r < rows.len() && cell_key(#[trigger] rows[r][c]) == cell_key(row[c])
}

/// The model of a table.
pub struct TableModel {
    pub schema: SchemaModel,
    pub rows: Seq<Seq<ValueModel>>,
    pub read_only: bool,
}

pub open spec fn row_models(rows: Seq<Row>) -> Seq<Seq<ValueModel>> {
    rows.map_values(|r: Row| r@)
}

/// The index of column `c` describes `rows`: it holds exactly the keys of
/// the column, each with the one row that holds it.
pub open spec fn index_matches(idx: Map<KeyModel, Seq<usize>>, rows: Seq<Seq<ValueModel>>, c: int) -> bool {
    &&& forall|k: KeyModel|
        #[trigger] idx.contains_key(k) ==> exists|r: int|
            0 <= r < rows.len() && cell_key(#[trigger] rows[r][c]) == Some(k)
    &&& forall|r: int|
        0 <= r < rows.len() && (cell_key(#[trigger] rows[r][c]) is Some) ==> idx.contains_key(
            cell_key(rows[r][c]).unwrap(),
        ) && idx[cell_key(rows[r][c]).unwrap()] == seq![r as usize]
}

proof fn lemma_index_unique(idx: Map<KeyModel, Seq<usize>>, rows: Seq<Seq<ValueModel>>, c: int)
    requires
        index_matches(idx, rows, c),
        rows.len() <= usize::MAX,
    ensures
        keys_unique(rows, c),
{
    assert forall|r1: int, r2: int|
        0 <= r1 < rows.len() && 0 <= r2 < rows.len() && r1 != r2 && (cell_key(
            #[trigger] rows[r1][c],
        ) is Some) implies cell_key(rows[r1][c]) != cell_key(#[trigger] rows[r2][c]) by {
        if cell_key(rows[r1][c]) == cell_key(rows[r2][c]) {
            assert(idx[cell_key(rows[r1][c]).unwrap()] == seq![r1 as usize]);
            assert(idx[cell_key(rows[r2][c]).unwrap()] == seq![r2 as usize]);
            assert(seq![r1 as usize][0] == seq![r2 as usize][0]);
        }
    }
}

/// Adding a row whose key is new to an index that matches the old rows.
proof fn lemma_index_push(
    idx: Map<KeyModel, Seq<usize>>,
    rows: Seq<Seq<ValueModel>>,
    c: int,
    row: Seq<ValueModel>,
)
    requires
        index_matches(idx, rows, c),
        rows.len() < usize::MAX,
        cell_key(row[c]) matches Some(k) ==> !idx.contains_key(k),
    ensures
        index_matches(
            if cell_key(row[c]) is Some {
                idx.insert(cell_key(row[c]).unwrap(), seq![rows.len() as usize])
            } else {
                idx
            },
            rows.push(row),
            c,
        ),
{
    let nrows = rows.push(row);
    let n = rows.len() as int;
    let nidx = if cell_key(row[c]) is Some {
        idx.insert(cell_key(row[c]).unwrap(), seq![rows.len() as usize])
    } else {
        idx
    };
    assert forall|k: KeyModel| #[trigger] nidx.contains_key(k) implies exists|r: int|
        0 <= r < nrows.len() && cell_key(#[trigger] nrows[r][c]) == Some(k) by {
        if idx.contains_key(k) {
            let r = choose|r: int| 0 <= r < rows.len() && cell_key(#[trigger] rows[r][c]) == Some(k);
            assert(nrows[r] == rows[r]);
        } else {
            assert(nrows[n] == row);
        }
    }
    assert forall|r: int|
        0 <= r < nrows.len() && (cell_key(#[trigger] nrows[r][c]) is Some) implies nidx.contains_key(
        cell_key(nrows[r][c]).unwrap(),
    ) && nidx[cell_key(nrows[r][c]).unwrap()] == seq![r as usize] by {
        if r < n {
            assert(nrows[r] == rows[r]);
            assert(idx.contains_key(cell_key(rows[r][c]).unwrap()));
        }
    }
}

/// Replacing row `r0` by `row` in `rows`, with the index updated by dropping
/// the row's old key and adding its new one.
proof fn lemma_index_update(
    idx: Map<KeyModel, Seq<usize>>,
    rows: Seq<Seq<ValueModel>>,
    c: int,
    r0: int,
    row: Seq<ValueModel>,
)
    requires
        index_matches(idx, rows, c),
        0 <= r0 < rows.len(),
        rows.len() <= usize::MAX,
        cell_key(row[c]) matches Some(k) ==> forall|r: int|
            0 <= r < rows.len() && r != r0 ==> cell_key(#[trigger] rows[r][c]) != Some(k),
    ensures
        ({
            let after_remove = if cell_key(rows[r0][c]) is Some {
                idx.remove(cell_key(rows[r0][c]).unwrap())
            } else {
                idx
            };
            let after = if cell_key(row[c]) is Some {
                after_remove.insert(cell_key(row[c]).unwrap(), seq![r0 as usize])
            } else {
                after_remove
            };
            index_matches(after, rows.update(r0, row), c)
        }),
{
    let after_remove = if cell_key(rows[r0][c]) is Some {
        idx.remove(cell_key(rows[r0][c]).unwrap())
    } else {
        idx
    };
    let after = if cell_key(row[c]) is Some {
        after_remove.insert(cell_key(row[c]).unwrap(), seq![r0 as usize])
    } else {
        after_remove
    };
    let nrows = rows.update(r0, row);
    lemma_index_unique(idx, rows, c);
    assert forall|k: KeyModel| #[trigger] after.contains_key(k) implies exists|r: int|
        0 <= r < nrows.len() && cell_key(#[trigger] nrows[r][c]) == Some(k) by {
        if cell_key(row[c]) == Some(k) {
            assert(nrows[r0] == row);
        } else {
            assert(idx.contains_key(k));
            let r = choose|r: int| 0 <= r < rows.len() && cell_key(#[trigger] rows[r][c]) == Some(k);
            if r == r0 {
                assert(cell_key(rows[r0][c]) == Some(k));
                assert(!after_remove.contains_key(k));
            }
            assert(nrows[r] == rows[r]);
        }
    }
    assert forall|r: int|
        0 <= r < nrows.len() && (cell_key(#[trigger] nrows[r][c]) is Some) implies after.contains_key(
        cell_key(nrows[r][c]).unwrap(),
    ) && after[cell_key(nrows[r][c]).unwrap()] == seq![r as usize] by {
        if r != r0 {
            assert(nrows[r] == rows[r]);
            assert(idx.contains_key(cell_key(rows[r][c]).unwrap()));
            if cell_key(rows[r0][c]) is Some {
                assert(cell_key(rows[r0][c]) != cell_key(rows[r][c]));
            }
        }
    }
}

/// A table: a schema, its rows, and an index per unique or primary-key column.
#[derive(Debug, Clone, PartialEq)]
pub struct Table {
    schema: TableSchema,
    rows: Vec<Row>,
    unique_indexes: Vec<Option<HashIndex>>,
    read_only: bool,
}

impl View for Table {
    type V = TableModel;

    closed spec fn view(&self) -> TableModel {
        TableModel { schema: self.schema@, rows: row_models(self.rows@), read_only: self.read_only }
    }
}

impl Table {
    /// The table's own invariant: the indexes describe the rows, and
    /// [`table_invariant`] holds.
    pub closed spec fn wf(&self) -> bool {
        let cols = self.schema@.columns;
        let rows = row_models(self.rows@);
        &&& self.unique_indexes@.len() == cols.len()
        &&& forall|c: int|
            0 <= c < cols.len() ==> (#[trigger] self.unique_indexes@[c] is Some) == cols[c].is_keyed()
        &&& forall|c: int|
            0 <= c < cols.len() && (#[trigger] self.unique_indexes@[c]) is Some ==> {
                let idx = self.unique_indexes@[c].unwrap();
                idx.wf() && index_matches(idx@, rows, c)
            }
        &&& forall|r: int| 0 <= r < rows.len() ==> values_valid(cols, #[trigger] rows[r])
    }

    /// The invariant of a well-formed table, stated over its model.
    pub proof fn lemma_invariant(&self)
        requires
            self.wf(),
        ensures
            table_invariant(self@.schema, self@.rows),
    {
        let cols = self.schema@.columns;
        assert(self@.rows.len() == self.rows.len());
        assert forall|c: int|
            0 <= c < cols.len() && (#[trigger] cols[c]).is_keyed() implies keys_unique(
            self@.rows,
            c,
        ) by {
            assert(self.unique_indexes@[c] is Some);
            lemma_index_unique(self.unique_indexes@[c].unwrap()@, self@.rows, c);
        }
    }

    /// An empty, writable table with the given schema.
    pub fn new(schema: TableSchema) -> (r: Self)
        ensures
            r.wf(),
            r@ == (TableModel { schema: schema@, rows: Seq::empty(), read_only: false }),
    {
        let mut unique_indexes: Vec<Option<HashIndex>> = Vec::new();
        let mut i: usize = 0;
        let n = schema.columns().len();
        while i < n
            invariant
                n == schema@.columns.len(),
                i <= n,
                unique_indexes@.len() == i,
                forall|c: int|
                    0 <= c < i ==> (#[trigger] unique_indexes@[c] is Some)
                        == schema@.columns[c].is_keyed(),
                forall|c: int|
                    0 <= c < i && (#[trigger] unique_indexes@[c]) is Some ==> unique_indexes@[c].unwrap().wf()
                        && unique_indexes@[c].unwrap()@ == Map::<KeyModel, Seq<usize>>::empty(),
            decreases n - i,
        {
            let col = &schema.columns()[i];
            assert(col@ == schema@.columns[i as int]);
            if col.is_unique() || col.is_primary_key() {
                unique_indexes.push(Some(HashIndex::new()));
            } else {
                unique_indexes.push(None);
            }
            i = i + 1;
        }
        let t = Table { schema, rows: Vec::new(), unique_indexes, read_only: false };
        assert(row_models(t.rows@) =~= Seq::<Seq<ValueModel>>::empty());
        t
    }

    /// Gives the table the schema `new_name` with the same columns.
    pub fn rename_schema(&mut self, new_name: &str) -> (r: Result<(), DbError>)
        requires
            old(self).wf(),
        ensures
            final(self).wf(),
            r is Ok <==> schema_valid(new_name@, old(self)@.schema.columns),
            r is Ok ==> final(self)@ == (TableModel {
                schema: SchemaModel { name: new_name@, columns: old(self)@.schema.columns },
                ..old(self)@
            }),
            r matches Err(e) ==> e is InvalidOperation && final(self)@ == old(self)@,
    {
        let cols = crate::schema::duplicate_columns(self.schema.columns());
        let new_schema = TableSchema::try_new(new_name, cols)?;
        self.schema = new_schema;
        Ok(())
    }

    pub fn schema(&self) -> (r: &TableSchema)
        ensures
            r@ == self@.schema,
    {
        &self.schema
    }

    pub fn rows(&self) -> (r: &[Row])
        ensures
            row_models(r@) == self@.rows,
    {
        self.rows.as_slice()
    }

    pub fn len(&self) -> (r: usize)
        ensures
            r == self@.rows.len(),
    {
        self.rows.len()
    }

    pub fn is_empty(&self) -> (r: bool)
        ensures
            r == (self@.rows.len() == 0),
    {
        self.rows.len() == 0
    }

    pub fn get(&self, index: usize) -> (r: Option<&Row>)
        ensures
            r is Some <==> index < self@.rows.len(),
            r matches Some(row) ==> row@ == self@.rows[index as int],
    {
        if index < self.rows.len() {
            Some(&self.rows[index])
        } else {
            None
        }
    }

    pub fn is_read_only(&self) -> (r: bool)
        ensures
            r == self@.read_only,
    {
        self.read_only
    }

    pub fn set_read_only(&mut self, value: bool)
        requires
            old(self).wf(),
        ensures
            final(self).wf(),
            final(self)@ == (TableModel { read_only: value, ..old(self)@ }),
    {
        self.read_only = value;
    }
}


/// The key of a cell (see [`cell_key`]).
pub fn cell_key_of(v: &Value) -> (r: Option<IndexKey>)
    ensures
        r is Some <==> cell_key(v@) is Some,
        r matches Some(k) ==> cell_key(v@) == Some(k@),
{
    if v.is_null() {
        None
    } else {
        IndexKey::from_value(v)
    }
}

/// Some row other than `r0` holds, in column `c`, the key of `v`.
pub open spec fn held_elsewhere(rows: Seq<Seq<ValueModel>>, c: int, r0: int, v: ValueModel) -> bool {
    cell_key(v) is Some && exists|r: int|
        0 <= r < rows.len() && r != r0 && cell_key(#[trigger] rows[r][c]) == cell_key(v)
}

/// The first row of `rows` that `values_valid` rejects is row `i`.
pub open spec fn first_invalid_row(cols: Seq<ColumnModel>, rows: Seq<Seq<ValueModel>>, i: int) -> bool {
    &&& 0 <= i < rows.len()
    &&& !values_valid(cols, rows[i])
    &&& forall|j: int| 0 <= j < i ==> values_valid(cols, #[trigger] rows[j])
}

impl Table {
    fn fill_row_defaults(&self, row: Row) -> (r: Row)
        requires
            row@.len() == self@.schema.columns.len(),
        ensures
            r@ == fill_defaults(self@.schema.columns, row@),
    {
        let ghost cols = self@.schema.columns;
        let ghost orig = row@;
        let mut values = row.into_values();
        let columns = self.schema.columns();
        let n = values.len();
        let mut i: usize = 0;
        while i < n
            invariant
                cols == self@.schema.columns,
                cols == column_models(columns@),
                n == values@.len(),
                n == orig.len(),
                n == cols.len(),
                i <= n,
                forall|j: int| 0 <= j < i ==> #[trigger] models(values@)[j] == fill_defaults(cols, orig)[j],
                forall|j: int| i <= j < n ==> #[trigger] models(values@)[j] == orig[j],
            decreases n - i,
        {
            let col = &columns[i];
            assert(col@ == cols[i as int]);
            let ghost prev = models(values@);
            assert(prev[i as int] == orig[i as int]);
            if values[i].is_null() {
                match col.default_value() {
                    Some(d) => {
                        let dv = d.duplicate();
                        values.set(i, dv);
                    },
                    None => {},
                }
            }
            proof {
                assert(models(values@)[i as int] == fill_defaults(cols, orig)[i as int]);
                assert forall|j: int| 0 <= j < i + 1 implies #[trigger] models(values@)[j]
                    == fill_defaults(cols, orig)[j] by {
                    if j < i {
                        assert(models(values@)[j] == prev[j]);
                    }
                }
                assert forall|j: int| i + 1 <= j < n implies #[trigger] models(values@)[j]
                    == orig[j] by {
                    assert(models(values@)[j] == prev[j]);
                }
            }
            i = i + 1;
        }
        let r = Row::new(values);
        assert(r@ =~= fill_defaults(cols, orig));
        r
    }

    /// Whether `row` clashes with the stored rows (see [`clashes`]).
    fn find_clash(&self, row: &Row) -> (r: bool)
        requires
            self.wf(),
            row@.len() == self@.schema.columns.len(),
        ensures
            r == clashes(self@.schema.columns, self@.rows, row@),
    {
        let ghost cols = self@.schema.columns;
        let ghost rows = self@.rows;
        let columns = self.schema.columns();
        let n = columns.len();
        let mut c: usize = 0;
        while c < n
            invariant
                self.wf(),
                cols == column_models(columns@),
                cols == self@.schema.columns,
                rows == self@.rows,
                n == cols.len(),
                row@.len() == n,
                c <= n,
                forall|cc: int, r: int|
                    0 <= cc < c && (#[trigger] cols[cc]).is_keyed() && cell_key(row@[cc]) is Some
                        && 0 <= r < rows.len() ==> cell_key(#[trigger] rows[r][cc]) != cell_key(
                        row@[cc],
                    ),
            decreases n - c,
        {
            let col = &columns[c];
            assert(col@ == cols[c as int]);
            if col.is_unique() || col.is_primary_key() {
                let v = row.get(c).unwrap();
                match cell_key_of(v) {
                    Some(key) => {
                        assert(self.unique_indexes@[c as int] is Some);
                        match &self.unique_indexes[c] {
                            Some(index) => {
                                if index.contains(&key) {
                                    proof {
                                        let k = key@;
                                        let r = choose|r: int|
                                            0 <= r < rows.len() && cell_key(#[trigger] rows[r][c as int])
                                                == Some(k);
                                        assert(cols[c as int].is_keyed() && cell_key(row@[c as int])
                                            is Some && cell_key(rows[r][c as int]) == cell_key(
                                            row@[c as int],
                                        ));
                                    }
                                    return true;
                                }
                                proof {
                                    assert forall|r: int| 0 <= r < rows.len() implies cell_key(
                                        #[trigger] rows[r][c as int],
                                    ) != cell_key(row@[c as int]) by {
                                        if cell_key(rows[r][c as int]) == cell_key(row@[c as int]) {
                                            assert(index@.contains_key(key@));
                                        }
                                    }
                                }
                            },
                            None => {},
                        }
                    },
                    None => {},
                }
            }
            c = c + 1;
        }
        false
    }

    /// Appends a row, after putting in the column defaults for its nulls.
    ///
    /// Refused, with the table unchanged: on a read-only table, a row with
    /// the wrong number of values, a row the schema rejects, and a row that
    /// repeats a key of a unique or primary-key column.
    pub fn insert(&mut self, row: Row) -> (r: Result<(), DbError>)
        requires
            old(self).wf(),
        ensures
            final(self).wf(),
            ({
                let cols = old(self)@.schema.columns;
                let filled = fill_defaults(cols, row@);
                &&& r is Ok <==> (!old(self)@.read_only && row@.len() == cols.len() && values_valid(
                    cols,
                    filled,
                ) && !clashes(cols, old(self)@.rows, filled))
                &&& r is Ok ==> final(self)@ == (TableModel {
                    rows: old(self)@.rows.push(filled),
                    ..old(self)@
                })
                &&& r matches Err(e) ==> final(self)@ == old(self)@ && {
                ||| old(self)@.read_only && e is InvalidOperation
                ||| !old(self)@.read_only && row@.len() != cols.len() && e is InvalidOperation
                ||| !old(self)@.read_only && row@.len() == cols.len() && validation_error(
                    cols,
                    filled,
                    e,
                )
                ||| !old(self)@.read_only && row@.len() == cols.len() && values_valid(cols, filled)
                    && e is InvalidOperation}
            }),
    {
        if self.read_only {
            return Err(DbError::invalid_operation("table is read-only"));
        }
        let n = self.schema.columns().len();
        if row.len() != n {
            return Err(DbError::invalid_operation("value count does not match column count"));
        }
        let row = self.fill_row_defaults(row);
        self.schema.validate_values(row.values())?;
        if self.find_clash(&row) {
            return Err(DbError::invalid_operation("duplicate value for a unique column"));
        }
        let ghost cols = self@.schema.columns;
        let ghost old_rows = self@.rows;
        let ghost filled = row@;
        let row_idx = self.rows.len();
        self.rows.push(row);
        proof {
            assert(row_models(self.rows@) =~= old_rows.push(filled));
            assert(row_models(self.rows@)[row_idx as int] == filled);
            assert(self.rows.len() == self.rows@.len());
            assert(old(self).wf());
        }
        let mut c: usize = 0;
        while c < n
            invariant
                n == cols.len(),
                cols == self@.schema.columns,
                self@.schema == old(self)@.schema,
                self@.read_only == old(self)@.read_only,
                old_rows == old(self)@.rows,
                self@.rows == old_rows.push(filled),
                filled.len() == n,
                self.rows@[row_idx as int]@ == filled,
                row_idx == old_rows.len(),
                old_rows.len() < usize::MAX,
                self.rows@.len() == row_idx + 1,
                c <= n,
                !clashes(cols, old_rows, filled),
                self.unique_indexes@.len() == n,
                forall|cc: int|
                    0 <= cc < n ==> (#[trigger] self.unique_indexes@[cc] is Some) == cols[cc].is_keyed(),
                forall|cc: int|
                    0 <= cc < n && (#[trigger] self.unique_indexes@[cc]) is Some ==> self.unique_indexes@[cc].unwrap().wf(),
                forall|cc: int|
                    0 <= cc < c && (#[trigger] self.unique_indexes@[cc]) is Some ==> index_matches(
                        self.unique_indexes@[cc].unwrap()@,
                        old_rows.push(filled),
                        cc,
                    ),
                forall|cc: int|
                    c <= cc < n && (#[trigger] self.unique_indexes@[cc]) is Some ==> index_matches(
                        self.unique_indexes@[cc].unwrap()@,
                        old_rows,
                        cc,
                    ),
                forall|r: int| 0 <= r < old_rows.len() + 1 ==> values_valid(cols, #[trigger] old_rows.push(filled)[r]),
            decreases n - c,
        {
            let ghost before = self.unique_indexes@[c as int];
            let is_keyed = self.unique_indexes[c].is_some();
            if is_keyed {
                let key_opt = cell_key_of(&self.rows[row_idx].values()[c]);
                proof {
                    lemma_index_push(before.unwrap()@, old_rows, c as int, filled);
                }
                match key_opt {
                    Some(key) => {
                        proof {
                            if before.unwrap()@.contains_key(key@) {
                                let r = choose|r: int|
                                    0 <= r < old_rows.len() && cell_key(#[trigger] old_rows[r][c as int])
                                        == Some(key@);
                                assert(cols[c as int].is_keyed());
                            }
                        }
                        match &mut self.unique_indexes[c] {
                            Some(index) => {
                                index.insert(key, row_idx);
                            },
                            None => {},
                        }
                    },
                    None => {},
                }
            }
            proof {
                assert forall|cc: int|
                    0 <= cc < c + 1 && (#[trigger] self.unique_indexes@[cc]) is Some implies index_matches(
                    self.unique_indexes@[cc].unwrap()@,
                    old_rows.push(filled),
                    cc,
                ) by {}
            }
            c = c + 1;
        }
        proof {
            assert(self@.rows.len() == self.rows.len());
            assert(self.wf());
            assert(self@ == (TableModel { rows: old(self)@.rows.push(filled), ..old(self)@ }));
        }
        Ok(())
    }
}


impl Table {
    /// Sets one cell.
    ///
    /// Refused, with the table unchanged: on a read-only table, out of
    /// bounds, when the changed row is one the schema rejects, and when the
    /// new value repeats, in a unique or primary-key column, the key of
    /// another row.
    pub fn set_cell(&mut self, row_idx: usize, col_idx: usize, value: Value) -> (r: Result<(), DbError>)
        requires
            old(self).wf(),
        ensures
            final(self).wf(),
            ({
                let cols = old(self)@.schema.columns;
                let rows = old(self)@.rows;
                let in_bounds = row_idx < rows.len() && col_idx < cols.len();
                let changed = rows[row_idx as int].update(col_idx as int, value@);
                &&& r is Ok <==> (!old(self)@.read_only && in_bounds && values_valid(cols, changed)
                    && !(cols[col_idx as int].is_keyed() && held_elsewhere(
                    rows,
                    col_idx as int,
                    row_idx as int,
                    value@,
                )))
                &&& r is Ok ==> final(self)@ == (TableModel {
                    rows: rows.update(row_idx as int, changed),
                    ..old(self)@
                })
                &&& r matches Err(e) ==> final(self)@ == old(self)@ && {
                    ||| (old(self)@.read_only || !in_bounds) && e is InvalidOperation
                    ||| !old(self)@.read_only && in_bounds && validation_error(cols, changed, e)
                    ||| !old(self)@.read_only && in_bounds && values_valid(cols, changed)
                        && e is InvalidOperation
                }
            }),
    {
        if self.read_only {
            return Err(DbError::invalid_operation("table is read-only"));
        }
        let n = self.schema.columns().len();
        if row_idx >= self.rows.len() || col_idx >= n {
            return Err(DbError::invalid_operation("index out of bounds"));
        }
        let ghost cols = self@.schema.columns;
        let ghost rows = self@.rows;
        proof {
            assert(self.rows@[row_idx as int]@ == rows[row_idx as int]);
        }
        let mut new_values = crate::value::duplicate_values(self.rows[row_idx].values());
        new_values.set(col_idx, value.duplicate());
        let ghost changed = rows[row_idx as int].update(col_idx as int, value@);
        proof {
            assert(models(new_values@) =~= changed);
        }
        self.schema.validate_values(new_values.as_slice())?;
        let keyed = self.unique_indexes[col_idx].is_some();
        proof {
            assert(self.unique_indexes@[col_idx as int] is Some == cols[col_idx as int].is_keyed());
            assert(self.rows.len() == self.rows@.len());
        }
        if keyed {
            let ghost before = self.unique_indexes@[col_idx as int].unwrap();
            let new_key = cell_key_of(&value);
            match &new_key {
                Some(key) => {
                    let elsewhere = match &self.unique_indexes[col_idx] {
                        Some(index) => match index.get_indices(key) {
                            Some(list) => list.len() > 0 && (list[0] != row_idx || list.len() > 1),
                            None => false,
                        },
                        None => false,
                    };
                    proof {
                        let c = col_idx as int;
                        if before@.contains_key(key@) {
                            let w = choose|r: int| 0 <= r < rows.len() && cell_key(#[trigger] rows[r][c]) == Some(key@);
                            assert(before@[key@] == seq![w as usize]);
                            if w != row_idx {
                                assert(held_elsewhere(rows, c, row_idx as int, value@));
                            }
                        }
                        if held_elsewhere(rows, c, row_idx as int, value@) {
                            let w = choose|r: int|
                                0 <= r < rows.len() && r != row_idx && cell_key(#[trigger] rows[r][c])
                                    == cell_key(value@);
                            assert(before@[key@] == seq![w as usize]);
                        }
                    }
                    if elsewhere {
                        return Err(DbError::invalid_operation("duplicate value for a unique column"));
                    }
                },
                None => {},
            }
            let old_cell = self.rows[row_idx].get(col_idx).unwrap();
            let old_key = cell_key_of(old_cell);
            proof {
                assert(self.rows@[row_idx as int]@ == rows[row_idx as int]);
                assert(old_cell@ == rows[row_idx as int][col_idx as int]);
            }
            match old_key {
                Some(ok) => {
                    match &mut self.unique_indexes[col_idx] {
                        Some(index) => {
                            proof {
                                assert(before@[ok@] == seq![row_idx]);
                                assert(without(seq![row_idx], row_idx) =~= Seq::<usize>::empty()) by {
                                    reveal_with_fuel(without, 2);
                                }
                            }
                            index.remove(&ok, row_idx);
                        },
                        None => {},
                    }
                },
                None => {},
            }
            match new_key {
                Some(key) => {
                    match &mut self.unique_indexes[col_idx] {
                        Some(index) => {
                            index.insert(key, row_idx);
                        },
                        None => {},
                    }
                },
                None => {},
            }
            proof {
                lemma_index_update(before@, rows, col_idx as int, row_idx as int, changed);
            }
        }
        self.rows.set(row_idx, Row::new(new_values));
        proof {
            assert(row_models(self.rows@) =~= rows.update(row_idx as int, changed));
            let nrows = rows.update(row_idx as int, changed);
            assert forall|c: int|
                0 <= c < cols.len() && (#[trigger] self.unique_indexes@[c]) is Some implies {
                    let idx = self.unique_indexes@[c].unwrap();
                    idx.wf() && index_matches(idx@, nrows, c)
                } by {
                if c != col_idx {
                    let idx = self.unique_indexes@[c].unwrap();
                    assert(idx == old(self).unique_indexes@[c].unwrap());
                    assert forall|r: int| 0 <= r < nrows.len() implies #[trigger] nrows[r][c] == rows[r][c] by {
                    }
                    assert forall|k: KeyModel| #[trigger] idx@.contains_key(k) implies exists|r: int|
                        0 <= r < nrows.len() && cell_key(#[trigger] nrows[r][c]) == Some(k) by {
                        let w = choose|r: int| 0 <= r < rows.len() && cell_key(#[trigger] rows[r][c]) == Some(k);
                        assert(nrows[w][c] == rows[w][c]);
                    }
                    assert forall|r: int|
                        0 <= r < nrows.len() && (cell_key(#[trigger] nrows[r][c]) is Some) implies idx@.contains_key(
                        cell_key(nrows[r][c]).unwrap(),
                    ) && idx@[cell_key(nrows[r][c]).unwrap()] == seq![r as usize] by {
                        assert(nrows[r][c] == rows[r][c]);
                    }
                }
            }
            assert forall|r: int| 0 <= r < nrows.len() implies values_valid(cols, #[trigger] nrows[r]) by {
                if r != row_idx {
                    assert(nrows[r] == rows[r]);
                }
            }
        }
        Ok(())
    }
}


/// Every row of `rows` is valid for `cols`.
pub open spec fn rows_valid(cols: Seq<ColumnModel>, rows: Seq<Seq<ValueModel>>) -> bool {
    forall|i: int| 0 <= i < rows.len() ==> values_valid(cols, #[trigger] rows[i])
}

/// No keyed column of `cols` repeats a key among `rows`.
pub open spec fn rows_keys_unique(cols: Seq<ColumnModel>, rows: Seq<Seq<ValueModel>>) -> bool {
    forall|c: int| 0 <= c < cols.len() && (#[trigger] cols[c]).is_keyed() ==> keys_unique(rows, c)
}

impl Table {
    /// Makes the indexes describe the rows anew.
    fn rebuild_indexes(&mut self)
        requires
            old(self).unique_indexes@.len() == old(self)@.schema.columns.len(),
            forall|c: int|
                0 <= c < old(self)@.schema.columns.len() ==> (#[trigger] old(self).unique_indexes@[c] is Some)
                    == old(self)@.schema.columns[c].is_keyed(),
            rows_valid(old(self)@.schema.columns, old(self)@.rows),
            rows_keys_unique(old(self)@.schema.columns, old(self)@.rows),
        ensures
            final(self).wf(),
            final(self)@ == old(self)@,
    {
        let ghost cols = self@.schema.columns;
        let ghost rows = self@.rows;
        let n = self.unique_indexes.len();
        let mut c: usize = 0;
        while c < n
            invariant
                self@ == old(self)@,
                cols == self@.schema.columns,
                n == cols.len(),
                self.unique_indexes@.len() == n,
                c <= n,
                forall|cc: int|
                    0 <= cc < n ==> (#[trigger] self.unique_indexes@[cc] is Some) == cols[cc].is_keyed(),
                forall|cc: int|
                    0 <= cc < c && (#[trigger] self.unique_indexes@[cc]) is Some ==> self.unique_indexes@[cc].unwrap().wf()
                        && self.unique_indexes@[cc].unwrap()@ == Map::<KeyModel, Seq<usize>>::empty(),
            decreases n - c,
        {
            match &mut self.unique_indexes[c] {
                Some(index) => index.clear(),
                None => {},
            }
            c = c + 1;
        }
        let nrows = self.rows.len();
        proof {
            assert(self.rows@.len() == nrows);
        }
        let mut r: usize = 0;
        while r < nrows
            invariant
                self@ == old(self)@,
                cols == self@.schema.columns,
                rows == self@.rows,
                nrows == rows.len(),
                n == cols.len(),
                self.unique_indexes@.len() == n,
                r <= nrows,
                rows_valid(cols, rows),
                rows_keys_unique(cols, rows),
                forall|cc: int|
                    0 <= cc < n ==> (#[trigger] self.unique_indexes@[cc] is Some) == cols[cc].is_keyed(),
                forall|cc: int|
                    0 <= cc < n && (#[trigger] self.unique_indexes@[cc]) is Some ==> self.unique_indexes@[cc].unwrap().wf()
                        && index_matches(self.unique_indexes@[cc].unwrap()@, rows.subrange(0, r as int), cc),
            decreases nrows - r,
        {
            proof {
                assert(self.rows@[r as int]@ == rows[r as int]);
                assert(rows.subrange(0, r as int).push(rows[r as int]) =~= rows.subrange(0, r + 1));
                assert(values_valid(cols, rows[r as int]));
            }
            let mut c: usize = 0;
            while c < n
                invariant
                    self@ == old(self)@,
                    cols == self@.schema.columns,
                    rows == self@.rows,
                    nrows == rows.len(),
                    n == cols.len(),
                    r < nrows,
                    self.rows@[r as int]@ == rows[r as int],
                    rows[r as int].len() == n,
                    rows.subrange(0, r as int).push(rows[r as int]) == rows.subrange(0, r + 1),
                    self.unique_indexes@.len() == n,
                    c <= n,
                    rows_keys_unique(cols, rows),
                    forall|cc: int|
                        0 <= cc < n ==> (#[trigger] self.unique_indexes@[cc] is Some) == cols[cc].is_keyed(),
                    forall|cc: int|
                        0 <= cc < n && (#[trigger] self.unique_indexes@[cc]) is Some ==> self.unique_indexes@[cc].unwrap().wf(),
                    forall|cc: int|
                        0 <= cc < c && (#[trigger] self.unique_indexes@[cc]) is Some ==> index_matches(
                            self.unique_indexes@[cc].unwrap()@,
                            rows.subrange(0, r + 1),
                            cc,
                        ),
                    forall|cc: int|
                        c <= cc < n && (#[trigger] self.unique_indexes@[cc]) is Some ==> index_matches(
                            self.unique_indexes@[cc].unwrap()@,
                            rows.subrange(0, r as int),
                            cc,
                        ),
                decreases n - c,
            {
                let keyed = self.unique_indexes[c].is_some();
                if keyed {
                    let ghost before = self.unique_indexes@[c as int].unwrap();
                    let cell = self.rows[r].get(c).unwrap();
                    let key_opt = cell_key_of(cell);
                    proof {
                        let prefix = rows.subrange(0, r as int);
                        if cell_key(rows[r as int][c as int]) is Some {
                            let k = cell_key(rows[r as int][c as int]).unwrap();
                            if before@.contains_key(k) {
                                let w = choose|w: int| 0 <= w < prefix.len() && cell_key(#[trigger] prefix[w][c as int]) == Some(k);
                                assert(prefix[w] == rows[w]);
                                assert(keys_unique(rows, c as int));
                                assert(cell_key(rows[w][c as int]) != cell_key(rows[r as int][c as int]));
                            }
                        }
                        lemma_index_push(before@, prefix, c as int, rows[r as int]);
                    }
                    match key_opt {
                        Some(key) => match &mut self.unique_indexes[c] {
                            Some(index) => index.insert(key, r),
                            None => {},
                        },
                        None => {},
                    }
                }
                c = c + 1;
            }
            r = r + 1;
        }
        proof {
            assert(rows.subrange(0, nrows as int) =~= rows);
        }
    }

    /// Replaces all rows at once.
    ///
    /// Refused, with the table unchanged: on a read-only table, when a row
    /// is one the schema rejects (the first such row decides the error), and
    /// when the rows repeat a key of a unique or primary-key column.
    pub fn replace_rows(&mut self, rows: Vec<Row>) -> (r: Result<(), DbError>)
        requires
            old(self).wf(),
        ensures
            final(self).wf(),
            ({
                let cols = old(self)@.schema.columns;
                let new_rows = row_models(rows@);
                &&& r is Ok <==> (!old(self)@.read_only && rows_valid(cols, new_rows)
                    && rows_keys_unique(cols, new_rows))
                &&& r is Ok ==> final(self)@ == (TableModel { rows: new_rows, ..old(self)@ })
                &&& r matches Err(e) ==> final(self)@ == old(self)@ && {
                    ||| old(self)@.read_only && e is InvalidOperation
                    ||| !old(self)@.read_only && exists|i: int|
                        #[trigger] first_invalid_row(cols, new_rows, i) && validation_error(
                            cols,
                            new_rows[i],
                            e,
                        )
                    ||| !old(self)@.read_only && rows_valid(cols, new_rows) && e is InvalidOperation
                }
            }),
    {
        if self.read_only {
            return Err(DbError::invalid_operation("table is read-only"));
        }
        let ghost cols = self@.schema.columns;
        let ghost new_rows = row_models(rows@);
        let n = self.schema.columns().len();
        let mut i: usize = 0;
        while i < rows.len()
            invariant
                self@ == old(self)@,
                !old(self)@.read_only,
                self.wf(),
                cols == self@.schema.columns,
                new_rows == row_models(rows@),
                n == cols.len(),
                i <= rows@.len(),
                forall|j: int| 0 <= j < i ==> values_valid(cols, #[trigger] new_rows[j]),
            decreases rows@.len() - i,
        {
            proof {
                assert(rows@[i as int]@ == new_rows[i as int]);
            }
            if rows[i].len() != n {
                proof {
                    assert(first_invalid_row(cols, new_rows, i as int));
                    assert(validation_error(cols, new_rows[i as int], DbError::InvalidOperation(arbitrary())));
                }
                return Err(DbError::invalid_operation("value count does not match column count"));
            }
            match self.schema.validate_values(rows[i].values()) {
                Ok(()) => {},
                Err(e) => {
                    proof {
                        assert(rows@[i as int]@ == new_rows[i as int]);
                        assert(validation_error(cols, new_rows[i as int], e));
                        assert(first_invalid_row(cols, new_rows, i as int));
                    }
                    return Err(e);
                },
            }
            i = i + 1;
        }
        let columns = self.schema.columns();
        let mut c: usize = 0;
        while c < n
            invariant
                self@ == old(self)@,
                !old(self)@.read_only,
                self.wf(),
                cols == self@.schema.columns,
                cols == crate::schema::column_models(columns@),
                new_rows == row_models(rows@),
                n == cols.len(),
                c <= n,
                rows_valid(cols, new_rows),
                forall|cc: int| 0 <= cc < c && (#[trigger] cols[cc]).is_keyed() ==> keys_unique(new_rows, cc),
            decreases n - c,
        {
            let col = &columns[c];
            assert(col@ == cols[c as int]);
            if col.is_unique() || col.is_primary_key() {
                let mut seen = HashIndex::new();
                let mut r: usize = 0;
                while r < rows.len()
                    invariant
                        self@ == old(self)@,
                        !old(self)@.read_only,
                        self.wf(),
                        cols == old(self)@.schema.columns,
                        new_rows == row_models(rows@),
                        rows_valid(cols, new_rows),
                        n == cols.len(),
                        c < n,
                        cols[c as int].is_keyed(),
                        r <= rows@.len(),
                        seen.wf(),
                        index_matches(seen@, new_rows.subrange(0, r as int), c as int),
                    decreases rows@.len() - r,
                {
                    proof {
                        assert(rows@[r as int]@ == new_rows[r as int]);
                        assert(values_valid(cols, new_rows[r as int]));
                        assert(new_rows.subrange(0, r as int).push(new_rows[r as int]) =~= new_rows.subrange(0, r + 1));
                    }
                    let cell = rows[r].get(c).unwrap();
                    match cell_key_of(cell) {
                        Some(key) => {
                            if seen.contains(&key) {
                                proof {
                                    let prefix = new_rows.subrange(0, r as int);
                                    let w = choose|w: int| 0 <= w < prefix.len() && cell_key(#[trigger] prefix[w][c as int]) == Some(key@);
                                    assert(prefix[w] == new_rows[w]);
                                    assert(!keys_unique(new_rows, c as int));
                                    assert(!rows_keys_unique(cols, new_rows));
                                    assert(rows_valid(old(self)@.schema.columns, new_rows));
                                    assert(!old(self)@.read_only);
                                }
                                return Err(DbError::invalid_operation("duplicate value for a unique column"));
                            }
                            proof {
                                lemma_index_push(seen@, new_rows.subrange(0, r as int), c as int, new_rows[r as int]);
                            }
                            seen.insert(key, r);
                        },
                        None => {
                            proof {
                                lemma_index_push(seen@, new_rows.subrange(0, r as int), c as int, new_rows[r as int]);
                            }
                        },
                    }
                    r = r + 1;
                }
                proof {
                    assert(new_rows.subrange(0, rows@.len() as int) =~= new_rows);
                    lemma_index_unique(seen@, new_rows, c as int);
                }
            }
            c = c + 1;
        }
        self.rows = rows;
        self.rebuild_indexes();
        Ok(())
    }
}


/// The columns with the allowed-value list of column `c` replaced.
pub open spec fn with_allowed(cols: Seq<ColumnModel>, c: int, allowed: Option<Seq<ValueModel>>) -> Seq<ColumnModel> {
    cols.update(c, ColumnModel { allowed_values: allowed, ..cols[c] })
}

/// The first row in `rows` equal to `v` in column `c`, if any.
pub open spec fn first_match(rows: Seq<Seq<ValueModel>>, c: int, v: ValueModel, i: int) -> bool {
    &&& 0 <= i < rows.len()
    &&& c < rows[i].len() && values_match(rows[i][c], v)
    &&& forall|j: int| 0 <= j < i ==> !(c < (#[trigger] rows[j]).len() && values_match(rows[j][c], v))
}

impl Table {
    /// Restricts column `col_idx` to the listed values (or lifts the
    /// restriction), provided every stored row still fits the schema.
    pub fn set_column_allowed_values(&mut self, col_idx: usize, values: Option<Vec<Value>>) -> (r: Result<(), DbError>)
        requires
            old(self).wf(),
        ensures
            final(self).wf(),
            ({
                let cols = old(self)@.schema.columns;
                let new_cols = with_allowed(cols, col_idx as int, crate::schema::opt_values_model(values));
                &&& r is Ok <==> (!old(self)@.read_only && col_idx < cols.len() && rows_valid(
                    new_cols,
                    old(self)@.rows,
                ))
                &&& r is Ok ==> final(self)@ == (TableModel {
                    schema: SchemaModel { name: old(self)@.schema.name, columns: new_cols },
                    ..old(self)@
                })
                &&& r matches Err(e) ==> final(self)@ == old(self)@ && {
                    ||| (old(self)@.read_only || col_idx >= cols.len()) && e is InvalidOperation
                    ||| !old(self)@.read_only && col_idx < cols.len() && exists|i: int|
                        #[trigger] first_invalid_row(new_cols, old(self)@.rows, i)
                            && validation_error(new_cols, old(self)@.rows[i], e)
                }
            }),
    {
        if self.read_only {
            return Err(DbError::invalid_operation("table is read-only"));
        }
        if col_idx >= self.schema.columns().len() {
            return Err(DbError::invalid_operation("column index out of bounds"));
        }
        let ghost cols = self@.schema.columns;
        let ghost rows = self@.rows;
        let ghost new_cols = with_allowed(cols, col_idx as int, crate::schema::opt_values_model(values));
        let copy = crate::schema::duplicate_opt_values(&values);
        let mut test_schema = self.schema.duplicate();
        test_schema.set_column_allowed_values(col_idx, copy);
        proof {
            assert(test_schema@.columns =~= new_cols);
        }
        let mut i: usize = 0;
        while i < self.rows.len()
            invariant
                self@ == old(self)@,
                !old(self)@.read_only,
                col_idx < cols.len(),
                self.wf(),
                cols == self@.schema.columns,
                rows == self@.rows,
                test_schema@.columns == new_cols,
                new_cols == with_allowed(cols, col_idx as int, crate::schema::opt_values_model(values)),
                i <= rows.len(),
                forall|j: int| 0 <= j < i ==> values_valid(new_cols, #[trigger] rows[j]),
            decreases rows.len() - i,
        {
            proof {
                assert(self.rows@[i as int]@ == rows[i as int]);
            }
            match test_schema.validate_values(self.rows[i].values()) {
                Ok(()) => {},
                Err(e) => {
                    proof {
                        assert(validation_error(new_cols, rows[i as int], e));
                        assert(first_invalid_row(new_cols, rows, i as int));
                    }
                    return Err(e);
                },
            }
            i = i + 1;
        }
        self.schema.set_column_allowed_values(col_idx, values);
        proof {
            assert(self@.schema.columns =~= new_cols);
            assert forall|c: int| 0 <= c < new_cols.len() implies new_cols[c].is_keyed() == cols[c].is_keyed() by {}
        }
        Ok(())
    }

    /// A row whose value in column `col_idx` equals `value`.
    ///
    /// For a unique or primary-key column and a value with a key, the index
    /// answers: the one row holding that key, if any (a null is never found).
    /// Otherwise the rows are searched in order for the first equal value.
    pub fn lookup_by_unique(&self, col_idx: usize, value: &Value) -> (r: Option<&Row>)
        requires
            self.wf(),
        ensures
            ({
                let cols = self@.schema.columns;
                let rows = self@.rows;
                if col_idx < cols.len() && cols[col_idx as int].is_keyed() && key_of(value@) is Some {
                    &&& r is Some <==> exists|i: int|
                        0 <= i < rows.len() && cell_key(#[trigger] rows[i][col_idx as int]) == key_of(value@)
                    &&& r matches Some(row) ==> exists|i: int|
                        0 <= i < rows.len() && cell_key(#[trigger] rows[i][col_idx as int]) == key_of(value@)
                            && row@ == rows[i]
                } else {
                    &&& r is Some <==> exists|i: int| #[trigger] first_match(rows, col_idx as int, value@, i)
                    &&& r matches Some(row) ==> exists|i: int|
                        #[trigger] first_match(rows, col_idx as int, value@, i) && row@ == rows[i]
                }
            }),
    {
        let ghost cols = self@.schema.columns;
        let ghost rows = self@.rows;
        if col_idx < self.unique_indexes.len() {
            match &self.unique_indexes[col_idx] {
                Some(index) => {
                    match IndexKey::from_value(value) {
                        Some(key) => {
                            proof {
                                if exists|i: int|
                                    0 <= i < rows.len() && cell_key(#[trigger] rows[i][col_idx as int]) == key_of(value@) {
                                    let w = choose|i: int|
                                        0 <= i < rows.len() && cell_key(#[trigger] rows[i][col_idx as int]) == key_of(value@);
                                    assert(index@.contains_key(key@));
                                }
                            }
                            match index.get_indices(&key) {
                                Some(list) => {
                                    proof {
                                        let w = choose|i: int|
                                            0 <= i < rows.len() && cell_key(#[trigger] rows[i][col_idx as int]) == Some(key@);
                                        assert(self.rows@.len() == self.rows.len());
                                        assert(index@[key@] == seq![w as usize]);
                                        assert(list@[0] == w);
                                        assert(self.rows@[w]@ == rows[w]);
                                    }
                                    let row_idx = list[0];
                                    return Some(&self.rows[row_idx]);
                                },
                                None => {
                                    return None;
                                },
                            }
                        },
                        None => {},
                    }
                },
                None => {},
            }
        }
        proof {
            assert(self.unique_indexes@.len() == cols.len());
            if col_idx < cols.len() && cols[col_idx as int].is_keyed() {
                assert(self.unique_indexes@[col_idx as int] is Some);
            }
        }
        let mut i: usize = 0;
        while i < self.rows.len()
            invariant
                rows == self@.rows,
                cols == self@.schema.columns,
                !(col_idx < cols.len() && cols[col_idx as int].is_keyed() && key_of(value@) is Some),
                i <= rows.len(),
                forall|j: int| 0 <= j < i ==> !(col_idx < (#[trigger] rows[j]).len() && values_match(rows[j][col_idx as int], value@)),
            decreases rows.len() - i,
        {
            proof {
                assert(self.rows@[i as int]@ == rows[i as int]);
            }
            match self.rows[i].get(col_idx) {
                Some(v) => {
                    if v.equals(value) {
                        assert(first_match(rows, col_idx as int, value@, i as int));
                        return Some(&self.rows[i]);
                    }
                },
                None => {},
            }
            i = i + 1;
        }
        None
    }
}

} // verus!
