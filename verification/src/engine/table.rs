use crate::error::{DbError, ErrorKind};
use crate::schema::{duplicate_columns, schema_valid, SchemaModel, TableSchema};
use vstd::prelude::*;

verus! {

/// What the catalog records of a table stored in pages.
pub struct TableMeta {
    pub schema: SchemaModel,
    pub read_only: bool,
    pub data_page_id: Option<u32>,
    pub index_root_page_id: Option<u32>,
    pub next_row_id: u64,
}

/// A table of the paged engine: its schema, whether it is read-only, where
/// its rows and its index start, and the next row id to hand out.
#[derive(Debug, Clone, PartialEq)]
pub struct Table {
    schema: TableSchema,
    read_only: bool,
    data_page_id: Option<u32>,
    index_root_page_id: Option<u32>,
    next_row_id: u64,
}

impl View for Table {
    type V = TableMeta;

    closed spec fn view(&self) -> TableMeta {
        TableMeta {
            schema: self.schema@,
            read_only: self.read_only,
            data_page_id: self.data_page_id,
            index_root_page_id: self.index_root_page_id,
            next_row_id: self.next_row_id,
        }
    }
}

impl Table {
    /// A writable table with no pages yet and row ids starting at zero.
    pub fn new(schema: TableSchema) -> (r: Self)
        ensures
            r@ == (TableMeta {
                schema: schema@,
                read_only: false,
                data_page_id: None,
                index_root_page_id: None,
                next_row_id: 0,
            }),
    {
        Table { schema, read_only: false, data_page_id: None, index_root_page_id: None, next_row_id: 0 }
    }

    /// Renames the table's schema; a name the schema rules refuse leaves the
    /// table unchanged.
    pub fn rename_schema(&mut self, new_name: &str) -> (r: Result<(), DbError>)
        ensures
            r is Ok <==> schema_valid(new_name@, old(self)@.schema.columns),
            r is Ok ==> final(self)@ == (TableMeta {
                schema: SchemaModel { name: new_name@, columns: old(self)@.schema.columns },
                ..old(self)@
            }),
            r matches Err(e) ==> e.kind() == ErrorKind::InvalidOperation && final(self)@ == old(self)@,
    {
        let cols = duplicate_columns(self.schema.columns());
        let new_schema = TableSchema::try_new(new_name, cols)?;
        self.schema = new_schema;
        Ok(())
    }

    pub fn schema(&self) -> (r: &TableSchema)
        ensures
            r@ == self@.schema,
    {
        &self.schema
    }

    pub fn is_read_only(&self) -> (r: bool)
        ensures
            r == self@.read_only,
    {
        self.read_only
    }

    pub fn set_read_only(&mut self, value: bool)
        ensures
            final(self)@ == (TableMeta { read_only: value, ..old(self)@ }),
    {
        self.read_only = value;
    }

    pub fn data_page_id(&self) -> (r: Option<u32>)
        ensures
            r == self@.data_page_id,
    {
        self.data_page_id
    }

    pub fn set_data_page_id(&mut self, id: u32)
        ensures
            final(self)@ == (TableMeta { data_page_id: Some(id), ..old(self)@ }),
    {
        self.data_page_id = Some(id);
    }

    pub fn index_root_page_id(&self) -> (r: Option<u32>)
        ensures
            r == self@.index_root_page_id,
    {
        self.index_root_page_id
    }

    pub fn set_index_root_page_id(&mut self, id: u32)
        ensures
            final(self)@ == (TableMeta { index_root_page_id: Some(id), ..old(self)@ }),
    {
        self.index_root_page_id = Some(id);
    }

    pub fn clear_index_root_page_id(&mut self)
        ensures
            final(self)@ == (TableMeta { index_root_page_id: None, ..old(self)@ }),
    {
        self.index_root_page_id = None;
    }

    pub fn next_row_id(&self) -> (r: u64)
        ensures
            r == self@.next_row_id,
    {
        self.next_row_id
    }

    pub fn set_next_row_id(&mut self, value: u64)
        ensures
            final(self)@ == (TableMeta { next_row_id: value, ..old(self)@ }),
    {
        self.next_row_id = value;
    }

    /// Hands out the next row id and advances it; at the largest id this is
    /// an invalid operation and nothing changes.
    pub fn increment_next_row_id(&mut self) -> (r: Result<u64, DbError>)
        ensures
            r is Ok <==> old(self)@.next_row_id < u64::MAX,
            r matches Ok(id) ==> id == old(self)@.next_row_id && final(self)@ == (TableMeta {
                next_row_id: (id + 1) as u64,
                ..old(self)@
            }),
            r matches Err(e) ==> e.kind() == ErrorKind::InvalidOperation && final(self)@ == old(self)@,
    {
        let current = self.next_row_id;
        if current == u64::MAX {
            return Err(DbError::invalid_operation("row id overflow"));
        }
        self.next_row_id = current + 1;
        Ok(current)
    }

    /// A copy of the table.
    pub fn duplicate(&self) -> (r: Self)
        ensures
            r@ == self@,
    {
        Table {
            schema: self.schema.duplicate(),
            read_only: self.read_only,
            data_page_id: self.data_page_id,
            index_root_page_id: self.index_root_page_id,
            next_row_id: self.next_row_id,
        }
    }
}

} // verus!
