use crate::error::DbError;
use crate::names::{
    lemma_insert_sorted, lemma_remove_sorted, locate, name_models, names_sorted, same_name,
};
use crate::schema::schema_valid;
use crate::schema::TableSchema;
use crate::engine::table::{Table, TableMeta};
use crate::error::ErrorKind;
use crate::text::concat3;
use vstd::prelude::*;

verus! {

/// The names of a catalog's entries, in order.
pub open spec fn entry_names(entries: Seq<(Seq<char>, TableMeta)>) -> Seq<Seq<char>> {
    entries.map_values(|e: (Seq<char>, TableMeta)| e.0)
}

/// Whether the catalog has a table of that name.
pub open spec fn has_table(entries: Seq<(Seq<char>, TableMeta)>, name: Seq<char>) -> bool {
    exists|i: int| 0 <= i < entries.len() && (#[trigger] entries[i]).0 == name
}

/// The position of the table of that name.
pub open spec fn table_position(entries: Seq<(Seq<char>, TableMeta)>, name: Seq<char>) -> int {
    choose|i: int| 0 <= i < entries.len() && (#[trigger] entries[i]).0 == name
}

/// The entry of table `old_name` once renamed `new_name`, in the catalog and
/// in its schema.
pub open spec fn renamed_entry(
    entries: Seq<(Seq<char>, TableMeta)>,
    old_name: Seq<char>,
    new_name: Seq<char>,
) -> (Seq<char>, TableMeta) {
    let t = entries[table_position(entries, old_name)].1;
    (
        new_name,
        TableMeta {
            schema: crate::schema::SchemaModel { name: new_name, columns: t.schema.columns },
            ..t
        },
    )
}

/// The tables of the paged engine, by name, in the order of their names.
#[derive(Debug, Default, Clone, PartialEq)]
pub struct Catalog {
    names: Vec<String>,
    tables: Vec<Table>,
}

impl View for Catalog {
    type V = Seq<(Seq<char>, TableMeta)>;

    closed spec fn view(&self) -> Seq<(Seq<char>, TableMeta)> {
        Seq::new(self.names@.len(), |i: int| (self.names@[i]@, self.tables@[i]@))
    }
}

impl Catalog {
    /// The catalog's invariant: names strictly increasing.
    pub closed spec fn wf(&self) -> bool {
        &&& self.names@.len() == self.tables@.len()
        &&& names_sorted(name_models(self.names@))
    }

    proof fn lemma_names(&self)
        requires
            self.names@.len() == self.tables@.len(),
        ensures
            entry_names(self@) == name_models(self.names@),
    {
        assert(entry_names(self@) =~= name_models(self.names@));
    }

    pub fn new() -> (r: Self)
        ensures
            r.wf(),
            r@ == Seq::<(Seq<char>, TableMeta)>::empty(),
    {
        let r = Catalog { names: Vec::new(), tables: Vec::new() };
        assert(r@ =~= Seq::<(Seq<char>, TableMeta)>::empty());
        r
    }

    /// Adds an empty table with this schema, under the schema's name.
    pub fn create_table(&mut self, schema: TableSchema) -> (r: Result<(), DbError>)
        requires
            old(self).wf(),
        ensures
            final(self).wf(),
            r is Ok <==> (schema@.name.len() > 0 && !has_table(old(self)@, schema@.name)),
            r is Ok ==> exists|pos: int|
                0 <= pos <= old(self)@.len() && final(self)@ == old(self)@.insert(
                    pos,
                    (schema@.name, TableMeta {
                        schema: schema@,
                        read_only: false,
                        data_page_id: None,
                        index_root_page_id: None,
                        next_row_id: 0,
                    }),
                ),
            r matches Err(e) ==> e.kind() == ErrorKind::InvalidOperation && final(self)@ == old(self)@,
    {
        proof {
            self.lemma_names();
        }
        let name = schema.name().to_owned();
        if name.as_str().is_empty() {
            return Err(DbError::invalid_operation("table name cannot be empty"));
        }
        match locate(self.names.as_slice(), name.as_str()) {
            Ok(i) => {
                proof {
                    assert(self@[i as int].0 == schema@.name);
                }
                Err(DbError::InvalidOperation(concat3("table '", name.as_str(), "' already exists")))
            },
            Err(pos) => {
                let ghost old_view = self@;
                let ghost entry = (schema@.name, TableMeta {
                        schema: schema@,
                        read_only: false,
                        data_page_id: None,
                        index_root_page_id: None,
                        next_row_id: 0,
                    });
                proof {
                    assert forall|j: int| 0 <= j < old_view.len() implies (#[trigger] old_view[j]).0 != schema@.name by {
                        assert(self.names@[j]@ == old_view[j].0);
                    }
                    lemma_insert_sorted(name_models(self.names@), pos as int, name@);
                    assert(name_models(self.names@).insert(pos as int, name@) =~= name_models(
                        self.names@.insert(pos as int, name),
                    ));
                }
                let table = Table::new(schema);
                self.names.insert(pos, name);
                self.tables.insert(pos, table);
                proof {
                    assert(self@ =~= old_view.insert(pos as int, entry));
                }
                Ok(())
            },
        }
    }

    /// Removes the table of that name.
    pub fn drop_table(&mut self, name: &str) -> (r: Result<(), DbError>)
        requires
            old(self).wf(),
        ensures
            final(self).wf(),
            r is Ok <==> has_table(old(self)@, name@),
            r is Ok ==> exists|i: int|
                0 <= i < old(self)@.len() && old(self)@[i].0 == name@ && final(self)@
                    == old(self)@.remove(i),
            r matches Err(e) ==> e.kind() == ErrorKind::TableNotFound && final(self)@ == old(self)@,
            r matches Err(e) ==> e matches DbError::TableNotFound(m) && m@ == name@,
    {
        match locate(self.names.as_slice(), name) {
            Ok(i) => {
                let ghost old_view = self@;
                proof {
                    assert(old_view[i as int].0 == name@);
                    lemma_remove_sorted(name_models(self.names@), i as int);
                    assert(name_models(self.names@).remove(i as int) =~= name_models(
                        self.names@.remove(i as int),
                    ));
                }
                self.names.remove(i);
                self.tables.remove(i);
                proof {
                    assert(self@ =~= old_view.remove(i as int));
                }
                Ok(())
            },
            Err(_) => {
                proof {
                    assert forall|j: int| 0 <= j < self@.len() implies (#[trigger] self@[j]).0 != name@ by {
                        assert(self.names@[j]@ == self@[j].0);
                    }
                }
                Err(DbError::table_not_found(name))
            },
        }
    }

    /// The table of that name.
    pub fn get_table(&self, name: &str) -> (r: Option<&Table>)
        requires
            self.wf(),
        ensures
            r is Some <==> has_table(self@, name@),
            r matches Some(t) ==> exists|i: int|
                0 <= i < self@.len() && self@[i].0 == name@ && t@ == self@[i].1,
    {
        match locate(self.names.as_slice(), name) {
            Ok(i) => {
                proof {
                    assert(self@[i as int].0 == name@);
                }
                Some(&self.tables[i])
            },
            Err(_) => {
                proof {
                    assert forall|j: int| 0 <= j < self@.len() implies (#[trigger] self@[j]).0 != name@ by {
                        assert(self.names@[j]@ == self@[j].0);
                    }
                }
                None
            },
        }
    }

    /// The table of that name, to change in place.
    pub fn get_table_mut(&mut self, name: &str) -> (r: Option<&mut Table>)
        requires
            old(self).wf(),
        ensures
            r is Some <==> has_table(old(self)@, name@),
            r is None ==> final(self)@ == old(self)@ && final(self).wf(),
            r matches Some(t) ==> {
                let i = table_position(old(self)@, name@);
                &&& 0 <= i < old(self)@.len()
                &&& old(self)@[i].0 == name@
                &&& t@ == old(self)@[i].1
                &&& final(self)@ == old(self)@.update(i, (name@, final(t)@))
            },
            r matches Some(t) ==> final(self).wf(),
    {
        match locate(self.names.as_slice(), name) {
            Ok(i) => {
                let ghost old_view = self@;
                proof {
                    assert(old_view[i as int].0 == name@);
                    let p = table_position(old_view, name@);
                    assert(self.names@[p]@ == name@);
                    if p != i {
                        crate::names::lemma_name_order(name@, name@, name@);
                        assert(name_models(self.names@)[p] == name@);
                        assert(name_models(self.names@)[i as int] == name@);
                    }
                }
                Some(self.slot_mut(i))
            },
            Err(_) => {
                proof {
                    assert forall|j: int| 0 <= j < self@.len() implies (#[trigger] self@[j]).0 != name@ by {
                        assert(self.names@[j]@ == self@[j].0);
                    }
                }
                None
            },
        }
    }

    fn slot_mut(&mut self, i: usize) -> (t: &mut Table)
        requires
            i < old(self).tables@.len(),
        ensures
            *t == old(self).tables@[i as int],
            final(self).tables@ == old(self).tables@.update(i as int, *final(t)),
            final(self).names@ == old(self).names@,
    {
        &mut self.tables[i]
    }

    /// Puts a table in place of the one of that name. A missing name is a
    /// table-not-found error; a table whose schema has another name is an
    /// invalid operation.
    pub fn replace_table(&mut self, name: &str, table: Table) -> (r: Result<(), DbError>)
        requires
            old(self).wf(),
        ensures
            final(self).wf(),
            r is Ok <==> (has_table(old(self)@, name@) && table@.schema.name == name@),
            r is Ok ==> final(self)@ == old(self)@.update(
                table_position(old(self)@, name@),
                (name@, table@),
            ),
            r is Err ==> final(self)@ == old(self)@,
            r matches Err(e) ==> (if has_table(old(self)@, name@) {
                e.kind() == ErrorKind::InvalidOperation
            } else {
                e.kind() == ErrorKind::TableNotFound
            }),
    {
        match locate(self.names.as_slice(), name) {
            Ok(i) => {
                proof {
                    assert(self@[i as int].0 == name@);
                    let p = table_position(self@, name@);
                    assert(self.names@[p]@ == name@);
                    if p != i {
                        crate::names::lemma_name_order(name@, name@, name@);
                        assert(name_models(self.names@)[p] == name@);
                        assert(name_models(self.names@)[i as int] == name@);
                    }
                }
                if !same_name(table.schema().name(), name) {
                    return Err(DbError::invalid_operation("table schema name does not match catalog key"));
                }
                let ghost old_view = self@;
                self.tables.set(i, table);
                proof {
                    assert(self@ =~= old_view.update(i as int, (name@, table@)));
                }
                Ok(())
            },
            Err(_) => {
                proof {
                    assert forall|j: int| 0 <= j < self@.len() implies (#[trigger] self@[j]).0 != name@ by {
                        assert(self.names@[j]@ == self@[j].0);
                    }
                }
                Err(DbError::table_not_found(name))
            },
        }
    }

    /// Gives the table `old_name` the name `new_name`, in the catalog and in
    /// its schema. The same name twice changes nothing. A taken new name is
    /// an invalid operation; a missing old name is a table-not-found error. A
    /// new name the schema rules refuse is an invalid operation. On any error
    /// the catalog is unchanged.
    pub fn rename_table(&mut self, old_name: &str, new_name: &str) -> (r: Result<(), DbError>)
        requires
            old(self).wf(),
        ensures
            final(self).wf(),
            old_name@ == new_name@ ==> r is Ok && final(self)@ == old(self)@,
            old_name@ != new_name@ ==> (r is Ok <==> (!has_table(old(self)@, new_name@)
                && has_table(old(self)@, old_name@) && schema_valid(
                new_name@,
                old(self)@[table_position(old(self)@, old_name@)].1.schema.columns,
            ))),
            (old_name@ != new_name@ && r is Ok) ==> exists|pos: int|
                0 <= pos < old(self)@.len() && #[trigger] old(self)@.remove(
                    table_position(old(self)@, old_name@),
                ).insert(pos, renamed_entry(old(self)@, old_name@, new_name@)) == final(self)@,
            r is Err ==> final(self)@ == old(self)@,
            r matches Err(e) ==> (e.kind() == ErrorKind::InvalidOperation || e.kind()
                == ErrorKind::TableNotFound),
            (r matches Err(e) && e.kind() == ErrorKind::TableNotFound) <==> (old_name@ != new_name@
                && !has_table(old(self)@, new_name@) && !has_table(old(self)@, old_name@)),
    {
        if same_name(old_name, new_name) {
            return Ok(());
        }
        proof {
            self.lemma_names();
        }
        match locate(self.names.as_slice(), new_name) {
            Ok(i) => {
                proof {
                    assert(self@[i as int].0 == new_name@);
                }
                return Err(DbError::InvalidOperation(concat3("table '", new_name, "' already exists")));
            },
            Err(_) => {},
        }
        let ghost v0 = self@;
        proof {
            assert(!has_table(v0, new_name@)) by {
                assert forall|j: int| 0 <= j < v0.len() implies (#[trigger] v0[j]).0 != new_name@ by {
                    assert(self.names@[j]@ == v0[j].0);
                }
            }
        }
        let i = match locate(self.names.as_slice(), old_name) {
            Ok(i) => i,
            Err(_) => {
                proof {
                    assert forall|j: int| 0 <= j < v0.len() implies (#[trigger] v0[j]).0 != old_name@ by {
                        assert(self.names@[j]@ == v0[j].0);
                    }
                }
                return Err(DbError::table_not_found(old_name));
            },
        };
        proof {
            assert(v0[i as int].0 == old_name@);
            let p = table_position(v0, old_name@);
            assert(self.names@[p]@ == old_name@);
            if p != i {
                crate::names::lemma_name_order(old_name@, old_name@, old_name@);
                assert(name_models(self.names@)[p] == old_name@);
                assert(name_models(self.names@)[i as int] == old_name@);
            }
            lemma_remove_sorted(name_models(self.names@), i as int);
            assert(name_models(self.names@).remove(i as int) =~= name_models(
                self.names@.remove(i as int),
            ));
        }
        let mut table = self.tables[i].duplicate();
        table.rename_schema(new_name)?;
        self.names.remove(i);
        let _ = self.tables.remove(i);
        proof {
            assert(self@ =~= v0.remove(i as int));
        }
        let ghost v1 = self@;
        match locate(self.names.as_slice(), new_name) {
            Ok(k) => {
                proof {
                    assert(v1[k as int].0 == new_name@);
                    assert(v1[k as int] == v0[if k < i { k as int } else { k + 1 }]);
                }
                Err(DbError::InvalidOperation(concat3("table '", new_name, "' already exists")))
            },
            Err(pos) => {
                proof {
                    lemma_insert_sorted(name_models(self.names@), pos as int, new_name@);
                }
                let key = new_name.to_owned();
                let ghost entry = (new_name@, table@);
                proof {
                    assert(name_models(self.names@).insert(pos as int, new_name@) =~= name_models(
                        self.names@.insert(pos as int, key),
                    ));
                }
                self.names.insert(pos, key);
                self.tables.insert(pos, table);
                proof {
                    assert(self@ =~= v1.insert(pos as int, entry));
                    assert(table_position(v0, old_name@) == i);
                    assert(entry == renamed_entry(v0, old_name@, new_name@));
                    assert(v0.remove(table_position(v0, old_name@)).insert(
                        pos as int,
                        renamed_entry(v0, old_name@, new_name@),
                    ) == self@);
                }
                Ok(())
            },
        }
    }

    /// The entries, in the order of their names.
    pub fn tables(&self) -> (r: Vec<(&str, &Table)>)
        requires
            self.wf(),
        ensures
            r@.len() == self@.len(),
            forall|i: int| 0 <= i < r@.len() ==> (#[trigger] r@[i]).0@ == self@[i].0 && r@[i].1@ == self@[i].1,
    {
        let mut out: Vec<(&str, &Table)> = Vec::new();
        let mut i: usize = 0;
        while i < self.names.len()
            invariant
                self.wf(),
                i <= self@.len(),
                out@.len() == i,
                forall|k: int| 0 <= k < i ==> (#[trigger] out@[k]).0@ == self@[k].0 && out@[k].1@ == self@[k].1,
            decreases self@.len() - i,
        {
            out.push((self.names[i].as_str(), &self.tables[i]));
            i = i + 1;
        }
        out
    }

    /// A copy of the catalog.
    pub fn duplicate(&self) -> (r: Self)
        requires
            self.wf(),
        ensures
            r.wf(),
            r@ == self@,
    {
        let mut names: Vec<String> = Vec::new();
        let mut tables: Vec<Table> = Vec::new();
        let mut i: usize = 0;
        while i < self.names.len()
            invariant
                self.wf(),
                i <= self@.len(),
                names@.len() == i,
                tables@.len() == i,
                forall|k: int| 0 <= k < i ==> (#[trigger] names@[k])@ == self.names@[k]@,
                forall|k: int| 0 <= k < i ==> (#[trigger] tables@[k])@ == self.tables@[k]@,
            decreases self@.len() - i,
        {
            names.push(self.names[i].clone());
            tables.push(self.tables[i].duplicate());
            i = i + 1;
        }
        let r = Catalog { names, tables };
        assert(name_models(r.names@) =~= name_models(self.names@));
        assert(r@ =~= self@);
        r
    }

    pub fn len(&self) -> (r: usize)
        requires
            self.wf(),
        ensures
            r == self@.len(),
    {
        self.names.len()
    }

    pub fn is_empty(&self) -> (r: bool)
        requires
            self.wf(),
        ensures
            r == (self@.len() == 0),
    {
        self.names.len() == 0
    }
}


/// The tables of a catalog by name.
pub open spec fn catalog_map(entries: Seq<(Seq<char>, TableMeta)>) -> Map<Seq<char>, TableMeta> {
    Map::new(|k: Seq<char>| has_table(entries, k), |k: Seq<char>| entries[table_position(entries, k)].1)
}

/// No two entries share a name.
pub open spec fn unique_names(entries: Seq<(Seq<char>, TableMeta)>) -> bool {
    forall|i: int, j: int|
        0 <= i < j < entries.len() ==> (#[trigger] entries[i]).0 != (#[trigger] entries[j]).0
}

/// Strictly increasing names are unique.
pub proof fn lemma_sorted_unique(entries: Seq<(Seq<char>, TableMeta)>)
    requires
        crate::names::names_sorted(entry_names(entries)),
    ensures
        unique_names(entries),
{
    assert forall|i: int, j: int| 0 <= i < j < entries.len() implies (#[trigger] entries[i]).0
        != (#[trigger] entries[j]).0 by {
        assert(entry_names(entries)[i] == entries[i].0);
        assert(entry_names(entries)[j] == entries[j].0);
        crate::names::lemma_name_order(entries[i].0, entries[j].0, entries[j].0);
    }
}

/// With unique names, the entry of a name is at the one position that has it.
pub proof fn lemma_position(entries: Seq<(Seq<char>, TableMeta)>, i: int)
    requires
        unique_names(entries),
        0 <= i < entries.len(),
    ensures
        has_table(entries, entries[i].0),
        table_position(entries, entries[i].0) == i,
{
    let k = entries[i].0;
    assert(has_table(entries, k));
    let p = table_position(entries, k);
    if p != i {
        if p < i {
            assert(entries[p].0 != entries[i].0);
        } else {
            assert(entries[i].0 != entries[p].0);
        }
    }
}

/// Inserting an entry of a new name adds it to the map.
pub proof fn lemma_map_insert(entries: Seq<(Seq<char>, TableMeta)>, pos: int, e: (Seq<char>, TableMeta))
    requires
        unique_names(entries),
        !has_table(entries, e.0),
        0 <= pos <= entries.len(),
    ensures
        unique_names(entries.insert(pos, e)),
        catalog_map(entries.insert(pos, e)) == catalog_map(entries).insert(e.0, e.1),
{
    let n = entries.insert(pos, e);
    assert forall|i: int, j: int| 0 <= i < j < n.len() implies (#[trigger] n[i]).0 != (#[trigger] n[j]).0 by {
        if i == pos {
            assert(n[j] == entries[j - 1]);
        } else if j == pos {
            assert(n[i] == entries[i]);
        } else {
            let ii = if i < pos { i } else { i - 1 };
            let jj = if j < pos { j } else { j - 1 };
            assert(n[i] == entries[ii]);
            assert(n[j] == entries[jj]);
        }
    }
    assert forall|k: Seq<char>| #[trigger] catalog_map(n).contains_key(k) == catalog_map(entries).insert(e.0, e.1).contains_key(k) by {
        if has_table(n, k) {
            let p = table_position(n, k);
            if p != pos {
                let q = if p < pos { p } else { p - 1 };
                assert(entries[q] == n[p]);
            }
        }
        if has_table(entries, k) {
            let p = table_position(entries, k);
            let q = if p < pos { p } else { p + 1 };
            assert(n[q] == entries[p]);
        }
        if k == e.0 {
            assert(n[pos] == e);
        }
    }
    assert forall|k: Seq<char>| #[trigger] catalog_map(n).contains_key(k) implies catalog_map(n)[k] == catalog_map(entries).insert(e.0, e.1)[k] by {
        let p = table_position(n, k);
        lemma_position(n, p);
        if p == pos {
        } else {
            let q = if p < pos { p } else { p - 1 };
            assert(entries[q] == n[p]);
            lemma_position(entries, q);
        }
    }
    assert(catalog_map(n) =~= catalog_map(entries).insert(e.0, e.1));
}

/// Replacing the entry of a name replaces it in the map.
pub proof fn lemma_map_update(entries: Seq<(Seq<char>, TableMeta)>, i: int, t: TableMeta)
    requires
        unique_names(entries),
        0 <= i < entries.len(),
    ensures
        unique_names(entries.update(i, (entries[i].0, t))),
        catalog_map(entries.update(i, (entries[i].0, t))) == catalog_map(entries).insert(entries[i].0, t),
{
    let n = entries.update(i, (entries[i].0, t));
    assert forall|a: int, b: int| 0 <= a < b < n.len() implies (#[trigger] n[a]).0 != (#[trigger] n[b]).0 by {}
    assert forall|k: Seq<char>| #[trigger] catalog_map(n).contains_key(k) == catalog_map(entries).insert(entries[i].0, t).contains_key(k) by {
        if has_table(n, k) {
            let p = table_position(n, k);
            assert(entries[p].0 == n[p].0);
        }
        if has_table(entries, k) {
            let p = table_position(entries, k);
            assert(n[p].0 == entries[p].0);
        }
        lemma_position(entries, i);
    }
    assert forall|k: Seq<char>| #[trigger] catalog_map(n).contains_key(k) implies catalog_map(n)[k] == catalog_map(entries).insert(entries[i].0, t)[k] by {
        let p = table_position(n, k);
        lemma_position(n, p);
        lemma_position(entries, p);
        lemma_position(entries, i);
    }
    assert(catalog_map(n) =~= catalog_map(entries).insert(entries[i].0, t));
}

/// The entries of a well-formed engine catalog are in strictly increasing
/// name order.
pub proof fn lemma_entries_sorted(catalog: &Catalog)
    requires
        catalog.wf(),
    ensures
        crate::names::names_sorted(entry_names(catalog@)),
{
    catalog.lemma_names();
}

} // verus!
