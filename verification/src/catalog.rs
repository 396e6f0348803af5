use crate::error::DbError;
use crate::names::{lemma_insert_sorted, lemma_remove_sorted, locate, name_models, names_sorted};
use crate::schema::TableSchema;
use crate::table::{Table, TableModel};
use crate::text::concat3;
use vstd::prelude::*;

verus! {

/// The names of a catalog's entries, in order.
pub open spec fn entry_names(entries: Seq<(Seq<char>, TableModel)>) -> Seq<Seq<char>> {
    entries.map_values(|e: (Seq<char>, TableModel)| e.0)
}

/// Whether the catalog has a table of that name.
pub open spec fn has_table(entries: Seq<(Seq<char>, TableModel)>, name: Seq<char>) -> bool {
    exists|i: int| 0 <= i < entries.len() && (#[trigger] entries[i]).0 == name
}

/// The position of the table of that name.
pub open spec fn table_position(entries: Seq<(Seq<char>, TableModel)>, name: Seq<char>) -> int {
    choose|i: int| 0 <= i < entries.len() && (#[trigger] entries[i]).0 == name
}

/// The tables of a database, by name, in the order of their names.
#[derive(Debug, Default, Clone)]
pub struct Catalog {
    names: Vec<String>,
    tables: Vec<Table>,
}

impl View for Catalog {
    type V = Seq<(Seq<char>, TableModel)>;

    closed spec fn view(&self) -> Seq<(Seq<char>, TableModel)> {
        Seq::new(self.names@.len(), |i: int| (self.names@[i]@, self.tables@[i]@))
    }
}

impl Catalog {
    /// The catalog's invariant: names strictly increasing, tables well formed.
    pub closed spec fn wf(&self) -> bool {
        &&& self.names@.len() == self.tables@.len()
        &&& names_sorted(name_models(self.names@))
        &&& forall|i: int| 0 <= i < self.tables@.len() ==> (#[trigger] self.tables@[i]).wf()
    }

    proof fn lemma_names(&self)
        requires
            self.names@.len() == self.tables@.len(),
        ensures
            entry_names(self@) == name_models(self.names@),
    {
        assert(entry_names(self@) =~= name_models(self.names@));
    }

    pub fn new() -> (r: Self)
        ensures
            r.wf(),
            r@ == Seq::<(Seq<char>, TableModel)>::empty(),
    {
        let r = Catalog { names: Vec::new(), tables: Vec::new() };
        assert(r@ =~= Seq::<(Seq<char>, TableModel)>::empty());
        r
    }

    /// Adds an empty table with this schema, under the schema's name.
    pub fn create_table(&mut self, schema: TableSchema) -> (r: Result<(), DbError>)
        requires
            old(self).wf(),
        ensures
            final(self).wf(),
            r is Ok <==> (schema@.name.len() > 0 && !has_table(old(self)@, schema@.name)),
            r is Ok ==> exists|pos: int|
                0 <= pos <= old(self)@.len() && final(self)@ == old(self)@.insert(
                    pos,
                    (schema@.name, TableModel { schema: schema@, rows: Seq::empty(), read_only: false }),
                ),
            r matches Err(e) ==> e is InvalidOperation && final(self)@ == old(self)@,
    {
        proof {
            self.lemma_names();
        }
        let name = schema.name().to_owned();
        if name.as_str().is_empty() {
            return Err(DbError::invalid_operation("table name cannot be empty"));
        }
        match locate(self.names.as_slice(), name.as_str()) {
            Ok(i) => {
                proof {
                    assert(self@[i as int].0 == schema@.name);
                }
                Err(DbError::InvalidOperation(concat3("table '", name.as_str(), "' already exists")))
            },
            Err(pos) => {
                let ghost old_view = self@;
                let ghost entry = (schema@.name, TableModel { schema: schema@, rows: Seq::empty(), read_only: false });
                proof {
                    assert forall|j: int| 0 <= j < old_view.len() implies (#[trigger] old_view[j]).0 != schema@.name by {
                        assert(self.names@[j]@ == old_view[j].0);
                    }
                    lemma_insert_sorted(name_models(self.names@), pos as int, name@);
                    assert(name_models(self.names@).insert(pos as int, name@) =~= name_models(
                        self.names@.insert(pos as int, name),
                    ));
                }
                let table = Table::new(schema);
                self.names.insert(pos, name);
                self.tables.insert(pos, table);
                proof {
                    assert(self@ =~= old_view.insert(pos as int, entry));
                    assert forall|i: int| 0 <= i < self.tables@.len() implies (#[trigger] self.tables@[i]).wf() by {
                        if i < pos {
                            assert(self.tables@[i] == old(self).tables@[i]);
                        } else if i > pos {
                            assert(self.tables@[i] == old(self).tables@[i - 1]);
                        }
                    }
                }
                Ok(())
            },
        }
    }

    /// Removes the table of that name.
    pub fn drop_table(&mut self, name: &str) -> (r: Result<(), DbError>)
        requires
            old(self).wf(),
        ensures
            final(self).wf(),
            r is Ok <==> has_table(old(self)@, name@),
            r is Ok ==> exists|i: int|
                0 <= i < old(self)@.len() && old(self)@[i].0 == name@ && final(self)@
                    == old(self)@.remove(i),
            r matches Err(e) ==> e is TableNotFound && final(self)@ == old(self)@,
            r matches Err(e) ==> e matches DbError::TableNotFound(m) && m@ == name@,
    {
        match locate(self.names.as_slice(), name) {
            Ok(i) => {
                let ghost old_view = self@;
                proof {
                    assert(old_view[i as int].0 == name@);
                    lemma_remove_sorted(name_models(self.names@), i as int);
                    assert(name_models(self.names@).remove(i as int) =~= name_models(
                        self.names@.remove(i as int),
                    ));
                }
                self.names.remove(i);
                self.tables.remove(i);
                proof {
                    assert(self@ =~= old_view.remove(i as int));
                    assert forall|k: int| 0 <= k < self.tables@.len() implies (#[trigger] self.tables@[k]).wf() by {
                        if k < i {
                            assert(self.tables@[k] == old(self).tables@[k]);
                        } else {
                            assert(self.tables@[k] == old(self).tables@[k + 1]);
                        }
                    }
                }
                Ok(())
            },
            Err(_) => {
                proof {
                    assert forall|j: int| 0 <= j < self@.len() implies (#[trigger] self@[j]).0 != name@ by {
                        assert(self.names@[j]@ == self@[j].0);
                    }
                }
                Err(DbError::table_not_found(name))
            },
        }
    }

    /// The table of that name.
    pub fn get_table(&self, name: &str) -> (r: Option<&Table>)
        requires
            self.wf(),
        ensures
            r is Some <==> has_table(self@, name@),
            r matches Some(t) ==> t.wf() && exists|i: int|
                0 <= i < self@.len() && self@[i].0 == name@ && t@ == self@[i].1,
    {
        match locate(self.names.as_slice(), name) {
            Ok(i) => {
                proof {
                    assert(self@[i as int].0 == name@);
                }
                Some(&self.tables[i])
            },
            Err(_) => {
                proof {
                    assert forall|j: int| 0 <= j < self@.len() implies (#[trigger] self@[j]).0 != name@ by {
                        assert(self.names@[j]@ == self@[j].0);
                    }
                }
                None
            },
        }
    }

    /// The table of that name, to change in place.
    pub fn get_table_mut(&mut self, name: &str) -> (r: Option<&mut Table>)
        requires
            old(self).wf(),
        ensures
            r is Some <==> has_table(old(self)@, name@),
            r is None ==> final(self)@ == old(self)@ && final(self).wf(),
            r matches Some(t) ==> {
                let i = table_position(old(self)@, name@);
                &&& 0 <= i < old(self)@.len()
                &&& old(self)@[i].0 == name@
                &&& t@ == old(self)@[i].1
                &&& t.wf()
                &&& final(self)@ == old(self)@.update(i, (name@, final(t)@))
            },
            r matches Some(t) ==> (final(t).wf() ==> final(self).wf()),
    {
        match locate(self.names.as_slice(), name) {
            Ok(i) => {
                let ghost old_view = self@;
                proof {
                    assert(old_view[i as int].0 == name@);
                    let p = table_position(old_view, name@);
                    assert(self.names@[p]@ == name@);
                    if p != i {
                        crate::names::lemma_name_order(name@, name@, name@);
                        assert(name_models(self.names@)[p] == name@);
                        assert(name_models(self.names@)[i as int] == name@);
                    }
                }
                Some(self.slot_mut(i))
            },
            Err(_) => {
                proof {
                    assert forall|j: int| 0 <= j < self@.len() implies (#[trigger] self@[j]).0 != name@ by {
                        assert(self.names@[j]@ == self@[j].0);
                    }
                }
                None
            },
        }
    }

    fn slot_mut(&mut self, i: usize) -> (t: &mut Table)
        requires
            i < old(self).tables@.len(),
        ensures
            *t == old(self).tables@[i as int],
            final(self).tables@ == old(self).tables@.update(i as int, *final(t)),
            final(self).names@ == old(self).names@,
    {
        &mut self.tables[i]
    }

    /// The tables with their names, in the order of their names.
    pub fn tables(&self) -> (r: Vec<(&str, &Table)>)
        requires
            self.wf(),
        ensures
            r@.len() == self@.len(),
            forall|i: int| 0 <= i < r@.len() ==> (#[trigger] r@[i]).0@ == self@[i].0 && r@[i].1@ == self@[i].1
                && r@[i].1.wf(),
    {
        let mut out: Vec<(&str, &Table)> = Vec::new();
        let mut i: usize = 0;
        while i < self.names.len()
            invariant
                self.wf(),
                i <= self@.len(),
                out@.len() == i,
                forall|k: int| 0 <= k < i ==> (#[trigger] out@[k]).0@ == self@[k].0 && out@[k].1@ == self@[k].1
                    && out@[k].1.wf(),
            decreases self@.len() - i,
        {
            out.push((self.names[i].as_str(), &self.tables[i]));
            i = i + 1;
        }
        out
    }

    pub fn len(&self) -> (r: usize)
        requires
            self.wf(),
        ensures
            r == self@.len(),
    {
        self.names.len()
    }

    pub fn is_empty(&self) -> (r: bool)
        requires
            self.wf(),
        ensures
            r == (self@.len() == 0),
    {
        self.names.len() == 0
    }
}


/// The entries of a well-formed catalog are in strictly increasing name order.
pub proof fn lemma_entries_sorted(catalog: &Catalog)
    requires
        catalog.wf(),
    ensures
        crate::names::names_sorted(entry_names(catalog@)),
{
    catalog.lemma_names();
}

} // verus!
