use crate::value::{Value, ValueModel};
use vstd::prelude::*;

verus! {

/// The models of a sequence of values.
pub open spec fn models(values: Seq<Value>) -> Seq<ValueModel> {
    values.map_values(|v: Value| v@)
}

/// A row of cell values.
#[derive(Debug, Clone, PartialEq)]
pub struct Row {
    values: Vec<Value>,
}

impl View for Row {
    type V = Seq<ValueModel>;

    closed spec fn view(&self) -> Seq<ValueModel> {
        models(self.values@)
    }
}

impl Row {
    pub fn new(values: Vec<Value>) -> (r: Self)
        ensures
            r@ == models(values@),
    {
        Row { values }
    }

    pub fn values(&self) -> (r: &[Value])
        ensures
            models(r@) == self@,
    {
        self.values.as_slice()
    }

    pub fn get(&self, index: usize) -> (r: Option<&Value>)
        ensures
            r is Some <==> index < self@.len(),
            r matches Some(v) ==> v@ == self@[index as int],
    {
        if index < self.values.len() {
            Some(&self.values[index])
        } else {
            None
        }
    }

    pub fn len(&self) -> (r: usize)
        ensures
            r == self@.len(),
    {
        self.values.len()
    }

    pub fn is_empty(&self) -> (r: bool)
        ensures
            r == (self@.len() == 0),
    {
        self.values.len() == 0
    }

    /// Replaces the value at `index`, returning the row changed in that one place.
    pub fn set(&mut self, index: usize, value: Value)
        requires
            index < old(self)@.len(),
        ensures
            final(self)@ == old(self)@.update(index as int, value@),
    {
        self.values.set(index, value);
        proof {
            assert(models(self.values@) =~= old(self)@.update(index as int, value@));
        }
    }

    /// The row's values, to change in place.
    pub fn values_mut(&mut self) -> (r: &mut Vec<Value>)
        ensures
            models(r@) == old(self)@,
            final(self)@ == models(final(r)@),
    {
        &mut self.values
    }

    /// The value at `index`, to change in place, if there is one.
    pub fn get_mut(&mut self, index: usize) -> (r: Option<&mut Value>)
        ensures
            r is Some <==> index < old(self)@.len(),
            r is None ==> final(self)@ == old(self)@,
            r matches Some(v) ==> v@ == old(self)@[index as int] && final(self)@ == old(self)@.update(
                index as int,
                final(v)@,
            ),
    {
        if index < self.values.len() {
            Some(&mut self.values[index])
        } else {
            None
        }
    }

    /// Takes the values out of the row.
    pub fn into_values(self) -> (r: Vec<Value>)
        ensures
            models(r@) == self@,
    {
        self.values
    }

    /// A copy of the row.
    pub fn duplicate(&self) -> (r: Row)
        ensures
            r@ == self@,
    {
        let values = crate::value::duplicate_values(self.values.as_slice());
        proof {
            assert(models(values@) =~= self@);
        }
        Row { values }
    }
}

} // verus!
