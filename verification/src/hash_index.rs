use crate::bytes::bytes_equal;
use crate::types::magnitude;
use crate::value::{Value, ValueModel};
use vstd::prelude::*;

verus! {

/// The model of an index key.
pub enum KeyModel {
    Null,
    Integer(i64),
    Float(u64),
    Text(Seq<char>),
    Blob(Seq<u8>),
    Formula(Seq<char>),
}

/// A key of a [`HashIndex`].
#[derive(Debug, Clone, PartialEq, Eq, Hash)]
pub enum IndexKey {
    Null,
    Integer(i64),
    /// A double by its bit pattern.
    Float(u64),
    Text(String),
    Blob(Vec<u8>),
    Formula(String),
}

impl View for IndexKey {
    type V = KeyModel;

    open spec fn view(&self) -> KeyModel {
        match self {
            IndexKey::Null => KeyModel::Null,
            IndexKey::Integer(i) => KeyModel::Integer(*i),
            IndexKey::Float(b) => KeyModel::Float(*b),
            IndexKey::Text(s) => KeyModel::Text(s@),
            IndexKey::Blob(b) => KeyModel::Blob(b@),
            IndexKey::Formula(s) => KeyModel::Formula(s@),
        }
    }
}

/// The key under which a value is indexed, if it has one: both zeros share
/// the key of `0.0`, and booleans have none.
pub open spec fn key_of(v: ValueModel) -> Option<KeyModel> {
    match v {
        ValueModel::Null => Some(KeyModel::Null),
        ValueModel::Integer(i) => Some(KeyModel::Integer(i)),
        ValueModel::Float(b) => Some(
            KeyModel::Float(
                if magnitude(b) == 0 {
                    0
                } else {
                    b
                },
            ),
        ),
        ValueModel::Text(t) => Some(KeyModel::Text(t)),
        ValueModel::Blob(b) => Some(KeyModel::Blob(b)),
        ValueModel::Boolean(_) => None,
    }
}

impl IndexKey {
    /// The key of a value (see [`key_of`]).
    pub fn from_value(v: &Value) -> (r: Option<Self>)
        ensures
            r is Some <==> key_of(v@) is Some,
            r matches Some(k) ==> key_of(v@) == Some(k@),
    {
        match v {
            Value::Null => Some(IndexKey::Null),
            Value::Integer(i) => Some(IndexKey::Integer(i.as_i64())),
            Value::Float(f) => {
                let bits = if f.is_zero() {
                    0u64
                } else {
                    f.to_bits()
                };
                Some(IndexKey::Float(bits))
            },
            Value::Text(t) => {
                let s = t.as_str().to_owned();
                Some(IndexKey::Text(s))
            },
            Value::Blob(b) => {
                let v: Vec<u8> = b.to_vec();
                Some(IndexKey::Blob(v))
            },
            Value::Boolean(_) => None,
        }
    }

    /// Whether two keys are equal.
    pub fn same_as(&self, other: &IndexKey) -> (r: bool)
        ensures
            r == (self@ == other@),
    {
        match (self, other) {
            (IndexKey::Null, IndexKey::Null) => true,
            (IndexKey::Integer(a), IndexKey::Integer(b)) => *a == *b,
            (IndexKey::Float(a), IndexKey::Float(b)) => *a == *b,
            (IndexKey::Text(a), IndexKey::Text(b)) => *a == *b,
            (IndexKey::Blob(a), IndexKey::Blob(b)) => bytes_equal(a.as_slice(), b.as_slice()),
            (IndexKey::Formula(a), IndexKey::Formula(b)) => *a == *b,
            _ => false,
        }
    }

    pub fn duplicate(&self) -> (r: IndexKey)
        ensures
            r@ == self@,
    {
        match self {
            IndexKey::Null => IndexKey::Null,
            IndexKey::Integer(i) => IndexKey::Integer(*i),
            IndexKey::Float(b) => IndexKey::Float(*b),
            IndexKey::Text(s) => IndexKey::Text(s.clone()),
            IndexKey::Blob(b) => IndexKey::Blob(b.clone()),
            IndexKey::Formula(s) => IndexKey::Formula(s.clone()),
        }
    }
}

/// `s` without the occurrences of `x`, the rest in order.
pub open spec fn without(s: Seq<usize>, x: usize) -> Seq<usize>
    decreases s.len(),
{
    if s.len() == 0 {
        s
    } else {
        let rest = without(s.drop_last(), x);
        if s.last() == x {
            rest
        } else {
            rest.push(s.last())
        }
    }
}

pub open spec fn key_models(keys: Seq<IndexKey>) -> Seq<KeyModel> {
    keys.map_values(|k: IndexKey| k@)
}

pub open spec fn list_models(lists: Seq<Vec<usize>>) -> Seq<Seq<usize>> {
    lists.map_values(|l: Vec<usize>| l@)
}

/// The position of `k` among `keys`.
pub open spec fn position_of(keys: Seq<KeyModel>, k: KeyModel) -> int {
    choose|i: int| 0 <= i < keys.len() && keys[i] == k
}

pub open spec fn keys_distinct(keys: Seq<KeyModel>) -> bool {
    forall|i: int, j: int| 0 <= i < j < keys.len() ==> keys[i] != keys[j]
}

/// The map from each of `keys` to the list at its position.
pub open spec fn entries_map(keys: Seq<KeyModel>, lists: Seq<Seq<usize>>) -> Map<KeyModel, Seq<usize>> {
    Map::new(
        |k: KeyModel| exists|i: int| 0 <= i < keys.len() && keys[i] == k,
        |k: KeyModel| lists[position_of(keys, k)],
    )
}

proof fn lemma_position(keys: Seq<KeyModel>, i: int)
    requires
        keys_distinct(keys),
        0 <= i < keys.len(),
    ensures
        position_of(keys, keys[i]) == i,
{
    let p = position_of(keys, keys[i]);
    assert(0 <= p < keys.len() && keys[p] == keys[i]);
}

/// An index from keys to the rows that hold them, each key listing its rows
/// in the order in which they were added.
#[derive(Debug, Clone, PartialEq, Default)]
pub struct HashIndex {
    keys: Vec<IndexKey>,
    lists: Vec<Vec<usize>>,
}

impl View for HashIndex {
    type V = Map<KeyModel, Seq<usize>>;

    closed spec fn view(&self) -> Map<KeyModel, Seq<usize>> {
        entries_map(key_models(self.keys@), list_models(self.lists@))
    }
}

impl HashIndex {
    /// The index's own invariant: one entry per key, none with an empty list.
    pub closed spec fn wf(&self) -> bool {
        &&& self.keys@.len() == self.lists@.len()
        &&& keys_distinct(key_models(self.keys@))
        &&& forall|i: int| 0 <= i < self.lists@.len() ==> #[trigger] self.lists@[i]@.len() > 0
    }

    /// Every key of the index lists at least one row.
    pub proof fn lemma_lists_nonempty(&self, k: KeyModel)
        requires
            self.wf(),
            self@.contains_key(k),
        ensures
            self@[k].len() > 0,
    {
        let km = key_models(self.keys@);
        let p = position_of(km, k);
        assert(self.lists@[p]@.len() > 0);
    }

    pub fn new() -> (r: Self)
        ensures
            r.wf(),
            r@ == Map::<KeyModel, Seq<usize>>::empty(),
    {
        let r = HashIndex { keys: Vec::new(), lists: Vec::new() };
        assert(r@ =~= Map::<KeyModel, Seq<usize>>::empty());
        r
    }

    fn find(&self, key: &IndexKey) -> (r: Option<usize>)
        requires
            self.wf(),
        ensures
            r is None <==> !self@.contains_key(key@),
            r matches Some(i) ==> i < self.keys@.len() && self.keys@[i as int]@ == key@,
    {
        let mut i: usize = 0;
        while i < self.keys.len()
            invariant
                i <= self.keys@.len(),
                forall|j: int| 0 <= j < i ==> self.keys@[j]@ != key@,
            decreases self.keys@.len() - i,
        {
            if self.keys[i].same_as(key) {
                assert(key_models(self.keys@)[i as int] == key@);
                return Some(i);
            }
            i = i + 1;
        }
        proof {
            if self@.contains_key(key@) {
                let km = key_models(self.keys@);
                let w = choose|j: int| 0 <= j < km.len() && km[j] == key@;
                assert(self.keys@[w]@ == key@);
            }
        }
        None
    }

    /// Adds `row_idx` to the rows of `key`.
    pub fn insert(&mut self, key: IndexKey, row_idx: usize)
        requires
            old(self).wf(),
        ensures
            final(self).wf(),
            final(self)@ == old(self)@.insert(
                key@,
                if old(self)@.contains_key(key@) {
                    old(self)@[key@].push(row_idx)
                } else {
                    seq![row_idx]
                },
            ),
    {
        let ghost old_km = key_models(self.keys@);
        let ghost old_lm = list_models(self.lists@);
        match self.find(&key) {
            Some(i) => {
                let mut l = self.lists[i].clone();
                proof {
                    lemma_position(old_km, i as int);
                }
                l.push(row_idx);
                self.lists.set(i, l);
                proof {
                    let km = key_models(self.keys@);
                    let lm = list_models(self.lists@);
                    assert(km =~= old_km);
                    assert(lm =~= old_lm.update(i as int, old_lm[i as int].push(row_idx)));
                    assert forall|k: KeyModel| #[trigger] self@.contains_key(k) implies self@[k]
                        == old(self)@.insert(key@, old(self)@[key@].push(row_idx))[k] by {
                        let p = position_of(km, k);
                        lemma_position(km, p);
                    }
                    assert(self@ =~= old(self)@.insert(key@, old(self)@[key@].push(row_idx)));
                }
            },
            None => {
                let ghost k = key@;
                self.keys.push(key);
                let mut single: Vec<usize> = Vec::new();
                single.push(row_idx);
                assert(single@ =~= seq![row_idx]);
                self.lists.push(single);
                proof {
                    let km = key_models(self.keys@);
                    let lm = list_models(self.lists@);
                    assert(km =~= old_km.push(k));
                    assert(lm =~= old_lm.push(seq![row_idx]));
                    assert forall|a: int, b: int| 0 <= a < b < km.len() implies km[a] != km[b] by {
                        if b == km.len() - 1 {
                            assert(!old(self)@.contains_key(k));
                            if km[a] == k {
                                assert(old_km[a] == k);
                            }
                        }
                    }
                    assert forall|kk: KeyModel| #[trigger] self@.contains_key(kk)
                        <==> old(self)@.insert(k, seq![row_idx]).contains_key(kk) by {
                        if self@.contains_key(kk) {
                            let p = choose|j: int| 0 <= j < km.len() && km[j] == kk;
                            if p < old_km.len() {
                                assert(old_km[p] == kk);
                            }
                        }
                        if old(self)@.contains_key(kk) {
                            let p = choose|j: int| 0 <= j < old_km.len() && old_km[j] == kk;
                            assert(km[p] == kk);
                        }
                        if kk == k {
                            assert(km[km.len() - 1] == kk);
                        }
                    }
                    assert forall|kk: KeyModel| #[trigger] self@.contains_key(kk) implies self@[kk]
                        == old(self)@.insert(k, seq![row_idx])[kk] by {
                        let p = position_of(km, kk);
                        lemma_position(km, p);
                        if kk != k {
                            lemma_position(old_km, p);
                        } else {
                            lemma_position(km, km.len() - 1);
                        }
                    }
                    assert(self@ =~= old(self)@.insert(k, seq![row_idx]));
                }
            },
        }
    }

    pub fn contains(&self, key: &IndexKey) -> (r: bool)
        requires
            self.wf(),
        ensures
            r == self@.contains_key(key@),
    {
        self.find(key).is_some()
    }

    pub fn clear(&mut self)
        ensures
            final(self).wf(),
            final(self)@ == Map::<KeyModel, Seq<usize>>::empty(),
    {
        self.keys.clear();
        self.lists.clear();
        assert(self@ =~= Map::<KeyModel, Seq<usize>>::empty());
    }

    /// The rows of `key`, if it has any.
    pub fn get_indices(&self, key: &IndexKey) -> (r: Option<&[usize]>)
        requires
            self.wf(),
        ensures
            r is Some <==> self@.contains_key(key@),
            r matches Some(s) ==> s@ == self@[key@],
    {
        match self.find(key) {
            Some(i) => {
                proof {
                    lemma_position(key_models(self.keys@), i as int);
                }
                Some(self.lists[i].as_slice())
            },
            None => None,
        }
    }

    /// Drops `row_idx` from the rows of `key`, and the key when no row is left.
    pub fn remove(&mut self, key: &IndexKey, row_idx: usize)
        requires
            old(self).wf(),
        ensures
            final(self).wf(),
            final(self)@ == if !old(self)@.contains_key(key@) {
                old(self)@
            } else if without(old(self)@[key@], row_idx).len() == 0 {
                old(self)@.remove(key@)
            } else {
                old(self)@.insert(key@, without(old(self)@[key@], row_idx))
            },
    {
        let ghost old_km = key_models(self.keys@);
        let ghost old_lm = list_models(self.lists@);
        match self.find(key) {
            None => {},
            Some(i) => {
                proof {
                    lemma_position(old_km, i as int);
                }
                let kept = retain_other(self.lists[i].as_slice(), row_idx);
                if kept.len() == 0 {
                    self.keys.remove(i);
                    self.lists.remove(i);
                    proof {
                        let km = key_models(self.keys@);
                        let lm = list_models(self.lists@);
                        assert(km =~= old_km.remove(i as int));
                        assert(lm =~= old_lm.remove(i as int));
                        assert forall|k: KeyModel| #[trigger] self@.contains_key(k)
                            <==> old(self)@.remove(key@).contains_key(k) by {
                            if self@.contains_key(k) {
                                let p = choose|j: int| 0 <= j < km.len() && km[j] == k;
                                if p < i {
                                    assert(old_km[p] == k);
                                } else {
                                    assert(old_km[p + 1] == k);
                                }
                            }
                            if old(self)@.remove(key@).contains_key(k) {
                                let p = choose|j: int| 0 <= j < old_km.len() && old_km[j] == k;
                                if p < i {
                                    assert(km[p] == k);
                                } else {
                                    assert(km[p - 1] == k);
                                }
                            }
                        }
                        assert forall|k: KeyModel| #[trigger] self@.contains_key(k) implies self@[k]
                            == old(self)@[k] by {
                            let p = position_of(km, k);
                            lemma_position(km, p);
                            if p < i {
                                lemma_position(old_km, p);
                            } else {
                                lemma_position(old_km, p + 1);
                            }
                        }
                        assert(self@ =~= old(self)@.remove(key@));
                    }
                } else {
                    self.lists.set(i, kept);
                    proof {
                        let km = key_models(self.keys@);
                        let lm = list_models(self.lists@);
                        assert(km =~= old_km);
                        let nl = without(old_lm[i as int], row_idx);
                        assert(lm =~= old_lm.update(i as int, nl));
                        assert forall|k: KeyModel| #[trigger] self@.contains_key(k) implies self@[k]
                            == old(self)@.insert(key@, nl)[k] by {
                            let p = position_of(km, k);
                            lemma_position(km, p);
                        }
                        assert(self@ =~= old(self)@.insert(key@, nl));
                    }
                }
            },
        }
    }
}

/// The elements of `s` other than `x`, in order.
pub fn retain_other(s: &[usize], x: usize) -> (r: Vec<usize>)
    ensures
        r@ == without(s@, x),
{
    let mut out: Vec<usize> = Vec::new();
    let mut i: usize = 0;
    while i < s.len()
        invariant
            i <= s@.len(),
            out@ == without(s@.subrange(0, i as int), x),
        decreases s@.len() - i,
    {
        proof {
            assert(s@.subrange(0, i + 1).drop_last() =~= s@.subrange(0, i as int));
        }
        if s[i] != x {
            out.push(s[i]);
        }
        i = i + 1;
    }
    assert(s@.subrange(0, s@.len() as int) =~= s@);
    out
}

} // verus!
