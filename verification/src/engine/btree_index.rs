use crate::engine::key::{IndexKey, KeyOrder, KeyView, key_lt, lemma_key_order};
use crate::hash_index::{retain_other, without};
use vstd::prelude::*;

verus! {

pub open spec fn key_views(keys: Seq<IndexKey>) -> Seq<KeyView> {
    keys.map_values(|k: IndexKey| k@)
}

pub open spec fn row_lists(lists: Seq<Vec<usize>>) -> Seq<Seq<usize>> {
    lists.map_values(|l: Vec<usize>| l@)
}

/// Keys in strictly ascending order.
pub open spec fn ascending(keys: Seq<KeyView>) -> bool {
    forall|i: int, j: int| 0 <= i < j < keys.len() ==> key_lt(keys[i], keys[j])
}

/// A list in which nothing occurs twice.
pub open spec fn no_repeats(l: Seq<usize>) -> bool {
    forall|i: int, j: int| 0 <= i < j < l.len() ==> l[i] != l[j]
}

/// The position of `k` among `keys`.
pub open spec fn place_of(keys: Seq<KeyView>, k: KeyView) -> int {
    choose|i: int| 0 <= i < keys.len() && keys[i] == k
}

/// The map from each of `keys` to the list at its position.
pub open spec fn key_map(keys: Seq<KeyView>, lists: Seq<Seq<usize>>) -> Map<KeyView, Seq<usize>> {
    Map::new(
        |k: KeyView| exists|i: int| 0 <= i < keys.len() && keys[i] == k,
        |k: KeyView| lists[place_of(keys, k)],
    )
}

proof fn lemma_place(keys: Seq<KeyView>, i: int)
    requires
        ascending(keys),
        0 <= i < keys.len(),
    ensures
        place_of(keys, keys[i]) == i,
{
    let p = place_of(keys, keys[i]);
    assert(0 <= p < keys.len() && keys[p] == keys[i]);
    if p != i {
        lemma_key_order(keys[i], keys[i], keys[i]);
    }
}

proof fn lemma_key_map_update(keys: Seq<KeyView>, lists: Seq<Seq<usize>>, i: int, l: Seq<usize>)
    requires
        ascending(keys),
        keys.len() == lists.len(),
        0 <= i < keys.len(),
    ensures
        key_map(keys, lists.update(i, l)) == key_map(keys, lists).insert(keys[i], l),
{
    let a = key_map(keys, lists.update(i, l));
    let b = key_map(keys, lists).insert(keys[i], l);
    assert forall|k: KeyView| #[trigger] a.contains_key(k) implies a[k] == b[k] by {
        let p = place_of(keys, k);
        lemma_place(keys, p);
        lemma_place(keys, i);
    }
    lemma_place(keys, i);
    assert(a =~= b);
}

proof fn lemma_key_map_insert(
    keys: Seq<KeyView>,
    lists: Seq<Seq<usize>>,
    i: int,
    k: KeyView,
    l: Seq<usize>,
)
    requires
        ascending(keys.insert(i, k)),
        keys.len() == lists.len(),
        0 <= i <= keys.len(),
    ensures
        key_map(keys.insert(i, k), lists.insert(i, l)) == key_map(keys, lists).insert(k, l),
{
    let nk = keys.insert(i, k);
    let nl = lists.insert(i, l);
    let a = key_map(nk, nl);
    let b = key_map(keys, lists).insert(k, l);
    assert(ascending(keys)) by {
        assert forall|x: int, y: int| 0 <= x < y < keys.len() implies key_lt(keys[x], keys[y]) by {
            let x2 = if x < i { x } else { x + 1 };
            let y2 = if y < i { y } else { y + 1 };
            assert(nk[x2] == keys[x] && nk[y2] == keys[y]);
        }
    }
    assert forall|kk: KeyView| #[trigger] a.contains_key(kk) <==> b.contains_key(kk) by {
        if a.contains_key(kk) {
            let p = choose|j: int| 0 <= j < nk.len() && nk[j] == kk;
            if p < i {
                assert(keys[p] == kk);
            } else if p > i {
                assert(keys[p - 1] == kk);
            }
        }
        if b.contains_key(kk) && kk != k {
            let p = choose|j: int| 0 <= j < keys.len() && keys[j] == kk;
            if p < i {
                assert(nk[p] == kk);
            } else {
                assert(nk[p + 1] == kk);
            }
        }
        if kk == k {
            assert(nk[i] == k);
        }
    }
    assert forall|kk: KeyView| #[trigger] a.contains_key(kk) implies a[kk] == b[kk] by {
        let p = place_of(nk, kk);
        lemma_place(nk, p);
        if p < i {
            lemma_place(keys, p);
            assert(kk != k) by {
                lemma_place(nk, i);
            }
        } else if p > i {
            lemma_place(keys, p - 1);
            assert(kk != k) by {
                lemma_place(nk, i);
            }
        }
    }
    assert(a =~= b);
}

proof fn lemma_key_map_remove(keys: Seq<KeyView>, lists: Seq<Seq<usize>>, i: int)
    requires
        ascending(keys),
        keys.len() == lists.len(),
        0 <= i < keys.len(),
    ensures
        ascending(keys.remove(i)),
        key_map(keys.remove(i), lists.remove(i)) == key_map(keys, lists).remove(keys[i]),
{
    let nk = keys.remove(i);
    let a = key_map(nk, lists.remove(i));
    let b = key_map(keys, lists).remove(keys[i]);
    assert forall|x: int, y: int| 0 <= x < y < nk.len() implies key_lt(nk[x], nk[y]) by {
        let x2 = if x < i { x } else { x + 1 };
        let y2 = if y < i { y } else { y + 1 };
        assert(nk[x] == keys[x2] && nk[y] == keys[y2]);
    }
    assert forall|kk: KeyView| #[trigger] a.contains_key(kk) <==> b.contains_key(kk) by {
        if a.contains_key(kk) {
            let p = choose|j: int| 0 <= j < nk.len() && nk[j] == kk;
            if p < i {
                assert(keys[p] == kk);
                lemma_place(keys, p);
                lemma_place(keys, i);
            } else {
                assert(keys[p + 1] == kk);
                lemma_place(keys, p + 1);
                lemma_place(keys, i);
            }
        }
        if b.contains_key(kk) {
            let p = choose|j: int| 0 <= j < keys.len() && keys[j] == kk;
            if p < i {
                assert(nk[p] == kk);
            } else {
                assert(p != i);
                assert(nk[p - 1] == kk);
            }
        }
    }
    assert forall|kk: KeyView| #[trigger] a.contains_key(kk) implies a[kk] == b[kk] by {
        let p = place_of(nk, kk);
        lemma_place(nk, p);
        if p < i {
            lemma_place(keys, p);
        } else {
            lemma_place(keys, p + 1);
        }
    }
    assert(a =~= b);
}

/// An ordered index from keys to the rows that hold them: each key lists its
/// rows in the order in which they were added, each row once.
#[derive(Debug, Clone, PartialEq, Eq, Default)]
pub struct BTreeIndex {
    keys: Vec<IndexKey>,
    lists: Vec<Vec<usize>>,
}

impl View for BTreeIndex {
    type V = Map<KeyView, Seq<usize>>;

    closed spec fn view(&self) -> Map<KeyView, Seq<usize>> {
        key_map(key_views(self.keys@), row_lists(self.lists@))
    }
}

impl BTreeIndex {
    /// The index's own invariant: keys in ascending order, each with a
    /// non-empty list of rows in which no row occurs twice.
    pub closed spec fn wf(&self) -> bool {
        &&& self.keys@.len() == self.lists@.len()
        &&& ascending(key_views(self.keys@))
        &&& forall|i: int|
            0 <= i < self.lists@.len() ==> #[trigger] self.lists@[i]@.len() > 0 && no_repeats(
                self.lists@[i]@,
            )
    }

    /// The keys of the index, in ascending order.
    pub closed spec fn ordered_keys(&self) -> Seq<KeyView> {
        key_views(self.keys@)
    }

    /// Every key lists at least one row and no row twice; the ordered keys
    /// are exactly the keys of the map, in ascending order.
    pub proof fn lemma_wf(&self, k: KeyView)
        requires
            self.wf(),
        ensures
            self@.contains_key(k) ==> self@[k].len() > 0 && no_repeats(self@[k]),
            ascending(self.ordered_keys()),
            self@.contains_key(k) <==> self.ordered_keys().contains(k),
    {
        let km = key_views(self.keys@);
        if self@.contains_key(k) {
            let p = place_of(km, k);
            assert(self.lists@[p]@.len() > 0);
        }
        if km.contains(k) {
            let p = choose|j: int| 0 <= j < km.len() && km[j] == k;
            assert(self@.contains_key(k));
        }
    }

    pub fn new() -> (r: Self)
        ensures
            r.wf(),
            r@ == Map::<KeyView, Seq<usize>>::empty(),
    {
        let r = BTreeIndex { keys: Vec::new(), lists: Vec::new() };
        assert(r@ =~= Map::<KeyView, Seq<usize>>::empty());
        r
    }

    /// The first position whose key does not sort before `key`.
    fn lower_bound(&self, key: &IndexKey) -> (r: usize)
        requires
            self.wf(),
        ensures
            r <= self.keys@.len(),
            forall|j: int| 0 <= j < r ==> key_lt(#[trigger] self.keys@[j]@, key@),
            forall|j: int| r <= j < self.keys@.len() ==> !key_lt(#[trigger] self.keys@[j]@, key@),
    {
        let mut i: usize = 0;
        while i < self.keys.len()
            invariant
                self.wf(),
                i <= self.keys@.len(),
                forall|j: int| 0 <= j < i ==> key_lt(#[trigger] self.keys@[j]@, key@),
            decreases self.keys@.len() - i,
        {
            if !self.keys[i].less_than(key) {
                proof {
                    let km = key_views(self.keys@);
                    assert forall|j: int| i <= j < self.keys@.len() implies !key_lt(
                        #[trigger] self.keys@[j]@,
                        key@,
                    ) by {
                        if j > i {
                            assert(km[i as int] == self.keys@[i as int]@);
                            assert(km[j] == self.keys@[j]@);
                            lemma_key_order(key@, km[i as int], km[j]);
                            lemma_key_order(km[i as int], km[j], key@);
                        }
                    }
                }
                return i;
            }
            i = i + 1;
        }
        i
    }

    /// The position of `key`, if the index has it.
    fn find(&self, key: &IndexKey) -> (r: Option<usize>)
        requires
            self.wf(),
        ensures
            r is None <==> !self@.contains_key(key@),
            r matches Some(i) ==> i < self.keys@.len() && self.keys@[i as int]@ == key@,
    {
        let i = self.lower_bound(key);
        let ghost km = key_views(self.keys@);
        if i < self.keys.len() && self.keys[i].compare(key) == KeyOrder::Equal {
            assert(km[i as int] == key@);
            return Some(i);
        }
        proof {
            if self@.contains_key(key@) {
                let w = choose|j: int| 0 <= j < km.len() && km[j] == key@;
                assert(self.keys@[w]@ == key@);
                lemma_key_order(key@, key@, key@);
                if w > i {
                    assert(km[i as int] == self.keys@[i as int]@);
                    lemma_key_order(km[i as int], key@, key@);
                }
            }
        }
        None
    }

    /// Adds `row_idx` to the rows of `key`, unless it is listed there already.
    pub fn insert(&mut self, key: IndexKey, row_idx: usize)
        requires
            old(self).wf(),
        ensures
            final(self).wf(),
            final(self)@ == old(self)@.insert(
                key@,
                if !old(self)@.contains_key(key@) {
                    seq![row_idx]
                } else if old(self)@[key@].contains(row_idx) {
                    old(self)@[key@]
                } else {
                    old(self)@[key@].push(row_idx)
                },
            ),
    {
        let ghost old_km = key_views(self.keys@);
        let ghost old_lm = row_lists(self.lists@);
        let i = self.lower_bound(&key);
        if i < self.keys.len() && self.keys[i].compare(&key) == KeyOrder::Equal {
            proof {
                assert(old_km[i as int] == key@);
                lemma_place(old_km, i as int);
            }
            if contains_row(self.lists[i].as_slice(), row_idx) {
                proof {
                    assert(old(self)@.insert(key@, old(self)@[key@]) =~= old(self)@);
                }
                return;
            }
            let mut l = self.lists[i].clone();
            l.push(row_idx);
            self.lists.set(i, l);
            proof {
                let km = key_views(self.keys@);
                let lm = row_lists(self.lists@);
                assert(km =~= old_km);
                assert(lm =~= old_lm.update(i as int, old_lm[i as int].push(row_idx)));
                lemma_key_map_update(old_km, old_lm, i as int, old_lm[i as int].push(row_idx));
                let nl = self.lists@[i as int]@;
                assert forall|a: int, b: int| 0 <= a < b < nl.len() implies nl[a] != nl[b] by {
                    if b == nl.len() - 1 {
                        assert(old_lm[i as int][a] == nl[a]);
                    }
                }
                assert forall|j: int| 0 <= j < self.lists@.len() implies #[trigger] self.lists@[j]@.len()
                    > 0 && no_repeats(self.lists@[j]@) by {
                    if j != i {
                        assert(self.lists@[j] == old(self).lists@[j]);
                    }
                }
            }
        } else {
            let ghost k = key@;
            proof {
                if old(self)@.contains_key(k) {
                    let w = choose|j: int| 0 <= j < old_km.len() && old_km[j] == k;
                    assert(old(self).keys@[w]@ == k);
                    lemma_key_order(k, k, k);
                    if w > i {
                        assert(old_km[i as int] == old(self).keys@[i as int]@);
                        lemma_key_order(old_km[i as int], k, k);
                    }
                    if i < old_km.len() {
                        assert(old_km[i as int] == old(self).keys@[i as int]@);
                    }
                }
            }
            self.keys.insert(i, key);
            let mut single: Vec<usize> = Vec::new();
            single.push(row_idx);
            assert(single@ =~= seq![row_idx]);
            self.lists.insert(i, single);
            proof {
                let km = key_views(self.keys@);
                let lm = row_lists(self.lists@);
                assert(km =~= old_km.insert(i as int, k));
                assert(lm =~= old_lm.insert(i as int, seq![row_idx]));
                assert forall|a: int, b: int| 0 <= a < b < km.len() implies key_lt(km[a], km[b]) by {
                    if b < i {
                        assert(km[a] == old_km[a] && km[b] == old_km[b]);
                    } else if b == i {
                        assert(km[a] == old(self).keys@[a]@);
                    } else if a == i {
                        assert(km[b] == old(self).keys@[b - 1]@);
                        assert(old_km[b - 1] == old(self).keys@[b - 1]@);
                        assert(k != old_km[b - 1]) by {
                            if k == old_km[b - 1] {
                                assert(old(self)@.contains_key(k));
                            }
                        }
                        lemma_key_order(k, old_km[b - 1], k);
                    } else if a < i {
                        assert(km[a] == old_km[a] && km[b] == old_km[b - 1]);
                        if a < b - 1 {
                        } else {
                        }
                        assert(key_lt(old_km[a], k));
                        assert(old_km[a] == old(self).keys@[a]@);
                        assert(old_km[b - 1] == old(self).keys@[b - 1]@);
                        assert(!key_lt(old_km[b - 1], k));
                        lemma_key_order(old_km[a], k, old_km[b - 1]);
                        lemma_key_order(k, old_km[b - 1], k);
                        if old_km[b - 1] == k {
                            assert(old(self)@.contains_key(k));
                        }
                    } else {
                        assert(km[a] == old_km[a - 1] && km[b] == old_km[b - 1]);
                    }
                }
                lemma_key_map_insert(old_km, old_lm, i as int, k, seq![row_idx]);
                assert forall|j: int| 0 <= j < self.lists@.len() implies #[trigger] self.lists@[j]@.len()
                    > 0 && no_repeats(self.lists@[j]@) by {
                    if j < i {
                        assert(self.lists@[j] == old(self).lists@[j]);
                    } else if j > i {
                        assert(self.lists@[j] == old(self).lists@[j - 1]);
                    }
                }
            }
        }
    }

    pub fn contains(&self, key: &IndexKey) -> (r: bool)
        requires
            self.wf(),
        ensures
            r == self@.contains_key(key@),
    {
        self.find(key).is_some()
    }

    pub fn clear(&mut self)
        ensures
            final(self).wf(),
            final(self)@ == Map::<KeyView, Seq<usize>>::empty(),
    {
        self.keys.clear();
        self.lists.clear();
        assert(self@ =~= Map::<KeyView, Seq<usize>>::empty());
    }

    /// The rows of `key`, if it has any.
    pub fn get_indices(&self, key: &IndexKey) -> (r: Option<&[usize]>)
        requires
            self.wf(),
        ensures
            r is Some <==> self@.contains_key(key@),
            r matches Some(s) ==> s@ == self@[key@],
    {
        match self.find(key) {
            Some(i) => {
                proof {
                    lemma_place(key_views(self.keys@), i as int);
                }
                Some(self.lists[i].as_slice())
            },
            None => None,
        }
    }

    /// Drops `row_idx` from the rows of `key`, and the key when no row is left.
    pub fn remove(&mut self, key: &IndexKey, row_idx: usize)
        requires
            old(self).wf(),
        ensures
            final(self).wf(),
            final(self)@ == if !old(self)@.contains_key(key@) {
                old(self)@
            } else if without(old(self)@[key@], row_idx).len() == 0 {
                old(self)@.remove(key@)
            } else {
                old(self)@.insert(key@, without(old(self)@[key@], row_idx))
            },
    {
        let ghost old_km = key_views(self.keys@);
        let ghost old_lm = row_lists(self.lists@);
        match self.find(key) {
            None => {},
            Some(i) => {
                proof {
                    assert(old_km[i as int] == key@);
                    lemma_place(old_km, i as int);
                }
                let kept = retain_other(self.lists[i].as_slice(), row_idx);
                if kept.len() == 0 {
                    self.keys.remove(i);
                    self.lists.remove(i);
                    proof {
                        let km = key_views(self.keys@);
                        let lm = row_lists(self.lists@);
                        assert(km =~= old_km.remove(i as int));
                        assert(lm =~= old_lm.remove(i as int));
                        lemma_key_map_remove(old_km, old_lm, i as int);
                        assert forall|j: int| 0 <= j < self.lists@.len() implies #[trigger] self.lists@[j]@.len()
                            > 0 && no_repeats(self.lists@[j]@) by {
                            if j < i {
                                assert(self.lists@[j] == old(self).lists@[j]);
                            } else {
                                assert(self.lists@[j] == old(self).lists@[j + 1]);
                            }
                        }
                    }
                } else {
                    proof {
                        lemma_without_no_repeats(old_lm[i as int], row_idx);
                    }
                    self.lists.set(i, kept);
                    proof {
                        let km = key_views(self.keys@);
                        let lm = row_lists(self.lists@);
                        assert(km =~= old_km);
                        let nl = without(old_lm[i as int], row_idx);
                        assert(lm =~= old_lm.update(i as int, nl));
                        lemma_key_map_update(old_km, old_lm, i as int, nl);
                        assert forall|j: int| 0 <= j < self.lists@.len() implies #[trigger] self.lists@[j]@.len()
                            > 0 && no_repeats(self.lists@[j]@) by {
                            if j != i {
                                assert(self.lists@[j] == old(self).lists@[j]);
                            }
                        }
                    }
                }
            },
        }
    }
}

/// Dropping the occurrences of a value keeps a list free of repeats, and
/// keeps only what was there.
proof fn lemma_without_no_repeats(s: Seq<usize>, x: usize)
    requires
        no_repeats(s),
    ensures
        no_repeats(without(s, x)),
        forall|v: usize| #[trigger] without(s, x).contains(v) ==> s.contains(v) && v != x,
    decreases s.len(),
{
    if s.len() > 0 {
        let p = s.drop_last();
        lemma_without_no_repeats(p, x);
        let w = without(p, x);
        assert forall|v: usize| without(s, x).contains(v) implies s.contains(v) && v != x by {
            let j = choose|j: int| 0 <= j < without(s, x).len() && without(s, x)[j] == v;
            if j < w.len() {
                if s.last() == x {
                    assert(without(s, x) == w);
                } else {
                    assert(without(s, x) == w.push(s.last()));
                }
                assert(w[j] == v);
                assert(w.contains(v));
                let q = choose|q: int| 0 <= q < p.len() && p[q] == v;
                assert(s[q] == v);
            } else {
                assert(s[s.len() - 1] == v);
            }
        }
        if s.last() != x {
            assert forall|a: int, b: int|
                0 <= a < b < without(s, x).len() implies without(s, x)[a] != without(s, x)[b] by {
                if b == w.len() {
                    assert(without(s, x)[a] == w[a]);
                    assert(w.contains(w[a]));
                    let q = choose|q: int| 0 <= q < p.len() && p[q] == w[a];
                    assert(s[q] == p[q]);
                }
            }
        }
    }
}

/// Whether `x` is in `s`.
fn contains_row(s: &[usize], x: usize) -> (r: bool)
    ensures
        r == s@.contains(x),
{
    let mut i: usize = 0;
    while i < s.len()
        invariant
            i <= s@.len(),
            forall|j: int| 0 <= j < i ==> s@[j] != x,
        decreases s@.len() - i,
    {
        if s[i] == x {
            return true;
        }
        i = i + 1;
    }
    false
}

} // verus!
