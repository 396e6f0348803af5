use crate::engine::page::{
    header_bytes, lemma_parsed_page, lemma_parts_roundtrip, parse_page, stored_page, zero_body, Page, PageHeader, PageType,
    INITIAL_FREE_SPACE_OFFSET, PAGE_BODY_SIZE,
};
use crate::engine::pager::{fresh_page_bytes, Pager};
use crate::error::{DbError, ErrorKind};
use vstd::prelude::*;

verus! {

/// What the cache holds for one page.
pub struct CachedPage {
    pub header: PageHeader,
    pub data: Seq<u8>,
    pub dirty: bool,
    pub pin_count: u32,
    pub last_used: u64,
}

/// A cache of pages in front of a [`Pager`].
///
/// A page is read into the cache on first use and stays there, pinned while
/// in use, until it is evicted to make room: the unpinned page used longest
/// ago leaves first, and is written back first if it was changed.
#[derive(Debug)]
pub struct BufferPool {
    pager: Pager,
    capacity: usize,
    ids: Vec<u32>,
    pages: Vec<Page>,
    dirty: Vec<bool>,
    pins: Vec<u32>,
    used: Vec<u64>,
    clock: u64,
}

impl BufferPool {
    /// The pages of the file as the pager holds them.
    pub closed spec fn disk(&self) -> Seq<Seq<u8>> {
        self.pager@
    }

    pub closed spec fn capacity_spec(&self) -> nat {
        self.capacity as nat
    }

    /// The logical clock that orders page uses.
    pub closed spec fn clock_spec(&self) -> u64 {
        self.clock
    }

    closed spec fn entry_at(&self, i: int) -> CachedPage {
        CachedPage {
            header: self.pages@[i].header,
            data: self.pages@[i].data@,
            dirty: self.dirty@[i],
            pin_count: self.pins@[i],
            last_used: self.used@[i],
        }
    }

    closed spec fn slot_of(&self, id: u32) -> int {
        choose|i: int| 0 <= i < self.ids@.len() && self.ids@[i] == id
    }

    /// The cached pages by id.
    pub closed spec fn cache(&self) -> Map<u32, CachedPage> {
        Map::new(
            |id: u32| self.ids@.contains(id),
            |id: u32| self.entry_at(self.slot_of(id)),
        )
    }

    pub closed spec fn wf(&self) -> bool {
        &&& self.pager.wf()
        &&& self.capacity > 0
        &&& self.ids@.len() <= self.capacity
        &&& self.pages@.len() == self.ids@.len()
        &&& self.dirty@.len() == self.ids@.len()
        &&& self.pins@.len() == self.ids@.len()
        &&& self.used@.len() == self.ids@.len()
        &&& self.ids@.no_duplicates()
        &&& forall|i: int| 0 <= i < self.ids@.len() ==> (#[trigger] self.pages@[i]).wf()
        &&& forall|i: int| 0 <= i < self.ids@.len() ==> #[trigger] self.ids@[i] < self.pager@.len()
    }

    /// The content of a page as a reader sees it: the cached copy if there
    /// is one, else what the file holds.
    pub open spec fn content(&self, id: u32) -> Option<(PageHeader, Seq<u8>)> {
        content_of(self.cache(), self.disk(), id)
    }

    /// See [`coherent_of`].
    pub open spec fn coherent(&self) -> bool {
        coherent_of(self.cache(), self.disk())
    }

    /// A read can go ahead: no cached page's pin count is at its limit, and
    /// the cache has a free slot or a page that is not pinned.
    pub open spec fn roomy(&self) -> bool {
        &&& forall|id: u32| #[trigger] self.cache().contains_key(id) ==> self.cache()[id].pin_count < u32::MAX
        &&& (self.cache().len() < self.capacity_spec() || self.has_unpinned())
    }

    /// The pool can serve reads of `ticks` clock steps: it is coherent, a
    /// read can go ahead, and the clock can advance that far. Pages pinned
    /// elsewhere, and pages of the file that do not read back, are allowed.
    pub open spec fn can_read(&self, ticks: int) -> bool {
        &&& self.coherent()
        &&& self.roomy()
        &&& self.clock_spec() + ticks <= u64::MAX
    }

    /// A pool that can serve work can serve reads.
    pub proof fn lemma_can_run_read(&self, ticks: int)
        requires
            self.wf(),
            self.can_run(ticks),
        ensures
            self.can_read(ticks),
    {
        self.lemma_full_has_unpinned();
    }

    /// Every page of the file can be read.
    pub open spec fn readable(&self) -> bool {
        forall|x: u32| x < self.disk().len() ==> #[trigger] self.content(x) is Some
    }

    /// No cached page is pinned.
    pub open spec fn idle(&self) -> bool {
        forall|id: u32| #[trigger] self.cache().contains_key(id) ==> self.cache()[id].pin_count == 0
    }

    /// The pool can serve work of `ticks` clock steps: it is coherent, no
    /// page is pinned, and the clock can advance that far.
    pub open spec fn can_run(&self, ticks: int) -> bool {
        &&& self.coherent()
        &&& self.idle()
        &&& self.clock_spec() + ticks <= u64::MAX
    }

    proof fn lemma_slot(&self, i: int)
        requires
            self.wf(),
            0 <= i < self.ids@.len(),
        ensures
            self.slot_of(self.ids@[i]) == i,
            self.cache().contains_key(self.ids@[i]),
            self.cache()[self.ids@[i]] == self.entry_at(i),
    {
        let id = self.ids@[i];
        assert(self.ids@.contains(id));
        let j = self.slot_of(id);
        assert(0 <= j < self.ids@.len() && self.ids@[j] == id);
    }

    /// A pool over the given pager holding at most `capacity` pages; a
    /// capacity of zero is an invalid operation.
    pub fn new(pager: Pager, capacity: usize) -> (r: Result<Self, DbError>)
        requires
            pager.wf(),
        ensures
            r is Ok <==> capacity > 0,
            r matches Ok(p) ==> p.wf() && p.disk() == pager@ && p.cache() == Map::<
                u32,
                CachedPage,
            >::empty() && p.capacity_spec() == capacity && p.clock_spec() == 0,
            r matches Err(e) ==> e.kind() == ErrorKind::InvalidOperation,
    {
        if capacity == 0 {
            return Err(DbError::invalid_operation("buffer pool capacity must be greater than zero"));
        }
        let p = BufferPool {
            pager,
            capacity,
            ids: Vec::new(),
            pages: Vec::new(),
            dirty: Vec::new(),
            pins: Vec::new(),
            used: Vec::new(),
            clock: 0,
        };
        assert(p.cache() =~= Map::<u32, CachedPage>::empty());
        Ok(p)
    }

    /// How many pages the file holds.
    pub fn page_count(&self) -> (r: u32)
        requires
            self.wf(),
        ensures
            r == self.disk().len(),
    {
        self.pager.page_count()
    }

    /// How many pages are cached.
    pub fn cached_count(&self) -> (r: usize)
        requires
            self.wf(),
        ensures
            r == self.cache().len(),
    {
        proof {
            self.lemma_cache_len();
        }
        self.ids.len()
    }

    /// The ids of the cached pages marked changed.
    pub fn dirty_ids(&self) -> (r: Vec<u32>)
        requires
            self.wf(),
        ensures
            forall|id: u32| r@.contains(id) <==> (self.cache().contains_key(id) && self.cache()[id].dirty),
            r@.no_duplicates(),
            r@.len() <= self.cache().len(),
    {
        proof {
            self.lemma_cache_len();
        }
        let mut out: Vec<u32> = Vec::new();
        let mut i: usize = 0;
        while i < self.ids.len()
            invariant
                self.wf(),
                i <= self.ids@.len(),
                out@.len() <= i,
                out@.no_duplicates(),
                forall|id: u32| out@.contains(id) <==> exists|k: int| 0 <= k < i && self.ids@[k] == id && self.dirty@[k],
            decreases self.ids@.len() - i,
        {
            if self.dirty[i] {
                let ghost before = out@;
                proof {
                    if before.contains(self.ids@[i as int]) {
                        let k = choose|k: int| 0 <= k < i && self.ids@[k] == self.ids@[i as int] && self.dirty@[k];
                        assert(self.ids@.no_duplicates());
                    }
                }
                out.push(self.ids[i]);
                proof {
                    assert forall|a: int, b: int| 0 <= a < b < out@.len() implies out@[a] != out@[b] by {
                        if b == out@.len() - 1 {
                            assert(out@[a] == before[a]);
                            assert(before.contains(before[a]));
                        }
                    }
                }
                proof {
                    assert forall|id: u32| out@.contains(id) <==> exists|k: int| 0 <= k < i + 1 && self.ids@[k] == id && self.dirty@[k] by {
                        if out@.contains(id) && id != self.ids@[i as int] {
                            let j = choose|j: int| 0 <= j < out@.len() && out@[j] == id;
                            assert(before.contains(id)) by {
                                assert(before[j] == id);
                            }
                        }
                        if id == self.ids@[i as int] {
                            assert(out@[out@.len() - 1] == id);
                        }
                        if before.contains(id) {
                            let j = choose|j: int| 0 <= j < before.len() && before[j] == id;
                            assert(out@[j] == id);
                        }
                    }
                }
            } else {
                proof {
                    assert forall|id: u32| out@.contains(id) <==> exists|k: int| 0 <= k < i + 1 && self.ids@[k] == id && self.dirty@[k] by {
                        if exists|k: int| 0 <= k < i + 1 && self.ids@[k] == id && self.dirty@[k] {
                            let k = choose|k: int| 0 <= k < i + 1 && self.ids@[k] == id && self.dirty@[k];
                            assert(k != i);
                        }
                    }
                }
            }
            i = i + 1;
        }
        proof {
            assert forall|id: u32| out@.contains(id) <==> (self.cache().contains_key(id) && self.cache()[id].dirty) by {
                if self.cache().contains_key(id) {
                    let k = self.slot_of(id);
                    self.lemma_slot(k);
                }
                if out@.contains(id) {
                    let k = choose|k: int| 0 <= k < self.ids@.len() && self.ids@[k] == id && self.dirty@[k];
                    self.lemma_slot(k);
                }
            }
        }
        out
    }

    /// Whether the page is cached.
    pub fn is_cached(&self, page_id: u32) -> (r: bool)
        requires
            self.wf(),
        ensures
            r == self.cache().contains_key(page_id),
    {
        self.find(page_id).is_some()
    }

    /// The pager, for storing its bytes.
    pub fn pager(&self) -> (r: &Pager)
        ensures
            r@ == self.disk(),
            self.wf() ==> r.wf(),
    {
        &self.pager
    }

    /// The cache holds no more pages than its capacity.
    pub proof fn lemma_cache_bound(&self)
        requires
            self.wf(),
        ensures
            self.cache().len() <= self.capacity_spec(),
    {
        self.lemma_cache_len();
    }

    proof fn lemma_cache_len(&self)
        requires
            self.wf(),
        ensures
            self.cache().len() == self.ids@.len(),
            self.cache().dom() == self.ids@.to_set(),
    {
        assert(self.cache().dom() =~= self.ids@.to_set());
        self.ids@.unique_seq_to_set();
    }

    fn find(&self, page_id: u32) -> (r: Option<usize>)
        requires
            self.wf(),
        ensures
            r is Some <==> self.cache().contains_key(page_id),
            r matches Some(i) ==> i < self.ids@.len() && self.ids@[i as int] == page_id,
    {
        let mut i: usize = 0;
        while i < self.ids.len()
            invariant
                i <= self.ids@.len(),
                forall|k: int| 0 <= k < i ==> self.ids@[k] != page_id,
            decreases self.ids@.len() - i,
        {
            if self.ids[i] == page_id {
                return Some(i);
            }
            i = i + 1;
        }
        None
    }

    fn next_clock(&mut self) -> (r: Result<u64, DbError>)
        ensures
            r is Ok <==> old(self).clock < u64::MAX,
            r matches Ok(c) ==> c == old(self).clock + 1 && final(self).clock == c,
            r is Err ==> final(self).clock == old(self).clock,
            r matches Err(e) ==> e.kind() == ErrorKind::InvalidOperation,
            final(self).pager == old(self).pager,
            final(self).capacity == old(self).capacity,
            final(self).ids == old(self).ids,
            final(self).pages == old(self).pages,
            final(self).dirty == old(self).dirty,
            final(self).pins == old(self).pins,
            final(self).used == old(self).used,
    {
        if self.clock == u64::MAX {
            return Err(DbError::invalid_operation("clock overflow"));
        }
        self.clock = self.clock + 1;
        Ok(self.clock)
    }
}


proof fn lemma_cache_set(a: BufferPool, b: BufferPool, i: int)
    requires
        a.wf(),
        b.wf(),
        b.ids@ == a.ids@,
        0 <= i < a.ids@.len(),
        forall|k: int| 0 <= k < a.ids@.len() && k != i ==> b.entry_at(k) == a.entry_at(k),
    ensures
        b.cache() == a.cache().insert(a.ids@[i], b.entry_at(i)),
{
    assert forall|id: u32| #[trigger] b.cache().contains_key(id) implies b.cache()[id]
        == a.cache().insert(a.ids@[i], b.entry_at(i))[id] by {
        let k = b.slot_of(id);
        b.lemma_slot(k);
        a.lemma_slot(k);
    }
    assert(b.cache() =~= a.cache().insert(a.ids@[i], b.entry_at(i)));
}

proof fn lemma_cache_push(a: BufferPool, b: BufferPool, id: u32)
    requires
        a.wf(),
        b.wf(),
        b.ids@ == a.ids@.push(id),
        forall|k: int| 0 <= k < a.ids@.len() ==> b.entry_at(k) == a.entry_at(k),
    ensures
        b.cache() == a.cache().insert(id, b.entry_at(a.ids@.len() as int)),
{
    b.lemma_slot(a.ids@.len() as int);
    assert forall|x: u32| #[trigger] b.cache().contains_key(x) implies b.cache()[x]
        == a.cache().insert(id, b.entry_at(a.ids@.len() as int))[x] by {
        let k = b.slot_of(x);
        b.lemma_slot(k);
        if k < a.ids@.len() {
            a.lemma_slot(k);
        }
    }
    assert forall|x: u32| #[trigger] a.cache().insert(id, b.entry_at(a.ids@.len() as int)).contains_key(x)
        implies b.cache().contains_key(x) by {
        if x != id {
            let k = a.slot_of(x);
            a.lemma_slot(k);
            assert(b.ids@[k] == x);
        }
    }
    assert(b.cache() =~= a.cache().insert(id, b.entry_at(a.ids@.len() as int)));
}

proof fn lemma_cache_remove(a: BufferPool, b: BufferPool, i: int)
    requires
        a.wf(),
        b.wf(),
        0 <= i < a.ids@.len(),
        b.ids@ == a.ids@.remove(i),
        forall|k: int| 0 <= k < b.ids@.len() ==> b.entry_at(k) == a.entry_at(if k < i { k } else { k + 1 }),
    ensures
        b.cache() == a.cache().remove(a.ids@[i]),
{
    assert forall|x: u32| #[trigger] b.cache().contains_key(x) implies b.cache()[x]
        == a.cache().remove(a.ids@[i])[x] && a.cache().remove(a.ids@[i]).contains_key(x) by {
        let k = b.slot_of(x);
        b.lemma_slot(k);
        let j = if k < i { k } else { k + 1 };
        a.lemma_slot(j);
    }
    assert forall|x: u32| #[trigger] a.cache().remove(a.ids@[i]).contains_key(x)
        implies b.cache().contains_key(x) by {
        let j = a.slot_of(x);
        a.lemma_slot(j);
        if j < i {
            assert(b.ids@[j] == x);
        } else {
            assert(j != i);
            assert(b.ids@[j - 1] == x);
        }
    }
    assert(b.cache() =~= a.cache().remove(a.ids@[i]));
}

impl BufferPool {
    fn page_mut(&mut self, i: usize) -> (r: &mut Page)
        requires
            i < old(self).pages@.len(),
        ensures
            *r == old(self).pages@[i as int],
            final(self).pages@ == old(self).pages@.update(i as int, *final(r)),
            final(self).pager == old(self).pager,
            final(self).capacity == old(self).capacity,
            final(self).ids == old(self).ids,
            final(self).dirty == old(self).dirty,
            final(self).pins == old(self).pins,
            final(self).used == old(self).used,
            final(self).clock == old(self).clock,
    {
        &mut self.pages[i]
    }

    fn entry_page_mut(&mut self, i: usize) -> (r: &mut Page)
        requires
            old(self).wf(),
            i < old(self).ids@.len(),
        ensures
            *r == old(self).pages@[i as int],
            final(r).wf() ==> final(self).wf(),
            final(self).pager == old(self).pager,
            final(self).capacity == old(self).capacity,
            final(self).clock == old(self).clock,
            final(self).cache() == old(self).cache().insert(
                old(self).ids@[i as int],
                CachedPage {
                    header: final(r).header,
                    data: final(r).data@,
                    ..old(self).cache()[old(self).ids@[i as int]]
                },
            ),
    {
        proof {
            old(self).lemma_slot(i as int);
        }
        self.page_mut(i)
    }

    /// Releases one pin of a cached page, and marks it changed if `dirty`.
    /// A page that is not cached, or not pinned, is an invalid operation, as
    /// is a clock that cannot advance.
    pub fn unpin_page(&mut self, page_id: u32, dirty: bool) -> (r: Result<(), DbError>)
        requires
            old(self).wf(),
        ensures
            old(self).clock_spec() <= final(self).clock_spec() <= old(self).clock_spec() + 1,
            final(self).wf(),
            final(self).disk() == old(self).disk(),
            final(self).capacity_spec() == old(self).capacity_spec(),
            r is Ok <==> (old(self).clock_spec() < u64::MAX && old(self).cache().contains_key(page_id)
                && old(self).cache()[page_id].pin_count > 0),
            r is Ok ==> final(self).clock_spec() == old(self).clock_spec() + 1 && final(self).cache()
                == old(self).cache().insert(
                page_id,
                CachedPage {
                    pin_count: (old(self).cache()[page_id].pin_count - 1) as u32,
                    dirty: old(self).cache()[page_id].dirty || dirty,
                    last_used: final(self).clock_spec(),
                    ..old(self).cache()[page_id]
                },
            ),
            r is Err ==> final(self).cache() == old(self).cache(),
            r matches Err(e) ==> e.kind() == ErrorKind::InvalidOperation,
    {
        let clock = self.next_clock()?;
        let ghost a = *self;
        let i = match self.find(page_id) {
            Some(i) => i,
            None => {
                return Err(DbError::invalid_operation("page not in buffer"));
            },
        };
        proof {
            a.lemma_slot(i as int);
        }
        if self.pins[i] == 0 {
            return Err(DbError::invalid_operation("cannot unpin a page with zero pin count"));
        }
        let p = self.pins[i] - 1;
        self.pins.set(i, p);
        if dirty {
            self.dirty.set(i, true);
        }
        self.used.set(i, clock);
        proof {
            lemma_cache_set(a, *self, i as int);
        }
        Ok(())
    }

    /// Marks a cached page changed. A page that is not cached is an invalid
    /// operation, as is a clock that cannot advance.
    pub fn mark_dirty(&mut self, page_id: u32) -> (r: Result<(), DbError>)
        requires
            old(self).wf(),
        ensures
            old(self).clock_spec() <= final(self).clock_spec() <= old(self).clock_spec() + 1,
            final(self).wf(),
            final(self).disk() == old(self).disk(),
            final(self).capacity_spec() == old(self).capacity_spec(),
            r is Ok <==> (old(self).clock_spec() < u64::MAX && old(self).cache().contains_key(
                page_id,
            )),
            r is Ok ==> final(self).clock_spec() == old(self).clock_spec() + 1 && final(self).cache()
                == old(self).cache().insert(
                page_id,
                CachedPage {
                    dirty: true,
                    last_used: final(self).clock_spec(),
                    ..old(self).cache()[page_id]
                },
            ),
            r is Err ==> final(self).cache() == old(self).cache(),
            r matches Err(e) ==> e.kind() == ErrorKind::InvalidOperation,
    {
        let clock = self.next_clock()?;
        let ghost a = *self;
        let i = match self.find(page_id) {
            Some(i) => i,
            None => {
                return Err(DbError::invalid_operation("page not in buffer"));
            },
        };
        proof {
            a.lemma_slot(i as int);
        }
        self.dirty.set(i, true);
        self.used.set(i, clock);
        proof {
            lemma_cache_set(a, *self, i as int);
        }
        Ok(())
    }

    /// Writes a cached page back to the file if it was changed, at the id
    /// its header holds, and marks it unchanged. A page that is not cached is
    /// an invalid operation, as is a clock that cannot advance or a header id
    /// past the end of the file.
    pub fn flush_page(&mut self, page_id: u32) -> (r: Result<(), DbError>)
        requires
            old(self).wf(),
        ensures
            old(self).clock_spec() <= final(self).clock_spec() <= old(self).clock_spec() + 1,
            final(self).wf(),
            final(self).capacity_spec() == old(self).capacity_spec(),
            r is Ok <==> (old(self).clock_spec() < u64::MAX && old(self).cache().contains_key(page_id)
                && (old(self).cache()[page_id].dirty ==> old(self).cache()[page_id].header.page_id
                < old(self).disk().len())),
            r is Ok ==> final(self).clock_spec() == old(self).clock_spec() + 1,
            r is Ok ==> final(self).disk() == old(self).flushed_disk(page_id),
            r is Ok ==> final(self).cache() == (if old(self).cache()[page_id].dirty {
                old(self).cache().insert(
                    page_id,
                    CachedPage {
                        dirty: false,
                        last_used: final(self).clock_spec(),
                        ..old(self).cache()[page_id]
                    },
                )
            } else {
                old(self).cache()
            }),
            r is Err ==> final(self).cache() == old(self).cache() && final(self).disk() == old(
                self,
            ).disk(),
            r matches Err(e) ==> e.kind() == ErrorKind::InvalidOperation,
            old(self).coherent() ==> final(self).coherent() && forall|id: u32|
                #[trigger] final(self).content(id) == old(self).content(id),
            r is Ok ==> !final(self).cache()[page_id].dirty,
    {
        let clock = self.next_clock()?;
        let ghost a = *self;
        let i = match self.find(page_id) {
            Some(i) => i,
            None => {
                return Err(DbError::invalid_operation("page not in buffer"));
            },
        };
        proof {
            a.lemma_slot(i as int);
        }
        if self.dirty[i] {
            self.pager.write_page(&self.pages[i])?;
            self.dirty.set(i, false);
            self.used.set(i, clock);
            proof {
                lemma_cache_set(a, *self, i as int);
            }
        }
        proof {
            if a.coherent() {
                lemma_flush_keeps(a, *self, page_id, clock);
            }
        }
        Ok(())
    }

    /// What the file holds once the given cached page is written back, if
    /// it was changed.
    pub open spec fn flushed_disk(&self, page_id: u32) -> Seq<Seq<u8>> {
        flush_into(self.disk(), self.cache()[page_id])
    }

    /// The page may leave the cache: it is cached, not pinned, and no
    /// unpinned page was used longer ago.
    pub open spec fn is_victim(&self, v: u32) -> bool {
        &&& self.cache().contains_key(v)
        &&& self.cache()[v].pin_count == 0
        &&& forall|u: u32|
            #[trigger] self.cache().contains_key(u) && self.cache()[u].pin_count == 0
                ==> self.cache()[v].last_used <= self.cache()[u].last_used
    }

    /// Some cached page is not pinned.
    pub open spec fn has_unpinned(&self) -> bool {
        exists|u: u32| #[trigger] self.cache().contains_key(u) && self.cache()[u].pin_count == 0
    }

    /// `m` and `d` are the cache and the file after making room: either
    /// nothing left, or a victim left and was written over `base` if changed.
    pub open spec fn kept_or_evicted(
        &self,
        base: Seq<Seq<u8>>,
        m: Map<u32, CachedPage>,
        d: Seq<Seq<u8>>,
    ) -> bool {
        ||| (m == self.cache() && d == base)
        ||| exists|v: u32|
            #![trigger self.cache().remove(v)]
            self.is_victim(v) && m == self.cache().remove(v) && d == flush_into(base, self.cache()[v])
    }

    /// Evicts the unpinned page used longest ago, writing it back first if
    /// it was changed. With no unpinned page this is an invalid operation, as
    /// is a failed write-back.
    pub fn evict_one(&mut self) -> (r: Result<(), DbError>)
        requires
            old(self).wf(),
        ensures
            final(self).wf(),
            final(self).capacity_spec() == old(self).capacity_spec(),
            final(self).disk().len() == old(self).disk().len(),
            old(self).clock_spec() <= final(self).clock_spec() <= old(self).clock_spec() + 1,
            r is Ok ==> exists|v: u32|
                #![trigger old(self).cache().remove(v)]
                old(self).is_victim(v) && final(self).cache() == old(self).cache().remove(v)
                    && final(self).disk() == old(self).flushed_disk(v),
            r is Ok ==> final(self).cache().len() + 1 == old(self).cache().len(),
            !old(self).has_unpinned() ==> r is Err,
            (old(self).has_unpinned() && old(self).coherent() && old(self).clock_spec() < u64::MAX)
                ==> r is Ok,
            r is Err ==> final(self).cache() == old(self).cache() && final(self).disk() == old(
                self,
            ).disk(),
            r matches Err(e) ==> e.kind() == ErrorKind::InvalidOperation,
            old(self).coherent() ==> final(self).coherent() && forall|id: u32|
                #[trigger] final(self).content(id) == old(self).content(id),
    {
        let ghost a = *self;
        let mut cand: Option<usize> = None;
        let mut i: usize = 0;
        while i < self.ids.len()
            invariant
                self.wf(),
                *self == a,
                i <= self.ids@.len(),
                cand is None ==> forall|k: int| 0 <= k < i ==> self.pins@[k] != 0,
                cand matches Some(c) ==> c < i && self.pins@[c as int] == 0 && forall|k: int|
                    0 <= k < i && self.pins@[k] == 0 ==> self.used@[c as int] <= self.used@[k],
            decreases self.ids@.len() - i,
        {
            if self.pins[i] == 0 {
                match cand {
                    None => {
                        cand = Some(i);
                    },
                    Some(c) => {
                        if self.used[i] < self.used[c] {
                            cand = Some(i);
                        }
                    },
                }
            }
            i = i + 1;
        }
        let c = match cand {
            Some(c) => c,
            None => {
                proof {
                    if a.has_unpinned() {
                        let u = choose|u: u32|
                            #[trigger] a.cache().contains_key(u) && a.cache()[u].pin_count == 0;
                        let k = a.slot_of(u);
                        a.lemma_slot(k);
                    }
                }
                return Err(DbError::invalid_operation("no unpinned page to evict"));
            },
        };
        let v = self.ids[c];
        proof {
            a.lemma_slot(c as int);
            assert forall|u: u32|
                #[trigger] a.cache().contains_key(u) && a.cache()[u].pin_count == 0 implies a.cache()[v].last_used
                <= a.cache()[u].last_used by {
                let k = a.slot_of(u);
                a.lemma_slot(k);
            }
            assert(a.is_victim(v));
        }
        if self.dirty[c] {
            proof {
                if a.coherent() {
                    assert(a.cache().contains_key(v));
                }
            }
            let clock = self.next_clock()?;
            self.pager.write_page(&self.pages[c])?;
            self.dirty.set(c, false);
            self.used.set(c, clock);
        }
        let ghost b = *self;
        self.ids.remove(c);
        self.pages.remove(c);
        self.dirty.remove(c);
        self.pins.remove(c);
        self.used.remove(c);
        proof {
            assert forall|k: int| 0 <= k < self.ids@.len() implies #[trigger] self.ids@[k] < self.pager@.len() by {
                let j = if k < c { k } else { k + 1 };
                assert(self.ids@[k] == b.ids@[j]);
            }
            assert forall|k: int| 0 <= k < self.ids@.len() implies (#[trigger] self.pages@[k]).wf() by {
                let j = if k < c { k } else { k + 1 };
                assert(self.pages@[k] == b.pages@[j]);
            }
            assert forall|k: int| 0 <= k < self.ids@.len() implies self.entry_at(k) == a.entry_at(
                if k < c { k } else { k + 1 },
            ) by {
                let j = if k < c { k } else { k + 1 };
                assert(self.pages@[k] == b.pages@[j]);
                assert(self.used@[k] == b.used@[j]);
                assert(self.dirty@[k] == b.dirty@[j]);
                assert(self.pins@[k] == b.pins@[j]);
            }
            assert(self.ids@.no_duplicates()) by {
                assert forall|x: int, y: int| 0 <= x < y < self.ids@.len() implies self.ids@[x] != self.ids@[y] by {
                    let jx = if x < c { x } else { x + 1 };
                    let jy = if y < c { y } else { y + 1 };
                    assert(self.ids@[x] == b.ids@[jx]);
                    assert(self.ids@[y] == b.ids@[jy]);
                }
            }
            lemma_cache_remove(a, *self, c as int);
            a.lemma_cache_len();
            self.lemma_cache_len();
            if a.coherent() {
                lemma_evict_keeps(a, *self, v);
            }
        }
        Ok(())
    }
}

impl BufferPool {
    fn push_entry(&mut self, page_id: u32, page: Page, pin_count: u32, clock: u64)
        requires
            old(self).wf(),
            old(self).ids@.len() < old(self).capacity,
            !old(self).ids@.contains(page_id),
            page_id < old(self).pager@.len(),
            page.wf(),
        ensures
            final(self).wf(),
            final(self).ids@ == old(self).ids@.push(page_id),
            final(self).pager == old(self).pager,
            final(self).clock == old(self).clock,
            final(self).capacity == old(self).capacity,
            final(self).cache() == old(self).cache().insert(
                page_id,
                CachedPage {
                    header: page.header,
                    data: page.data@,
                    dirty: false,
                    pin_count,
                    last_used: clock,
                },
            ),
            final(self).pages@.last() == page,
    {
        let ghost a = *self;
        self.ids.push(page_id);
        self.pages.push(page);
        self.dirty.push(false);
        self.pins.push(pin_count);
        self.used.push(clock);
        proof {
            assert forall|k: int| 0 <= k < a.ids@.len() implies self.entry_at(k) == a.entry_at(k) by {}
            assert forall|x: int, y: int| 0 <= x < y < self.ids@.len() implies self.ids@[x] != self.ids@[y] by {
                if y == a.ids@.len() {
                    assert(a.ids@.contains(a.ids@[x]));
                }
            }
            assert forall|k: int| 0 <= k < self.ids@.len() implies (#[trigger] self.pages@[k]).wf() by {}
            assert forall|k: int| 0 <= k < self.ids@.len() implies #[trigger] self.ids@[k] < self.pager@.len() by {}
            lemma_cache_push(a, *self, page_id);
        }
    }

    /// Pins a page and gives access to it, reading it into the cache if it
    /// is not there. Reading it in first makes room if the cache is full (see
    /// [`BufferPool::evict_one`]). A page id past the end of the file, a page
    /// that cannot be read back, no room, a pin count or a clock that cannot
    /// grow are errors, the first and the last three invalid operations.
    pub fn get_page(&mut self, page_id: u32) -> (r: Result<&mut Page, DbError>)
        requires
            old(self).wf(),
        ensures
            final(self).capacity_spec() == old(self).capacity_spec(),
            final(self).disk().len() == old(self).disk().len(),
            old(self).clock_spec() <= final(self).clock_spec() <= old(self).clock_spec() + 2,
            r matches Err(e) ==> e.kind() == ErrorKind::InvalidOperation || e.kind() == ErrorKind::Corruption,
            r matches Ok(p) ==> p.wf() && old(self).content(page_id) == Some((p.header, p.data@)),
            r matches Ok(p) ==> (final(p).wf() ==> final(self).wf()),
            r matches Ok(p) ==> final(self).clock_spec() > old(self).clock_spec(),
            r matches Ok(p) ==> (if old(self).cache().contains_key(page_id) {
                &&& final(self).disk() == old(self).disk()
                &&& final(self).cache() == old(self).cache().insert(
                    page_id,
                    CachedPage {
                        header: final(p).header,
                        data: final(p).data@,
                        pin_count: (old(self).cache()[page_id].pin_count + 1) as u32,
                        last_used: final(self).clock_spec(),
                        ..old(self).cache()[page_id]
                    },
                )
            } else {
                exists|m: Map<u32, CachedPage>, d: Seq<Seq<u8>>|
                    #![trigger old(self).kept_or_evicted(old(self).disk(), m, d)]
                    old(self).kept_or_evicted(old(self).disk(), m, d) && final(self).disk() == d
                        && final(self).cache() == m.insert(
                        page_id,
                        CachedPage {
                            header: final(p).header,
                            data: final(p).data@,
                            dirty: false,
                            pin_count: 1,
                            last_used: final(self).clock_spec(),
                        },
                    )
            }),
            old(self).cache().contains_key(page_id) ==> (r is Ok <==> (old(self).clock_spec()
                < u64::MAX && old(self).cache()[page_id].pin_count < u32::MAX)),
            !old(self).cache().contains_key(page_id) ==> (r is Ok ==> old(self).content(page_id) is Some),
            (!old(self).cache().contains_key(page_id) && old(self).content(page_id) is Some
                && old(self).clock_spec() < u64::MAX - 1 && (old(self).cache().len()
                < old(self).capacity_spec() || (old(self).has_unpinned() && old(self).coherent())))
                ==> r is Ok,
            r is Err ==> final(self).wf() && exists|m: Map<u32, CachedPage>, d: Seq<Seq<u8>>|
                #![trigger old(self).kept_or_evicted(old(self).disk(), m, d)]
                old(self).kept_or_evicted(old(self).disk(), m, d) && final(self).disk() == d
                    && final(self).cache() == m,
    {
        let ghost a = *self;
        match self.find(page_id) {
            Some(i) => {
                proof {
                    a.lemma_slot(i as int);
                }
                let clock = match self.next_clock() {
                    Ok(c) => c,
                    Err(e) => {
                        proof {
                            assert(self.cache() == a.cache());
                            assert(a.kept_or_evicted(a.disk(), self.cache(), self.disk()));
                        }
                        return Err(e);
                    },
                };
                if self.pins[i] == u32::MAX {
                    proof {
                        assert(self.cache() == a.cache());
                        assert(a.kept_or_evicted(a.disk(), self.cache(), self.disk()));
                    }
                    return Err(DbError::invalid_operation("pin count overflow"));
                }
                let p = self.pins[i] + 1;
                self.pins.set(i, p);
                self.used.set(i, clock);
                proof {
                    lemma_cache_set(a, *self, i as int);
                    self.lemma_slot(i as int);
                }
                Ok(self.entry_page_mut(i))
            },
            None => {
                let page = match self.pager.read_page(page_id) {
                    Ok(p) => p,
                    Err(e) => {
                        proof {
                            assert(a.kept_or_evicted(a.disk(), self.cache(), self.disk()));
                        }
                        return Err(e);
                    },
                };
                if self.ids.len() >= self.capacity {
                    proof {
                        a.lemma_cache_len();
                    }
                    match self.evict_one() {
                        Ok(()) => {},
                        Err(e) => {
                            proof {
                                assert(a.kept_or_evicted(a.disk(), self.cache(), self.disk()));
                            }
                            return Err(e);
                        },
                    }
                }
                let ghost b = *self;
                proof {
                    assert(a.kept_or_evicted(a.disk(), b.cache(), b.disk()));
                    b.lemma_cache_len();
                    a.lemma_cache_len();
                    if b.ids@.contains(page_id) {
                        assert(b.cache().contains_key(page_id));
                        assert(a.cache().contains_key(page_id));
                    }
                }
                let clock = match self.next_clock() {
                    Ok(c) => c,
                    Err(e) => {
                        return Err(e);
                    },
                };
                self.push_entry(page_id, page, 1, clock);
                let n = self.ids.len() - 1;
                proof {
                    self.lemma_slot(n as int);
                }
                Ok(self.entry_page_mut(n))
            },
        }
    }
}

impl BufferPool {
    /// A page that can be read is a page of the file.
    pub proof fn lemma_content_in_file(&self, id: u32)
        requires
            self.wf(),
            self.content(id) is Some,
        ensures
            id < self.disk().len(),
    {
        if self.cache().contains_key(id) {
            self.lemma_cache_entry(id);
        }
    }

    proof fn lemma_cache_entry(&self, id: u32)
        requires
            self.wf(),
            self.cache().contains_key(id),
        ensures
            self.cache()[id].data.len() == PAGE_BODY_SIZE,
            id < self.disk().len(),
    {
        let k = self.slot_of(id);
        self.lemma_slot(k);
    }

    /// Appends a fresh page of the given type to the file and caches it,
    /// unpinned, making room first if the cache is full (see
    /// [`BufferPool::evict_one`]). A file that cannot grow, no room or a
    /// clock that cannot advance are invalid operations.
    pub fn allocate_page(&mut self, page_type: PageType) -> (r: Result<u32, DbError>)
        requires
            old(self).wf(),
        ensures
            final(self).wf(),
            final(self).capacity_spec() == old(self).capacity_spec(),
            r matches Ok(id) ==> id == old(self).disk().len() && exists|
                m: Map<u32, CachedPage>,
                d: Seq<Seq<u8>>,
            |
                #![trigger old(self).kept_or_evicted(old(self).disk().push(fresh_page_bytes(id, page_type)), m, d)]
                old(self).kept_or_evicted(old(self).disk().push(fresh_page_bytes(id, page_type)), m, d)
                    && final(self).disk() == d && final(self).cache() == m.insert(
                    id,
                    CachedPage {
                        header: PageHeader {
                            page_id: id,
                            page_type,
                            free_space_offset: INITIAL_FREE_SPACE_OFFSET,
                            cell_count: 0,
                            checksum: 0,
                            flags: 0,
                        },
                        data: zero_body(),
                        dirty: false,
                        pin_count: 0,
                        last_used: final(self).clock_spec(),
                    },
                ),
            r is Ok ==> old(self).disk().len() < u32::MAX,
            r is Ok ==> final(self).disk().len() == old(self).disk().len() + 1,
            (old(self).disk().len() < u32::MAX && old(self).clock_spec() < u64::MAX - 1 && (old(
                self,
            ).cache().len() < old(self).capacity_spec() || (old(self).has_unpinned() && old(
                self,
            ).coherent()))) ==> r is Ok,
            r is Err ==> final(self).disk().len() >= old(self).disk().len(),
            r matches Err(e) ==> e.kind() == ErrorKind::InvalidOperation,
            old(self).clock_spec() <= final(self).clock_spec() <= old(self).clock_spec() + 2,
            old(self).coherent() ==> final(self).coherent(),
            old(self).coherent() ==> forall|x: u32|
                x != old(self).disk().len() ==> #[trigger] final(self).content(x) == old(self).content(x),
            (old(self).coherent() && r is Ok) ==> final(self).content(old(self).disk().len() as u32)
                == Some(
                (
                    PageHeader {
                        page_id: old(self).disk().len() as u32,
                        page_type,
                        free_space_offset: INITIAL_FREE_SPACE_OFFSET,
                        cell_count: 0,
                        checksum: 0,
                        flags: 0,
                    },
                    zero_body(),
                ),
            ),
            old(self).idle() ==> final(self).idle(),
    {
        let ghost a = *self;
        let id = self.pager.allocate_page(page_type)?;
        let ghost fresh = fresh_page_bytes(id, page_type);
        proof {
            lemma_parts_roundtrip(
                PageHeader {
                    page_id: id,
                    page_type,
                    free_space_offset: INITIAL_FREE_SPACE_OFFSET,
                    cell_count: 0,
                    checksum: 0,
                    flags: 0,
                },
                zero_body(),
            );
            assert(self.pager@[id as int] == fresh);
            assert forall|k: int| 0 <= k < self.ids@.len() implies #[trigger] self.ids@[k] < self.pager@.len() by {}
            assert(self.cache() == a.cache());
            if a.coherent() {
                assert forall|x: u32| #[trigger] self.cache().contains_key(x) implies {
                    &&& self.cache()[x].header.page_id == x
                    &&& self.cache()[x].header.flags < 0x100_0000
                    &&& self.cache()[x].header.checksum == 0
                    &&& self.cache()[x].data.len() == PAGE_BODY_SIZE
                    &&& x < self.disk().len()
                    &&& (!self.cache()[x].dirty ==> parse_page(self.disk()[x as int]) == Some(
                        (self.cache()[x].header, self.cache()[x].data),
                    ))
                } by {
                    assert(a.cache().contains_key(x));
                    assert(self.disk()[x as int] == a.disk()[x as int]);
                }
                assert forall|x: int| 0 <= x < self.disk().len() implies (#[trigger] parse_page(self.disk()[x]) is Some ==> (
                parse_page(self.disk()[x])->0).0.page_id == x) by {
                    if x < a.disk().len() {
                        assert(self.disk()[x] == a.disk()[x]);
                    }
                }
                assert(self.coherent());
                assert forall|x: u32| x != id implies #[trigger] self.content(x) == a.content(x) by {
                    if x < a.disk().len() {
                        assert(self.disk()[x as int] == a.disk()[x as int]);
                    }
                }
            }
        }
        let page = match self.pager.read_page(id) {
            Ok(p) => p,
            Err(e) => {
                return Err(DbError::invalid_operation("fresh page cannot be read back"));
            },
        };
        let ghost mid = *self;
        if self.ids.len() >= self.capacity {
            proof {
                a.lemma_cache_len();
            }
            self.evict_one()?;
        }
        let ghost b = *self;
        proof {
            assert(a.kept_or_evicted(a.disk().push(fresh), b.cache(), b.disk()));
            b.lemma_cache_len();
            a.lemma_cache_len();
            if b.ids@.contains(id) {
                assert(b.cache().contains_key(id));
                assert(a.cache().contains_key(id));
                a.lemma_cache_entry(id);
            }
        }
        let clock = self.next_clock()?;
        self.push_entry(id, page, 0, clock);
        proof {
            if a.coherent() {
                assert(!b.cache().contains_key(id));
                assert(self.disk()[id as int] == mid.disk()[id as int]) by {
                    if self.disk() != mid.disk() {
                        let v = choose|v: u32|
                            #![trigger mid.cache().remove(v)]
                            mid.is_victim(v) && b.cache() == mid.cache().remove(v) && b.disk() == mid.flushed_disk(v);
                        assert(a.cache().contains_key(v));
                        a.lemma_cache_entry(v);
                    }
                }
                assert forall|x: u32| #[trigger] self.cache().contains_key(x) implies {
                    &&& self.cache()[x].header.page_id == x
                    &&& self.cache()[x].header.flags < 0x100_0000
                    &&& self.cache()[x].header.checksum == 0
                    &&& self.cache()[x].data.len() == PAGE_BODY_SIZE
                    &&& x < self.disk().len()
                    &&& (!self.cache()[x].dirty ==> parse_page(self.disk()[x as int]) == Some(
                        (self.cache()[x].header, self.cache()[x].data),
                    ))
                } by {
                    if x != id {
                        assert(b.cache().contains_key(x));
                    }
                }
                assert forall|x: u32| x != id implies #[trigger] self.content(x) == a.content(x) by {
                    assert(self.content(x) == b.content(x));
                    assert(b.content(x) == mid.content(x));
                }
            }
            if a.idle() {
                assert forall|x: u32| #[trigger] self.cache().contains_key(x) implies self.cache()[x].pin_count == 0 by {
                    if x != id {
                        assert(b.cache().contains_key(x));
                        assert(mid.cache().contains_key(x));
                    }
                }
            }
        }
        Ok(id)
    }
}

impl BufferPool {
    /// Writes back every changed cached page. When the cache is coherent the
    /// content of every page is kept, and the file then holds it: every
    /// cached page is unchanged against the file.
    pub fn flush_all(&mut self) -> (r: Result<(), DbError>)
        requires
            old(self).wf(),
        ensures
            final(self).wf(),
            final(self).capacity_spec() == old(self).capacity_spec(),
            final(self).disk().len() == old(self).disk().len(),
            final(self).cache().dom() == old(self).cache().dom(),
            r is Ok ==> forall|id: u32| #[trigger] final(self).cache().contains_key(id) ==> {
                &&& !final(self).cache()[id].dirty
                &&& final(self).cache()[id].header == old(self).cache()[id].header
                &&& final(self).cache()[id].data == old(self).cache()[id].data
                &&& final(self).cache()[id].pin_count == old(self).cache()[id].pin_count
            },
            (old(self).coherent() && old(self).clock_spec() + old(self).cache().len() <= u64::MAX)
                ==> r is Ok,
            r matches Err(e) ==> e.kind() == ErrorKind::InvalidOperation,
            old(self).clock_spec() <= final(self).clock_spec() <= old(self).clock_spec() + old(self).cache().len(),
            old(self).idle() ==> final(self).idle(),
            old(self).coherent() ==> final(self).coherent() && forall|id: u32|
                #[trigger] final(self).content(id) == old(self).content(id),
    {
        let page_ids = self.ids.clone();
        let ghost a = *self;
        proof {
            a.lemma_cache_len();
        }
        let mut j: usize = 0;
        while j < page_ids.len()
            invariant
                self.wf(),
                a.wf(),
                *old(self) == a,
                a.cache().len() == a.ids@.len(),
                page_ids@ == a.ids@,
                j <= page_ids@.len(),
                self.capacity_spec() == a.capacity_spec(),
                self.disk().len() == a.disk().len(),
                self.cache().dom() == a.cache().dom(),
                self.clock_spec() == a.clock_spec() + j,
                forall|id: u32| #[trigger] self.cache().contains_key(id) ==> {
                    &&& self.cache()[id].header == a.cache()[id].header
                    &&& self.cache()[id].data == a.cache()[id].data
                    &&& self.cache()[id].pin_count == a.cache()[id].pin_count
                },
                forall|k: int| 0 <= k < j ==> !self.cache()[#[trigger] page_ids@[k]].dirty,
                a.coherent() ==> self.coherent() && forall|id: u32|
                    #[trigger] self.content(id) == a.content(id),
            decreases page_ids@.len() - j,
        {
            let ghost before = *self;
            proof {
                a.lemma_slot(j as int);
            }
            let id = page_ids[j];
            match self.flush_page(id) {
                Ok(()) => {},
                Err(e) => {
                    proof {
                        assert(self.cache() == before.cache());
                    }
                    return Err(e);
                },
            }
            proof {
                assert forall|k: int| 0 <= k < j + 1 implies !self.cache()[#[trigger] page_ids@[k]].dirty by {
                    if k < j {
                        a.lemma_slot(k);
                        assert(page_ids@[k] != id) by {
                            assert(a.ids@.no_duplicates());
                        }
                    }
                }
                assert(self.cache().dom() =~= a.cache().dom());
            }
            j = j + 1;
        }
        proof {
            assert forall|id: u32| #[trigger] self.cache().contains_key(id) implies !self.cache()[id].dirty by {
                assert(a.cache().contains_key(id));
                let k = a.slot_of(id);
                a.lemma_slot(k);
                assert(page_ids@[k] == id);
            }
        }
        Ok(())
    }
}

impl BufferPool {
    /// A pool with no page pinned has room for a page, or a page that may
    /// leave to make room.
    pub proof fn lemma_full_has_unpinned(&self)
        requires
            self.wf(),
            self.idle(),
        ensures
            self.cache().len() >= self.capacity_spec() ==> self.has_unpinned(),
    {
        self.lemma_cache_len();
        if self.cache().len() >= self.capacity_spec() {
            self.lemma_slot(0);
            assert(self.cache().contains_key(self.ids@[0]));
        }
    }

    /// A copy of a page's content: the page is pinned, copied and released
    /// unchanged. On a coherent cache the content of every page is kept.
    pub fn read_copy(&mut self, page_id: u32) -> (r: Result<Page, DbError>)
        requires
            old(self).wf(),
        ensures
            final(self).wf(),
            final(self).capacity_spec() == old(self).capacity_spec(),
            final(self).disk().len() == old(self).disk().len(),
            old(self).clock_spec() <= final(self).clock_spec() <= old(self).clock_spec() + 3,
            r matches Ok(p) ==> p.wf() && old(self).content(page_id) == Some((p.header, p.data@)),
            old(self).coherent() ==> final(self).coherent() && forall|x: u32|
                #[trigger] final(self).content(x) == old(self).content(x),
            old(self).idle() ==> final(self).idle(),
            (old(self).coherent() && old(self).idle() && old(self).content(page_id) is Some && old(
                self,
            ).clock_spec() <= u64::MAX - 3) ==> r is Ok,
            (old(self).coherent() && old(self).roomy() && old(self).content(page_id) is Some && old(
                self,
            ).clock_spec() <= u64::MAX - 3) ==> r is Ok,
            (r is Ok && old(self).roomy()) ==> final(self).roomy(),
            r matches Err(e) ==> e.kind() == ErrorKind::InvalidOperation || e.kind() == ErrorKind::Corruption,
    {
        if self.clock > u64::MAX - 3 {
            return Err(DbError::invalid_operation("clock overflow"));
        }
        let ghost a = *self;
        proof {
            if a.idle() {
                a.lemma_full_has_unpinned();
            }
        }
        let p = match self.get_page(page_id) {
            Ok(p) => p,
            Err(e) => {
                proof {
                    let (m, d) = choose|m: Map<u32, CachedPage>, d: Seq<Seq<u8>>|
                        #![trigger a.kept_or_evicted(a.disk(), m, d)]
                        a.kept_or_evicted(a.disk(), m, d) && self.disk() == d && self.cache() == m;
                    if a.coherent() {
                        lemma_kept_or_evicted(a, m, d);
                    }
                    if !(m == a.cache() && d == a.disk()) {
                        let v = choose|v: u32|
                            #![trigger a.cache().remove(v)]
                            a.is_victim(v) && m == a.cache().remove(v) && d == flush_into(a.disk(), a.cache()[v]);
                        assert forall|x: u32| #[trigger] self.cache().contains_key(x) implies a.cache().contains_key(x)
                            && self.cache()[x] == a.cache()[x] by {}
                    }
                }
                return Err(e);
            },
        };
        let copy = p.duplicate();
        let ghost b = *self;
        proof {
            assert(copy.header == b.cache()[page_id].header);
            assert(copy.data@ == b.cache()[page_id].data);
            if a.coherent() && a.idle() && a.content(page_id) is Some {
                a.lemma_full_has_unpinned();
            }
            if a.coherent() {
                if a.cache().contains_key(page_id) {
                    assert(b.cache() =~= a.cache().insert(page_id, b.cache()[page_id]));
                    assert forall|x: u32| #[trigger] b.content(x) == a.content(x) by {}
                } else {
                    let (m, d) = choose|m: Map<u32, CachedPage>, d: Seq<Seq<u8>>|
                        #![trigger a.kept_or_evicted(a.disk(), m, d)]
                        a.kept_or_evicted(a.disk(), m, d) && b.disk() == d && b.cache() == m.insert(
                            page_id,
                            b.cache()[page_id],
                        );
                    lemma_kept_or_evicted(a, m, d);
                    assert(!m.contains_key(page_id));
                    lemma_parsed_page(a.disk()[page_id as int]);
                    assert forall|x: u32| #[trigger] b.content(x) == a.content(x) by {
                        assert(content_of(m, d, x) == a.content(x));
                        if x != page_id {
                            assert(b.cache().contains_key(x) == m.contains_key(x));
                            if m.contains_key(x) {
                                assert(b.cache()[x] == m[x]);
                            }
                        }
                    }
                }
                assert(b.coherent());
            }
            if a.idle() {
                if !a.cache().contains_key(page_id) {
                    let (m, d) = choose|m: Map<u32, CachedPage>, d: Seq<Seq<u8>>|
                        #![trigger a.kept_or_evicted(a.disk(), m, d)]
                        a.kept_or_evicted(a.disk(), m, d) && b.disk() == d && b.cache() == m.insert(
                            page_id,
                            b.cache()[page_id],
                        );
                    assert forall|x: u32| #[trigger] m.contains_key(x) implies m[x].pin_count == 0 by {
                        if !(m == a.cache() && d == a.disk()) {
                            let v = choose|v: u32|
                                #![trigger a.cache().remove(v)]
                                a.is_victim(v) && m == a.cache().remove(v) && d == flush_into(a.disk(), a.cache()[v]);
                        }
                    }
                }
            }
        }
        self.unpin_page(page_id, false)?;
        proof {
            if a.coherent() {
                assert(self.cache() =~= b.cache().insert(page_id, self.cache()[page_id]));
                assert forall|x: u32| #[trigger] self.content(x) == b.content(x) by {}
            }
            if a.roomy() {
                let f = *self;
                if a.cache().contains_key(page_id) {
                    assert(f.cache().dom() =~= a.cache().dom());
                    assert forall|x: u32| #[trigger] f.cache().contains_key(x) implies f.cache()[x].pin_count
                        == a.cache()[x].pin_count by {}
                    if a.cache().len() >= a.capacity_spec() {
                        let u = choose|u: u32| #[trigger] a.cache().contains_key(u) && a.cache()[u].pin_count == 0;
                        assert(f.cache().contains_key(u) && f.cache()[u].pin_count == 0);
                    }
                } else {
                    let (m, d) = choose|m: Map<u32, CachedPage>, d: Seq<Seq<u8>>|
                        #![trigger a.kept_or_evicted(a.disk(), m, d)]
                        a.kept_or_evicted(a.disk(), m, d) && b.disk() == d && b.cache() == m.insert(
                            page_id,
                            b.cache()[page_id],
                        );
                    assert forall|x: u32| #[trigger] m.contains_key(x) implies a.cache().contains_key(x)
                        && m[x] == a.cache()[x] by {
                        if !(m == a.cache() && d == a.disk()) {
                            let v = choose|v: u32|
                                #![trigger a.cache().remove(v)]
                                a.is_victim(v) && m == a.cache().remove(v) && d == flush_into(a.disk(), a.cache()[v]);
                        }
                    }
                    assert(f.cache().contains_key(page_id) && f.cache()[page_id].pin_count == 0);
                }
            }
        }
        Ok(copy)
    }

    /// Replaces the content of the page whose id the given page's header
    /// holds: the page is pinned, overwritten and released changed. On a
    /// coherent cache, with a page of the right size and flags that fit the
    /// header, the cache stays coherent and only that page's content changes.
    pub fn write_copy(&mut self, page: Page) -> (r: Result<(), DbError>)
        requires
            old(self).wf(),
            page.wf(),
        ensures
            final(self).wf(),
            final(self).capacity_spec() == old(self).capacity_spec(),
            final(self).disk().len() == old(self).disk().len(),
            old(self).clock_spec() <= final(self).clock_spec() <= old(self).clock_spec() + 3,
            r is Ok ==> old(self).content(page.header.page_id) is Some,
            (old(self).coherent() && page.header.flags < 0x100_0000 && page.header.checksum == 0) ==> final(self).coherent(),
            r matches Err(e) ==> e.kind() == ErrorKind::InvalidOperation || e.kind() == ErrorKind::Corruption,
            (r is Ok && old(self).coherent() && page.header.flags < 0x100_0000 && page.header.checksum == 0) ==> forall|x: u32|
                #[trigger] final(self).content(x) == (if x == page.header.page_id {
                    Some((page.header, page.data@))
                } else {
                    old(self).content(x)
                }),
            (r is Err && old(self).coherent()) ==> forall|x: u32|
                #[trigger] final(self).content(x) == old(self).content(x),
            old(self).idle() ==> final(self).idle(),
            (old(self).coherent() && old(self).idle() && old(self).content(page.header.page_id) is Some
                && old(self).clock_spec() <= u64::MAX - 3) ==> r is Ok,
            r is Ok ==> final(self).cache().contains_key(page.header.page_id),
            r is Ok ==> final(self).cache()[page.header.page_id].header == page.header && final(self).cache()[page.header.page_id].data
                == page.data@,
    {
        if self.clock > u64::MAX - 3 {
            return Err(DbError::invalid_operation("clock overflow"));
        }
        let ghost a = *self;
        let ghost pg = page;
        let id = page.header.page_id;
        proof {
            if a.idle() {
                a.lemma_full_has_unpinned();
            }
        }
        let p = match self.get_page(id) {
            Ok(p) => p,
            Err(e) => {
                proof {
                    let (m, d) = choose|m: Map<u32, CachedPage>, d: Seq<Seq<u8>>|
                        #![trigger a.kept_or_evicted(a.disk(), m, d)]
                        a.kept_or_evicted(a.disk(), m, d) && self.disk() == d && self.cache() == m;
                    if a.coherent() {
                        lemma_kept_or_evicted(a, m, d);
                    }
                    if !(m == a.cache() && d == a.disk()) {
                        let v = choose|v: u32|
                            #![trigger a.cache().remove(v)]
                            a.is_victim(v) && m == a.cache().remove(v) && d == flush_into(a.disk(), a.cache()[v]);
                        assert forall|x: u32| #[trigger] self.cache().contains_key(x) implies a.cache().contains_key(x)
                            && self.cache()[x] == a.cache()[x] by {}
                    }
                }
                return Err(e);
            },
        };
        *p = page;
        let ghost b = *self;
        proof {
            assert(pg.header == b.cache()[id].header);
            if a.coherent() && a.idle() && a.content(id) is Some {
                a.lemma_full_has_unpinned();
            }
            if a.coherent() && b.cache()[id].header.flags < 0x100_0000 && b.cache()[id].header.checksum == 0 {
                if a.cache().contains_key(id) {
                    assert(b.cache() =~= a.cache().insert(id, b.cache()[id]));
                    assert forall|x: u32| x != id implies #[trigger] b.content(x) == a.content(x) by {}
                } else {
                    let (m, d) = choose|m: Map<u32, CachedPage>, d: Seq<Seq<u8>>|
                        #![trigger a.kept_or_evicted(a.disk(), m, d)]
                        a.kept_or_evicted(a.disk(), m, d) && b.disk() == d && b.cache() == m.insert(
                            id,
                            b.cache()[id],
                        );
                    lemma_kept_or_evicted(a, m, d);
                    assert(!m.contains_key(id));
                    assert forall|x: u32| x != id implies #[trigger] b.content(x) == a.content(x) by {
                        assert(content_of(m, d, x) == a.content(x));
                        assert(b.cache().contains_key(x) == m.contains_key(x));
                        if m.contains_key(x) {
                            assert(b.cache()[x] == m[x]);
                        }
                    }
                }
            }
            if a.idle() {
                if !a.cache().contains_key(id) {
                    let (m, d) = choose|m: Map<u32, CachedPage>, d: Seq<Seq<u8>>|
                        #![trigger a.kept_or_evicted(a.disk(), m, d)]
                        a.kept_or_evicted(a.disk(), m, d) && b.disk() == d && b.cache() == m.insert(
                            id,
                            b.cache()[id],
                        );
                    assert forall|x: u32| #[trigger] m.contains_key(x) implies m[x].pin_count == 0 by {
                        if !(m == a.cache() && d == a.disk()) {
                            let v = choose|v: u32|
                                #![trigger a.cache().remove(v)]
                                a.is_victim(v) && m == a.cache().remove(v) && d == flush_into(a.disk(), a.cache()[v]);
                        }
                    }
                }
            }
        }
        let r = self.unpin_page(id, true);
        proof {
            if a.coherent() && pg.header.flags < 0x100_0000 && pg.header.checksum == 0 {
                if r is Ok {
                    assert(self.cache() =~= b.cache().insert(id, self.cache()[id]));
                    assert forall|x: u32| #[trigger] self.content(x) == (if x == id {
                        Some((pg.header, pg.data@))
                    } else {
                        a.content(x)
                    }) by {
                        if x != id {
                            assert(b.content(x) == a.content(x));
                        }
                    }
                }
            }
        }
        r
    }
}

/// In a coherent pool a readable page carries its own id, flags that fit
/// the header and a body of the size of a page body.
pub proof fn lemma_content_sound(pool: BufferPool, id: u32)
    requires
        pool.wf(),
        pool.coherent(),
        pool.content(id) is Some,
    ensures
        (pool.content(id)->0).0.page_id == id,
        (pool.content(id)->0).0.flags < 0x100_0000,
        (pool.content(id)->0).0.checksum == 0,
        (pool.content(id)->0).1.len() == PAGE_BODY_SIZE,
{
    if !pool.cache().contains_key(id) {
        pool.lemma_disk_pages(id);
        lemma_parsed_page(pool.disk()[id as int]);
    }
}

impl BufferPool {
    proof fn lemma_disk_pages(&self, id: u32)
        requires
            self.wf(),
        ensures
            id < self.disk().len() ==> self.disk()[id as int].len() == crate::engine::page::PAGE_SIZE,
    {
    }
}

proof fn lemma_evict_keeps(a: BufferPool, b: BufferPool, v: u32)
    requires
        a.wf(),
        b.wf(),
        a.coherent(),
        a.cache().contains_key(v),
        b.cache() == a.cache().remove(v),
        b.disk() == a.flushed_disk(v),
    ensures
        b.coherent(),
        forall|id: u32| #[trigger] b.content(id) == a.content(id),
{
    let e = a.cache()[v];
    a.lemma_cache_entry(v);
    lemma_parts_roundtrip(e.header, e.data);
    assert forall|id: u32| #[trigger] b.content(id) == a.content(id) by {
        if id != v && a.cache().contains_key(id) {
            a.lemma_cache_entry(id);
        }
    }
    assert forall|x: u32| #[trigger] b.cache().contains_key(x) implies {
        &&& b.cache()[x].header.page_id == x
        &&& b.cache()[x].header.flags < 0x100_0000
        &&& b.cache()[x].header.checksum == 0
        &&& x < b.disk().len()
        &&& (!b.cache()[x].dirty ==> parse_page(b.disk()[x as int]) == Some(
            (b.cache()[x].header, b.cache()[x].data),
        ))
    } by {
        assert(a.cache().contains_key(x));
    }
}

proof fn lemma_flush_keeps(a: BufferPool, b: BufferPool, id: u32, t: u64)
    requires
        a.wf(),
        b.wf(),
        a.coherent(),
        a.cache().contains_key(id),
        b.cache() == (if a.cache()[id].dirty {
            a.cache().insert(id, CachedPage { dirty: false, last_used: t, ..a.cache()[id] })
        } else {
            a.cache()
        }),
        b.disk() == a.flushed_disk(id),
    ensures
        b.coherent(),
        forall|x: u32| #[trigger] b.content(x) == a.content(x),
        !b.cache()[id].dirty,
{
    let e = a.cache()[id];
    a.lemma_cache_entry(id);
    lemma_parts_roundtrip(e.header, e.data);
    assert forall|x: u32| #[trigger] b.content(x) == a.content(x) by {}
    assert forall|x: u32| #[trigger] b.cache().contains_key(x) implies {
        &&& b.cache()[x].header.page_id == x
        &&& b.cache()[x].header.flags < 0x100_0000
        &&& b.cache()[x].header.checksum == 0
        &&& x < b.disk().len()
        &&& (!b.cache()[x].dirty ==> parse_page(b.disk()[x as int]) == Some(
            (b.cache()[x].header, b.cache()[x].data),
        ))
    } by {
        assert(a.cache().contains_key(x));
    }
}

/// The content of a page given the cache and the file: the cached copy if
/// there is one, else what the file holds.
pub open spec fn content_of(cache: Map<u32, CachedPage>, disk: Seq<Seq<u8>>, id: u32) -> Option<
    (PageHeader, Seq<u8>),
> {
    if cache.contains_key(id) {
        Some((cache[id].header, cache[id].data))
    } else if id < disk.len() {
        parse_page(disk[id as int])
    } else {
        None
    }
}

/// Every page of the file that reads back carries its own id (a page that
/// does not read back, such as one whose checksum fails, may stand
/// anywhere), every cached page carries its own id, flags that fit the
/// header and a body of the size of a page body, and a cached page not
/// marked changed equals what the file holds.
pub open spec fn coherent_of(cache: Map<u32, CachedPage>, disk: Seq<Seq<u8>>) -> bool {
    &&& forall|id: int|
        0 <= id < disk.len() ==> (#[trigger] parse_page(disk[id]) is Some ==> (parse_page(
            disk[id],
        )->0).0.page_id == id)
    &&& forall|id: u32|
        #[trigger] cache.contains_key(id) ==> {
            &&& cache[id].header.page_id == id
            &&& cache[id].header.flags < 0x100_0000
            &&& cache[id].header.checksum == 0
            &&& cache[id].data.len() == PAGE_BODY_SIZE
            &&& id < disk.len()
            &&& (!cache[id].dirty ==> parse_page(disk[id as int]) == Some(
                (cache[id].header, cache[id].data),
            ))
        }
}

/// Evicting a page from a coherent cache keeps it coherent and keeps the
/// content of every page.
pub proof fn lemma_evict_keeps_content(cache: Map<u32, CachedPage>, disk: Seq<Seq<u8>>, v: u32)
    requires
        coherent_of(cache, disk),
        cache.contains_key(v),
    ensures
        coherent_of(cache.remove(v), flush_into(disk, cache[v])),
        forall|id: u32|
            #[trigger] content_of(cache.remove(v), flush_into(disk, cache[v]), id) == content_of(
                cache,
                disk,
                id,
            ),
{
    let e = cache[v];
    lemma_parts_roundtrip(e.header, e.data);
    let d2 = flush_into(disk, e);
    assert forall|id: int| 0 <= id < d2.len() implies (#[trigger] parse_page(d2[id]) is Some ==> (
    parse_page(d2[id])->0).0.page_id == id) by {
        if id != v as int {
            assert(d2[id] == disk[id]);
        }
    }
}

/// Whatever a coherent cache did to make room, it stays coherent and keeps
/// the content of every page.
pub proof fn lemma_kept_or_evicted(
    pool: BufferPool,
    m: Map<u32, CachedPage>,
    d: Seq<Seq<u8>>,
)
    requires
        pool.coherent(),
        pool.kept_or_evicted(pool.disk(), m, d),
    ensures
        coherent_of(m, d),
        forall|id: u32| #[trigger] content_of(m, d, id) == pool.content(id),
{
    if !(m == pool.cache() && d == pool.disk()) {
        let v = choose|v: u32|
            #![trigger pool.cache().remove(v)]
            pool.is_victim(v) && m == pool.cache().remove(v) && d == flush_into(pool.disk(), pool.cache()[v]);
        lemma_evict_keeps_content(pool.cache(), pool.disk(), v);
    }
}

/// What `disk` holds once the cached page `e` is written back, if it was
/// changed.
pub open spec fn flush_into(disk: Seq<Seq<u8>>, e: CachedPage) -> Seq<Seq<u8>> {
    if e.dirty {
        disk.update(e.header.page_id as int, stored_page(e.header, e.data))
    } else {
        disk
    }
}

} // verus!
