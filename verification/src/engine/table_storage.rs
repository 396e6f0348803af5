use crate::codec::{push_bytes, push_u32, read_u32_at, write_at};
use crate::engine::buffer_pool::{lemma_content_sound, BufferPool};
use crate::engine::page::{
    zero_body, Page, PageHeader, PageType, DATA_PAGE_HEADER_SIZE, INITIAL_FREE_SPACE_OFFSET,
    PAGE_BODY_SIZE,
};
use crate::engine::wire::{decode_row, encode_row, parse_row, row_bytes};
use crate::error::{DbError, ErrorKind};
use crate::row::Row;
use crate::value::ValueModel;
use vstd::bytes::*;
use vstd::prelude::*;

verus! {

/// The body of a page's content.
pub open spec fn body_of(c: Option<(PageHeader, Seq<u8>)>) -> Seq<u8> {
    (c->0).1
}

/// The body of a page as the pool shows it.
pub open spec fn page_body(pool: BufferPool, id: u32) -> Seq<u8> {
    body_of(pool.content(id))
}

/// The id of the next data page of the chain; zero ends the chain.
pub open spec fn next_link(body: Seq<u8>) -> u32 {
    spec_u32_from_le_bytes(body.subrange(0, 4))
}

/// How many bytes of records a data page holds after its header.
pub open spec fn used_len(body: Seq<u8>) -> u32 {
    spec_u32_from_le_bytes(body.subrange(4, 8))
}

/// `ids` are the first pages of the chain of data pages that starts at
/// `first`: each is readable and links to the next.
pub open spec fn chain(pool: BufferPool, first: u32, ids: Seq<u32>) -> bool {
    &&& ids.len() > 0
    &&& ids[0] == first
    &&& forall|j: int| 0 <= j < ids.len() ==> pool.content(#[trigger] ids[j]) is Some
    &&& forall|j: int|
        0 <= j < ids.len() - 1 ==> ids[j + 1] == next_link(page_body(pool, #[trigger] ids[j]))
}

/// The outcome of looking for a record.
pub enum Scan {
    /// The bytes of the record looked for.
    Found(Seq<u8>),
    /// Not found; this many records were passed.
    Passed(nat),
    /// A record length or record runs past the page.
    Bad,
}

/// Looks for record number `want` among the records of a page body between
/// `off` and `end`, `seen` records having been passed before: each record is
/// its `u32` length, then its bytes.
pub open spec fn scan(body: Seq<u8>, off: int, end: int, want: nat, seen: nat) -> Scan
    decreases end - off,
{
    if off >= end {
        Scan::Passed(seen)
    } else if off + 4 > body.len() {
        Scan::Bad
    } else {
        let len = spec_u32_from_le_bytes(body.subrange(off, off + 4));
        let rs = off + 4;
        let re = rs + len;
        if seen == want {
            if re > body.len() {
                Scan::Bad
            } else {
                Scan::Found(body.subrange(rs, re))
            }
        } else if re >= end {
            Scan::Passed(seen + 1)
        } else {
            scan(body, re, end, want, seen + 1)
        }
    }
}

/// Looks for record number `want` along the pages `ids`, each page's
/// records counted after those of the pages before it.
pub open spec fn scan_pages(pool: BufferPool, ids: Seq<u32>, want: nat) -> Scan
    decreases ids.len(),
{
    if ids.len() == 0 {
        Scan::Passed(0)
    } else {
        match scan_pages(pool, ids.drop_last(), want) {
            Scan::Passed(seen) => {
                let body = page_body(pool, ids.last());
                scan(body, DATA_PAGE_HEADER_SIZE as int, DATA_PAGE_HEADER_SIZE + used_len(body), want, seen)
            },
            other => other,
        }
    }
}

/// The record looked for was found and reads back as a row of the values
/// `vs`.
pub open spec fn found_row(s: Scan, vs: Seq<ValueModel>) -> bool {
    match s {
        Scan::Found(b) => match parse_row(b) {
            Ok((v, _)) => v == vs,
            Err(_) => false,
        },
        _ => false,
    }
}

/// The most record bytes a data page can hold.
pub const MAX_USED: usize = PAGE_BODY_SIZE - DATA_PAGE_HEADER_SIZE;

/// A record: the length of a row's encoding, then the encoding.
pub open spec fn record_of(row: Seq<u8>) -> Seq<u8> {
    spec_u32_to_le_bytes(row.len() as u32) + row
}

/// Room left for records in a data page.
pub open spec fn free_space(body: Seq<u8>) -> int {
    MAX_USED - used_len(body)
}

/// A data page body with a record appended after its records.
pub open spec fn appended(body: Seq<u8>, rec: Seq<u8>) -> Seq<u8> {
    let u = used_len(body) as int;
    body.subrange(0, 4) + spec_u32_to_le_bytes((u + rec.len()) as u32) + body.subrange(8, 8 + u) + rec
        + body.subrange(8 + u + rec.len(), body.len() as int)
}

/// A data page body linked to the page `next`.
pub open spec fn linked(body: Seq<u8>, next: u32) -> Seq<u8> {
    spec_u32_to_le_bytes(next) + body.subrange(4, body.len() as int)
}

/// The body of a data page with no records: no next page, no bytes used.
pub open spec fn empty_data_body() -> Seq<u8> {
    spec_u32_to_le_bytes(0) + spec_u32_to_le_bytes(0) + zero_body().subrange(
        DATA_PAGE_HEADER_SIZE as int,
        PAGE_BODY_SIZE as int,
    )
}

/// Writes the header of a data page with no records: no next page, no
/// bytes used (see [`empty_data_body`]).
fn clear_data_header(page: &mut Page)
    requires
        old(page).wf(),
    ensures
        final(page).wf(),
        final(page).header == old(page).header,
        final(page).data@ == spec_u32_to_le_bytes(0) + spec_u32_to_le_bytes(0) + old(page).data@.subrange(
            DATA_PAGE_HEADER_SIZE as int,
            PAGE_BODY_SIZE as int,
        ),
{
    let ghost d0 = page.data@;
    let b = vstd::bytes::u32_to_le_bytes(0);
    proof {
        lemma_auto_spec_u32_to_from_le_bytes();
    }
    write_at(&mut page.data, 0, b.as_slice());
    write_at(&mut page.data, 4, b.as_slice());
    assert(page.data@ =~= spec_u32_to_le_bytes(0) + spec_u32_to_le_bytes(0) + d0.subrange(
        DATA_PAGE_HEADER_SIZE as int,
        PAGE_BODY_SIZE as int,
    ));
}

/// The header of a fresh data page.
pub open spec fn data_header(id: u32) -> PageHeader {
    PageHeader {
        page_id: id,
        page_type: PageType::Data,
        free_space_offset: INITIAL_FREE_SPACE_OFFSET,
        cell_count: 0,
        checksum: 0,
        flags: 0,
    }
}

/// `new` is `old` once the record `rec` is placed along the chain from
/// `first` (which a link of zero ends): in the first page with room for it,
/// or in a fresh page at the end of the file, linked from the last page of
/// the chain.
pub open spec fn placed(old: BufferPool, new: BufferPool, first: u32, rec: Seq<u8>) -> bool {
    exists|ids: Seq<u32>|
        #[trigger] chain(old, first, ids) && (forall|j: int| 1 <= j < ids.len() ==> #[trigger] ids[j] != 0) && (forall|j: int|
            0 <= j < ids.len() ==> used_len(page_body(old, #[trigger] ids[j])) <= MAX_USED) && (
        forall|j: int|
            0 <= j < ids.len() - 1 ==> free_space(page_body(old, #[trigger] ids[j])) < rec.len())
            && placed_after(old, new, ids.last(), rec)
}

/// The chain of data pages from `current` can be walked to its last page
/// within `fuel` pages: each page can be read and holds no more record
/// bytes than fit.
pub open spec fn walkable_chain(pool: BufferPool, current: u32, fuel: nat) -> bool
    decreases fuel,
{
    fuel > 0 && match pool.content(current) {
        None => false,
        Some((_, body)) => used_len(body) <= MAX_USED && (next_link(body) == 0 || walkable_chain(
            pool,
            next_link(body),
            (fuel - 1) as nat,
        )),
    }
}

/// The last step of [`placed`], at the last page `last` of the chain walked.
pub open spec fn placed_after(old: BufferPool, new: BufferPool, last: u32, rec: Seq<u8>) -> bool {
    let b = page_body(old, last);
    let h = (old.content(last)->0).0;
    let n = old.disk().len() as u32;
    if free_space(b) >= rec.len() {
        forall|x: u32|
            #[trigger] new.content(x) == (if x == last {
                Some((h, appended(b, rec)))
            } else {
                old.content(x)
            })
    } else {
        &&& next_link(b) == 0
        &&& old.disk().len() < u32::MAX
        &&& forall|x: u32|
            #[trigger] new.content(x) == (if x == n {
                Some((data_header(n), appended(empty_data_body(), rec)))
            } else if x == last {
                Some((h, linked(b, n)))
            } else {
                old.content(x)
            })
    }
}

fn append_record(page: &mut Page, rec: &[u8])
    requires
        old(page).wf(),
        used_len(old(page).data@) + rec@.len() <= MAX_USED,
        rec@.len() <= MAX_USED,
    ensures
        final(page).wf(),
        final(page).header == old(page).header,
        final(page).data@ == appended(old(page).data@, rec@),
{
    let ghost body = page.data@;
    let used = read_u32_at(page.data.as_slice(), 4) as usize;
    assert(page.data@.subrange(4, 8) == body.subrange(4, 8));
    write_at(&mut page.data, 8 + used, rec);
    let nu = (used + rec.len()) as u32;
    let b = vstd::bytes::u32_to_le_bytes(nu);
    write_at(&mut page.data, 4, b.as_slice());
    assert(page.data@ =~= appended(body, rec@));
}

fn set_next(page: &mut Page, next: u32)
    requires
        old(page).wf(),
    ensures
        final(page).wf(),
        final(page).header == old(page).header,
        final(page).data@ == linked(old(page).data@, next),
{
    let ghost body = page.data@;
    let b = vstd::bytes::u32_to_le_bytes(next);
    write_at(&mut page.data, 0, b.as_slice());
    assert(page.data@ =~= linked(body, next));
}

/// What looking for record number `want` gives, walking the chain from page
/// `current` with `seen` records passed before it, reading at most `fuel`
/// pages: the row the record reads back as, `None` past the last record,
/// or a failure (`None` outside): a page that cannot be read, a record that
/// runs past its page or does not read back as a row, or a walk that needs
/// more pages than the fuel.
pub open spec fn row_walk(pool: BufferPool, current: u32, want: nat, seen: nat, fuel: nat) -> Option<
    Option<Seq<ValueModel>>,
>
    decreases fuel,
{
    if fuel == 0 {
        None
    } else {
        match pool.content(current) {
            None => None,
            Some((_, body)) => match scan(
                body,
                DATA_PAGE_HEADER_SIZE as int,
                DATA_PAGE_HEADER_SIZE + used_len(body),
                want,
                seen,
            ) {
                Scan::Found(b) => match parse_row(b) {
                    Ok((v, _)) => Some(Some(v)),
                    Err(_) => None,
                },
                Scan::Bad => None,
                Scan::Passed(s) => if next_link(body) == 0 {
                    Some(None)
                } else {
                    row_walk(pool, next_link(body), want, s, (fuel - 1) as nat)
                },
            },
        }
    }
}

/// `r` is what a lookup that walked as `w` returns.
pub open spec fn row_result(r: Result<Option<Row>, DbError>, w: Option<Option<Seq<ValueModel>>>) -> bool {
    match w {
        None => r is Err,
        Some(None) => r matches Ok(x) && x is None,
        Some(Some(vs)) => r matches Ok(x) && x matches Some(row) && row@ == vs,
    }
}

/// Rows stored in a chain of data pages.
///
/// A data page starts with the id of the next page of the chain (zero ends
/// it) and the number of bytes of records it holds; each record is a row's
/// encoded length, then the row's bytes.
#[derive(Debug, Clone, Copy, PartialEq, Eq, Structural)]
pub struct TableStorage {
    first_data_page_id: u32,
}

impl TableStorage {
    /// The storage whose chain starts at the given page.
    pub fn from_first_page_id(id: u32) -> (r: Self)
        ensures
            r.first() == id,
    {
        TableStorage { first_data_page_id: id }
    }

    pub closed spec fn first(&self) -> u32 {
        self.first_data_page_id
    }

    pub fn first_data_page_id(&self) -> (r: u32)
        ensures
            r == self.first(),
    {
        self.first_data_page_id
    }

    /// Starts a chain with a fresh data page. On a coherent pool the new
    /// page, at the end of the file, is a data page with no records, and no
    /// other page changes.
    pub fn new(pool: &mut BufferPool) -> (r: Result<Self, DbError>)
        requires
            old(pool).wf(),
        ensures
            final(pool).wf(),
            final(pool).capacity_spec() == old(pool).capacity_spec(),
            old(pool).coherent() ==> final(pool).coherent(),
            old(pool).idle() ==> final(pool).idle(),
            r matches Ok(t) ==> t.first() == old(pool).disk().len(),
            (r is Ok && old(pool).coherent()) ==> forall|x: u32|
                #[trigger] final(pool).content(x) == (if x == old(pool).disk().len() {
                    Some((data_header(x), empty_data_body()))
                } else {
                    old(pool).content(x)
                }),
            (old(pool).can_run(8) && old(pool).disk().len() < u32::MAX) ==> r is Ok,
            r is Ok ==> final(pool).disk().len() == old(pool).disk().len() + 1,
            old(pool).clock_spec() <= final(pool).clock_spec() <= old(pool).clock_spec() + 8,
            r matches Err(e) ==> e.kind() == ErrorKind::InvalidOperation || e.kind() == ErrorKind::Corruption,
    {
        let ghost p0 = *pool;
        proof {
            if p0.idle() {
                p0.lemma_full_has_unpinned();
            }
        }
        let id = pool.allocate_page(PageType::Data)?;
        let ghost p1 = *pool;
        proof {
            if p0.coherent() {
                lemma_content_sound(p1, id);
            }
        }
        let mut page = pool.read_copy(id)?;
        page.header.page_type = PageType::Data;
        clear_data_header(&mut page);
        pool.write_copy(page)?;
        Ok(TableStorage { first_data_page_id: id })
    }

    /// Appends a row's record to the first page of the chain with room for
    /// it, or to a fresh page linked at the end of the chain (see
    /// [`placed`]). A row of more values than a `u32` counts, or too long for
    /// a page, is an invalid operation, as is a page holding more record bytes
    /// than fit; a chain that comes back on itself is corruption.
    #[verifier::loop_isolation(false)]
    #[verifier::spinoff_prover]
    #[verifier::rlimit(100)]
    pub fn insert_row(&self, pool: &mut BufferPool, row: &Row) -> (r: Result<(), DbError>)
        requires
            old(pool).wf(),
        ensures
            final(pool).wf(),
            final(pool).capacity_spec() == old(pool).capacity_spec(),
            old(pool).coherent() ==> final(pool).coherent(),
            old(pool).idle() ==> final(pool).idle(),
            (r is Ok && old(pool).coherent()) ==> placed(*old(pool), *final(pool), self.first(), record_of(row_bytes(row@))),
            row@.len() > u32::MAX ==> r is Err,
            (row@.len() <= u32::MAX && row_bytes(row@).len() + 4 > MAX_USED) ==> r is Err,
            r matches Err(e) ==> e.kind() == ErrorKind::InvalidOperation || e.kind() == ErrorKind::Corruption,
            (row@.len() <= u32::MAX && row_bytes(row@).len() + 4 <= MAX_USED && old(pool).disk().len() < u32::MAX
                && old(pool).can_run((3 * (old(pool).disk().len() + 1) + 14) as int) && walkable_chain(
                *old(pool),
                self.first(),
                (old(pool).disk().len() + 1) as nat,
            )) ==> r is Ok,
            old(pool).clock_spec() <= final(pool).clock_spec() <= old(pool).clock_spec() + 3 * (old(pool).disk().len()
                + 1) + 14,
    {
        let ghost p0 = *pool;
        let ghost ok = p0.disk().len() < u32::MAX && p0.can_run((3 * (p0.disk().len() + 1) + 14) as int) && walkable_chain(
            p0,
            self.first(),
            (p0.disk().len() + 1) as nat,
        );
        let encoded = encode_row(row)?;
        if encoded.len() > MAX_USED - 4 {
            return Err(DbError::invalid_operation("row too large for a page"));
        }
        let mut record: Vec<u8> = Vec::new();
        push_u32(&mut record, encoded.len() as u32);
        push_bytes(&mut record, encoded.as_slice());
        let ghost rec = record@;
        proof {
            crate::codec::lemma_le_roundtrip();
        }
        assert(rec == record_of(row_bytes(row@)));
        let count = pool.page_count() as u64;
        let mut current = self.first_data_page_id;
        let mut visited: u64 = 0;
        let ghost mut ids: Seq<u32> = Seq::empty();
        loop
            invariant
                pool.wf(),
                pool.disk().len() == p0.disk().len(),
                pool.capacity_spec() == p0.capacity_spec(),
                count == p0.disk().len(),
                p0.coherent() ==> pool.coherent() && forall|x: u32|
                    #[trigger] pool.content(x) == p0.content(x),
                p0.idle() ==> pool.idle(),
                record@ == rec,
                rec.len() <= MAX_USED,
                ids.len() == visited,
                visited <= count + 1,
                p0.clock_spec() <= pool.clock_spec() <= p0.clock_spec() + 3 * visited,
                ok ==> walkable_chain(p0, current, (count + 1 - visited) as nat),
                ok == (p0.disk().len() < u32::MAX && p0.can_run((3 * (p0.disk().len() + 1) + 14) as int) && walkable_chain(
                    p0,
                    self.first(),
                    (p0.disk().len() + 1) as nat,
                )),
                p0.coherent() ==> (if ids.len() == 0 {
                    current == self.first()
                } else {
                    chain(p0, self.first(), ids) && current == next_link(page_body(p0, ids.last()))
                        && current != 0 && (forall|j: int| 1 <= j < ids.len() ==> #[trigger] ids[j] != 0)
                        && (forall|j: int| 0 <= j < ids.len() ==> used_len(page_body(p0, #[trigger] ids[j])) <= MAX_USED)
                        && (forall|j: int| 0 <= j < ids.len() ==> free_space(page_body(p0, #[trigger] ids[j])) < rec.len())
                }),
            decreases count + 1 - visited,
        {
            if visited > count {
                return Err(DbError::corruption("data page chain is cyclic"));
            }
            let mut page = pool.read_copy(current)?;
            let ghost body = page.data@;
            let ghost full = ids.push(current);
            proof {
                if p0.coherent() {
                    lemma_content_sound(*pool, current);
                    assert(full.drop_last() =~= ids);
                    assert forall|j: int| 0 <= j < full.len() implies p0.content(#[trigger] full[j]) is Some by {}
                    assert forall|j: int| 0 <= j < full.len() - 1 implies full[j + 1] == next_link(page_body(p0, #[trigger] full[j])) by {}
                    assert(chain(p0, self.first(), full));
                }
            }
            let used = read_u32_at(page.data.as_slice(), 4) as usize;
            assert(page.data@.subrange(4, 8) == body.subrange(4, 8));
            if used > MAX_USED {
                return Err(DbError::invalid_operation("free space underflow"));
            }
            let free = MAX_USED - used;
            if free >= record.len() {
                append_record(&mut page, record.as_slice());
                let ghost newpage = page;
                let ghost before = *pool;
                pool.write_copy(page)?;
                proof {
                    if p0.coherent() {
                        assert(placed_after(p0, *pool, current, rec));
                        assert(full.last() == current);
                        assert(placed(p0, *pool, self.first(), rec));
                    }
                }
                return Ok(());
            }
            let next = read_u32_at(page.data.as_slice(), 0);
            assert(page.data@.subrange(0, 4) == body.subrange(0, 4));
            if next == 0 {
                let ghost before_alloc = *pool;
                proof {
                    if ok {
                        before_alloc.lemma_full_has_unpinned();
                    }
                }
                let new_id = pool.allocate_page(PageType::Data)?;
                proof {
                    if ok {
                        assert(pool.content(current) is Some);
                    }
                }
                let mut fresh = pool.read_copy(new_id)?;
                clear_data_header(&mut fresh);
                proof {
                    lemma_auto_spec_u32_to_from_le_bytes();
                    assert(fresh.data@.subrange(4, 8) =~= spec_u32_to_le_bytes(0));
                    if p0.coherent() {
                        assert(fresh.data@ =~= empty_data_body());
                    }
                }
                append_record(&mut fresh, record.as_slice());
                let ghost before_fresh = *pool;
                pool.write_copy(fresh)?;
                proof {
                    if ok {
                        assert(before_fresh.content(current) is Some);
                        assert(pool.content(current) is Some);
                    }
                }
                let mut prev = pool.read_copy(current)?;
                set_next(&mut prev, new_id);
                pool.write_copy(prev)?;
                proof {
                    if p0.coherent() {
                        assert(placed_after(p0, *pool, current, rec));
                        assert(full.last() == current);
                        assert(placed(p0, *pool, self.first(), rec));
                    }
                }
                return Ok(());
            }
            proof {
                ids = full;
            }
            current = next;
            visited = visited + 1;
        }
    }

    /// The row with the given index, counting records along the chain, or
    /// `None` past the last one. On a coherent pool the content of every page
    /// is kept; what is found is then what the pages hold.
    #[verifier::loop_isolation(false)]
    #[verifier::spinoff_prover]
    #[verifier::rlimit(100)]
    pub fn get_row(&self, pool: &mut BufferPool, row_idx: usize) -> (r: Result<Option<Row>, DbError>)
        requires
            old(pool).wf(),
        ensures
            final(pool).wf(),
            final(pool).disk().len() == old(pool).disk().len(),
            final(pool).capacity_spec() == old(pool).capacity_spec(),
            old(pool).coherent() ==> final(pool).coherent() && forall|x: u32|
                #[trigger] final(pool).content(x) == old(pool).content(x),
            old(pool).idle() ==> final(pool).idle(),
            old(pool).coherent() ==> (r matches Ok(Some(row)) ==> exists|ids: Seq<u32>|
                #[trigger] chain(*old(pool), self.first(), ids) && (forall|j: int| 1 <= j < ids.len() ==> #[trigger] ids[j]
                    != 0) && found_row(scan_pages(*old(pool), ids, row_idx as nat), row@)),
            old(pool).coherent() ==> (r matches Ok(None) ==> exists|ids: Seq<u32>|
                #[trigger] chain(*old(pool), self.first(), ids) && next_link(page_body(*old(pool), ids.last())) == 0
                    && scan_pages(*old(pool), ids, row_idx as nat) is Passed),
            old(pool).clock_spec() <= final(pool).clock_spec() <= old(pool).clock_spec() + 3 * (old(
                pool,
            ).disk().len() + 1),
            old(pool).can_run(3 * (old(pool).disk().len() + 1) as int) ==> row_result(
                r,
                row_walk(*old(pool), self.first(), row_idx as nat, 0, (old(pool).disk().len() + 1) as nat),
            ),
    {
        let ghost p0 = *pool;
        let ghost total = (p0.disk().len() + 1) as nat;
        let count = pool.page_count() as u64;
        let mut current = self.first_data_page_id;
        let mut seen: usize = 0;
        let mut visited: u64 = 0;
        let ghost mut ids: Seq<u32> = Seq::empty();
        loop
            invariant
                pool.wf(),
                pool.disk().len() == p0.disk().len(),
                pool.capacity_spec() == p0.capacity_spec(),
                count == p0.disk().len(),
                p0.coherent() ==> pool.coherent() && forall|x: u32|
                    #[trigger] pool.content(x) == p0.content(x),
                p0.idle() ==> pool.idle(),
                ids.len() == visited,
                seen <= row_idx,
                p0.coherent() ==> scan_pages(p0, ids, row_idx as nat) == Scan::Passed(seen as nat),
                p0.clock_spec() <= pool.clock_spec() <= p0.clock_spec() + 3 * visited,
                visited <= count + 1,
                p0.can_run(3 * total as int) ==> row_walk(p0, self.first(), row_idx as nat, 0, total)
                    == row_walk(p0, current, row_idx as nat, seen as nat, (total - visited) as nat),
                p0.coherent() ==> (if ids.len() == 0 {
                    current == self.first()
                } else {
                    chain(p0, self.first(), ids) && current == next_link(page_body(p0, ids.last()))
                        && current != 0 && (forall|j: int| 1 <= j < ids.len() ==> #[trigger] ids[j] != 0)
                }),
            decreases count + 1 - visited,
        {
            if visited > count {
                return Err(DbError::corruption("data page chain is cyclic"));
            }
            let page = pool.read_copy(current)?;
            let ghost body = page.data@;
            let data = page.data.as_slice();
            let used = read_u32_at(data, 4) as u64;
            let end: u64 = 8 + used;
            let mut off: u64 = 8;
            let ghost seen0 = seen as nat;
            assert(data@.subrange(4, 8) == body.subrange(4, 8));
            while off < end
                invariant
                    data@ == body,
                    body.len() == PAGE_BODY_SIZE,
                    8 <= off,
                    seen <= row_idx,
                    scan(body, 8, end as int, row_idx as nat, seen0) == scan(body, off as int, end as int, row_idx as nat, seen as nat),
                decreases end - off,
            {
                if off + 4 > data.len() as u64 {
                    return Err(DbError::corruption("row length missing"));
                }
                let len = read_u32_at(data, off as usize) as u64;
                let rs = off + 4;
                let re = rs + len;
                if seen == row_idx {
                    if re > data.len() as u64 {
                        return Err(DbError::corruption("row bytes missing"));
                    }
                    let row = decode_row(&data[rs as usize..re as usize])?;
                    proof {
                        if p0.coherent() {
                            let full = if ids.len() == 0 { seq![current] } else { ids.push(current) };
                            assert(full.drop_last() =~= ids);
                            assert(page_body(p0, current) == body);
                            assert(chain(p0, self.first(), full));
                        }
                    }
                    return Ok(Some(row));
                }
                off = if re >= end { end } else { re };
                seen = seen + 1;
            }
            let next = read_u32_at(data, 0);
            proof {
                if p0.coherent() {
                    let full = ids.push(current);
                    assert(full.drop_last() =~= ids);
                    assert(page_body(p0, current) == body);
                    assert(data@.subrange(0, 4) == body.subrange(0, 4));
                    assert forall|j: int| 0 <= j < full.len() implies p0.content(#[trigger] full[j]) is Some by {}
                    assert forall|j: int| 0 <= j < full.len() - 1 implies full[j + 1] == next_link(page_body(p0, #[trigger] full[j])) by {}
                    assert(chain(p0, self.first(), full));
                }
                ids = ids.push(current);
            }
            if next == 0 {
                return Ok(None);
            }
            current = next;
            visited = visited + 1;
        }
    }
}

} // verus!
