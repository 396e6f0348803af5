use crate::codec::{read_u32_at, read_u64_at, write_at};
use crate::engine::buffer_pool::{content_of, coherent_of, lemma_content_sound, BufferPool};
use crate::engine::catalog::{catalog_map, table_position, Catalog};
use crate::engine::catalog_codec::{catalog_bytes, decode_catalog, encode_catalog, parse_catalog};
use crate::engine::page::{
    Page, PageHeader, PageType, CATALOG_CHUNK_SIZE, CATALOG_PAGE_HEADER_SIZE, META_CATALOG_PAGE_OFFSET,
    META_LAST_CHECKPOINT_LSN_OFFSET, META_LSN_OFFSET, META_PAGE_ID, PAGE_BODY_SIZE,
};
use crate::engine::pager::Pager;
use crate::engine::table::{Table, TableMeta};
use crate::engine::table_storage::{
    chain, found_row, next_link, page_body, placed, record_of, row_result, scan_pages, used_len, Scan,
    TableStorage,
};
use crate::engine::wire::row_bytes;
use crate::engine::wal_record::{decode_wal_record, encode_wal_record, WalRecord, WalRecordType};
use crate::names::same_name;
use crate::row::Row;
use crate::schema::TableSchema;
use crate::value::Value;
use crate::error::{DbError, ErrorKind};
use vstd::bytes::*;
use vstd::prelude::*;

verus! {

/// The three numbers the meta page holds: the current log sequence number,
/// the first page of the catalog, and the sequence number of the last
/// checkpoint.
pub open spec fn meta_fields(body: Seq<u8>) -> (u64, u32, u64) {
    (
        spec_u64_from_le_bytes(body.subrange(0, 8)),
        spec_u32_from_le_bytes(body.subrange(8, 12)),
        spec_u64_from_le_bytes(body.subrange(12, 20)),
    )
}

/// The bytes are an encoded catalog of these tables.
pub open spec fn decodes_to(bytes: Seq<u8>, m: Map<Seq<char>, crate::engine::table::TableMeta>) -> bool {
    match parse_catalog(bytes) {
        Ok((x, _)) => x == m,
        Err(_) => false,
    }
}

/// The catalog bytes a catalog page holds.
pub open spec fn chunk_of(body: Seq<u8>) -> Seq<u8> {
    body.subrange(CATALOG_PAGE_HEADER_SIZE as int, CATALOG_PAGE_HEADER_SIZE + used_len(body))
}

/// The catalog bytes the pages `ids` hold, one after another.
pub open spec fn chain_bytes(pool: BufferPool, ids: Seq<u32>) -> Seq<u8>
    decreases ids.len(),
{
    if ids.len() == 0 {
        Seq::empty()
    } else {
        chain_bytes(pool, ids.drop_last()) + chunk_of(page_body(pool, ids.last()))
    }
}

/// `ids` is the whole chain of catalog pages from `first`: it ends with a
/// page linking to none, and no page holds more than a chunk.
pub open spec fn catalog_chain(pool: BufferPool, first: u32, ids: Seq<u32>) -> bool {
    &&& chain(pool, first, ids)
    &&& next_link(page_body(pool, ids.last())) == 0
    &&& forall|j: int| 0 <= j < ids.len() ==> used_len(page_body(pool, #[trigger] ids[j])) <= CATALOG_CHUNK_SIZE
}

fn write_u32_into(page: &mut Page, pos: usize, v: u32)
    requires
        old(page).wf(),
        pos + 4 <= PAGE_BODY_SIZE,
    ensures
        final(page).wf(),
        final(page).header == old(page).header,
        final(page).data@ == old(page).data@.subrange(0, pos as int) + spec_u32_to_le_bytes(v)
            + old(page).data@.subrange(pos + 4, PAGE_BODY_SIZE as int),
{
    let b = u32_to_le_bytes(v);
    write_at(&mut page.data, pos, b.as_slice());
}

fn write_u64_into(page: &mut Page, pos: usize, v: u64)
    requires
        old(page).wf(),
        pos + 8 <= PAGE_BODY_SIZE,
    ensures
        final(page).wf(),
        final(page).header == old(page).header,
        final(page).data@ == old(page).data@.subrange(0, pos as int) + spec_u64_to_le_bytes(v)
            + old(page).data@.subrange(pos + 8, PAGE_BODY_SIZE as int),
{
    let b = u64_to_le_bytes(v);
    write_at(&mut page.data, pos, b.as_slice());
}

/// Reads the meta page, or sets up a new file. An empty file gets a meta
/// page (id zero) holding sequence numbers zero and catalog page one, and a
/// catalog page (id one) holding an empty catalog; the result is then
/// `(0, 1, 0)`. Otherwise the result is what the meta page holds (see
/// [`meta_fields`]).
pub fn load_or_init_meta(pool: &mut BufferPool) -> (r: Result<(u64, u32, u64), DbError>)
    requires
        old(pool).wf(),
    ensures
        final(pool).wf(),
        final(pool).capacity_spec() == old(pool).capacity_spec(),
        old(pool).coherent() ==> final(pool).coherent(),
        old(pool).idle() ==> final(pool).idle(),
        (r is Ok && old(pool).disk().len() == 0) ==> r == Ok::<(u64, u32, u64), DbError>((0, 1, 0)),
        (r is Ok && old(pool).disk().len() == 0 && old(pool).coherent()) ==> {
            &&& meta_fields(page_body(*final(pool), 0)) == (0u64, 1u32, 0u64)
            &&& next_link(page_body(*final(pool), 1)) == 0
            &&& chunk_of(page_body(*final(pool), 1)) == catalog_bytes(Seq::empty())
            &&& used_len(page_body(*final(pool), 1)) == 8
            &&& final(pool).content(0) is Some
            &&& final(pool).content(1) is Some
            &&& (final(pool).content(0)->0).0.page_type == PageType::Meta
            &&& (final(pool).content(1)->0).0.page_type == PageType::Data
        },
        (r is Ok && old(pool).disk().len() > 0 && old(pool).coherent()) ==> r == Ok::<
            (u64, u32, u64),
            DbError,
        >(meta_fields(page_body(*old(pool), 0))),
        r matches Err(e) ==> e.kind() == ErrorKind::InvalidOperation || e.kind() == ErrorKind::Corruption,
        old(pool).clock_spec() <= final(pool).clock_spec() <= old(pool).clock_spec() + 16,
        old(pool).disk().len() > 0 ==> final(pool).disk().len() == old(pool).disk().len(),
        (r is Ok && old(pool).disk().len() == 0) ==> final(pool).disk().len() == 2,
        (old(pool).disk().len() > 0 && old(pool).coherent()) ==> forall|x: u32|
            #[trigger] final(pool).content(x) == old(pool).content(x),
        (old(pool).can_run(16) && (old(pool).disk().len() > 0 ==> old(pool).content(META_PAGE_ID) is Some)) ==> r is Ok,
{
    let ghost p0 = *pool;
    if pool.page_count() == 0 {
        proof {
            if p0.idle() {
                p0.lemma_full_has_unpinned();
            }
        }
        let meta_id = pool.allocate_page(PageType::Meta)?;
        proof {
            let p1 = *pool;
            if p0.idle() {
                p1.lemma_full_has_unpinned();
            }
        }
        let cat_id = pool.allocate_page(PageType::Data)?;
        let mut meta = pool.read_copy(META_PAGE_ID)?;
        meta.header.page_type = PageType::Meta;
        write_u64_into(&mut meta, META_LSN_OFFSET, 0);
        write_u32_into(&mut meta, META_CATALOG_PAGE_OFFSET, cat_id);
        write_u64_into(&mut meta, META_LAST_CHECKPOINT_LSN_OFFSET, 0);
        let ghost mbody = meta.data@;
        proof {
            if old(pool).coherent() {
                lemma_content_sound(*pool, META_PAGE_ID);
            }
        }
        pool.write_copy(meta)?;
        let empty = Catalog::new();
        let encoded = encode_catalog(&empty)?;
        proof {
            crate::codec::lemma_le_roundtrip();
            assert(empty@.map_values(crate::engine::catalog_codec::entry_encoder()) =~= Seq::<Seq<u8>>::empty());
            assert(encoded@.len() == 8);
        }
        let mut page = pool.read_copy(cat_id)?;
        page.header.page_type = PageType::Data;
        let ghost zeroed = Seq::new(PAGE_BODY_SIZE as nat, |i: int| 0u8);
        page.data = vec![0u8; PAGE_BODY_SIZE];
        write_u32_into(&mut page, 0, 0);
        write_u32_into(&mut page, 4, encoded.len() as u32);
        write_at(&mut page.data, CATALOG_PAGE_HEADER_SIZE, encoded.as_slice());
        proof {
            if old(pool).coherent() {
                lemma_content_sound(*pool, cat_id);
            }
            lemma_auto_spec_u32_to_from_le_bytes();
            lemma_auto_spec_u64_to_from_le_bytes();
        }
        let ghost cbody = page.data@;
        pool.write_copy(page)?;
        proof {
            if old(pool).coherent() {
                assert(mbody.subrange(0, 8) =~= spec_u64_to_le_bytes(0));
                assert(mbody.subrange(8, 12) =~= spec_u32_to_le_bytes(cat_id));
                assert(mbody.subrange(12, 20) =~= spec_u64_to_le_bytes(0));
                assert(page_body(*pool, 0) == mbody);
                assert(page_body(*pool, 1) == cbody);
                assert(cbody.subrange(0, 4) =~= spec_u32_to_le_bytes(0));
                assert(cbody.subrange(4, 8) =~= spec_u32_to_le_bytes(encoded@.len() as u32));
                assert(chunk_of(cbody) =~= encoded@);
            }
        }
        Ok((0, cat_id, 0))
    } else {
        let meta = pool.read_copy(META_PAGE_ID)?;
        let data = meta.data.as_slice();
        let lsn = read_u64_at(data, META_LSN_OFFSET);
        let cat = read_u32_at(data, META_CATALOG_PAGE_OFFSET);
        let ckpt = read_u64_at(data, META_LAST_CHECKPOINT_LSN_OFFSET);
        Ok((lsn, cat, ckpt))
    }
}


/// The catalog bytes the chain of catalog pages from `current` holds,
/// reading at most `fuel` pages; `None` where a page cannot be read, holds
/// more than a chunk, or the chain needs more pages than the fuel.
pub open spec fn catalog_walk(pool: BufferPool, current: u32, fuel: nat) -> Option<Seq<u8>>
    decreases fuel,
{
    if fuel == 0 {
        None
    } else {
        match pool.content(current) {
            None => None,
            Some((_, body)) => if used_len(body) > CATALOG_CHUNK_SIZE {
                None
            } else if next_link(body) == 0 {
                Some(chunk_of(body))
            } else {
                match catalog_walk(pool, next_link(body), (fuel - 1) as nat) {
                    None => None,
                    Some(rest) => Some(chunk_of(body) + rest),
                }
            },
        }
    }
}

/// The corruption a walk of the catalog chain from `current` runs into, if
/// any: a page holding more than a chunk, or a chain longer than `fuel`
/// pages (one that comes back on itself). `None` where the walk ends well or
/// stops at a page that cannot be read.
pub open spec fn catalog_walk_fault(pool: BufferPool, current: u32, fuel: nat) -> Option<ErrorKind>
    decreases fuel,
{
    if fuel == 0 {
        Some(ErrorKind::Corruption)
    } else {
        match pool.content(current) {
            None => None,
            Some((_, body)) => if used_len(body) > CATALOG_CHUNK_SIZE {
                Some(ErrorKind::Corruption)
            } else if next_link(body) == 0 {
                None
            } else {
                catalog_walk_fault(pool, next_link(body), (fuel - 1) as nat)
            },
        }
    }
}

/// The pages of the chain of catalog pages from `current` (zero ends it),
/// after the pages `seen`; `None` where a page comes back, cannot be read,
/// or the chain needs more than `fuel` pages.
pub open spec fn id_walk(pool: BufferPool, current: u32, seen: Seq<u32>, fuel: nat) -> Option<Seq<u32>>
    decreases fuel,
{
    if current == 0 {
        Some(seen)
    } else if fuel == 0 || seen.contains(current) {
        None
    } else {
        match pool.content(current) {
            None => None,
            Some((_, body)) => id_walk(pool, next_link(body), seen.push(current), (fuel - 1) as nat),
        }
    }
}

/// A walk that succeeds keeps the pages seen before it and adds only
/// pages that can be read.
proof fn lemma_id_walk(pool: BufferPool, current: u32, seen: Seq<u32>, fuel: nat)
    requires
        id_walk(pool, current, seen, fuel) is Some,
    ensures
        ({
            let ids = id_walk(pool, current, seen, fuel)->0;
            &&& ids.len() >= seen.len()
            &&& ids.len() <= seen.len() + fuel
            &&& ids.subrange(0, seen.len() as int) == seen
            &&& forall|j: int| seen.len() <= j < ids.len() ==> pool.content(#[trigger] ids[j]) is Some
        }),
    decreases fuel,
{
    if current == 0 {
        assert(seen.subrange(0, seen.len() as int) =~= seen);
    } else {
        let body = (pool.content(current)->0).1;
        let s2 = seen.push(current);
        lemma_id_walk(pool, next_link(body), s2, (fuel - 1) as nat);
        let ids = id_walk(pool, current, seen, fuel)->0;
        assert(ids.subrange(0, s2.len() as int) == s2);
        assert(ids.subrange(0, seen.len() as int) =~= s2.subrange(0, seen.len() as int));
        assert(s2.subrange(0, seen.len() as int) =~= seen);
        assert(ids[seen.len() as int] == ids.subrange(0, s2.len() as int)[seen.len() as int]);
    }
}

/// A walk reads only the content of pages.
proof fn lemma_id_walk_same(a: BufferPool, b: BufferPool, current: u32, seen: Seq<u32>, fuel: nat)
    requires
        forall|x: u32| #[trigger] a.content(x) == b.content(x),
    ensures
        id_walk(a, current, seen, fuel) == id_walk(b, current, seen, fuel),
    decreases fuel,
{
    if current != 0 && fuel > 0 && !seen.contains(current) {
        assert(a.content(current) == b.content(current));
        if let Some((_, body)) = a.content(current) {
            lemma_id_walk_same(a, b, next_link(body), seen.push(current), (fuel - 1) as nat);
        }
    }
}

/// A walk that succeeds on one pool gives the same on a pool that differs
/// only at a page the walk could not read, with at least as much fuel.
proof fn lemma_id_walk_frame(a: BufferPool, b: BufferPool, current: u32, seen: Seq<u32>, fa: nat, fb: nat, n: u32)
    requires
        forall|x: u32| x != n ==> #[trigger] a.content(x) == b.content(x),
        a.content(n) is None,
        id_walk(a, current, seen, fa) is Some,
        fb >= fa,
    ensures
        id_walk(b, current, seen, fb) == id_walk(a, current, seen, fa),
    decreases fa,
{
    if current != 0 {
        assert(a.content(current) is Some);
        assert(current != n);
        assert(a.content(current) == b.content(current));
        let body = (a.content(current)->0).1;
        lemma_id_walk_frame(a, b, next_link(body), seen.push(current), (fa - 1) as nat, (fb - 1) as nat, n);
    }
}

/// Putting an entry in a catalog adds its bytes to the encoding.
proof fn lemma_catalog_bytes_insert(entries: Seq<(Seq<char>, TableMeta)>, pos: int, e: (Seq<char>, TableMeta))
    requires
        0 <= pos <= entries.len(),
    ensures
        catalog_bytes(entries.insert(pos, e)).len() == catalog_bytes(entries).len()
            + crate::engine::catalog_codec::entry_bytes(e).len(),
{
    let f = crate::engine::catalog_codec::entry_encoder();
    let m = entries.map_values(f);
    let a = m.subrange(0, pos);
    let b = m.subrange(pos, m.len() as int);
    assert(entries.insert(pos, e).map_values(f) =~= a + seq![f(e)] + b);
    assert(m =~= a + b);
    vstd::seq_lib::lemma_flatten_concat(a, b);
    vstd::seq_lib::lemma_flatten_concat(a + seq![f(e)], b);
    vstd::seq_lib::lemma_flatten_concat(a, seq![f(e)]);
    seq![f(e)].lemma_flatten_one_element();
    lemma_auto_spec_u32_to_from_le_bytes();
}

/// A table with this schema can be created in `s` and the catalog then
/// written over its catalog pages and the pages changed logged: the file
/// can grow by a page and by the catalog pages the chain lacks, the
/// catalog with the new table can be encoded, and the pool's clock and the
/// sequence numbers have room for the work.
pub open spec fn create_ok(s: FileStorage, schema: crate::schema::SchemaModel) -> bool {
    let n = s.pool().disk().len();
    let t = TableMeta {
        schema,
        read_only: false,
        data_page_id: Some(n as u32),
        index_root_page_id: None,
        next_row_id: 0,
    };
    &&& s.tables_spec().len() < u32::MAX
    &&& crate::engine::catalog_codec::table_encodable(t)
    &&& forall|i: int| 0 <= i < s.tables_spec().len() ==> crate::engine::catalog_codec::table_encodable(
        #[trigger] s.tables_spec()[i].1,
    )
    &&& id_walk(s.pool(), s.catalog_page(), Seq::empty(), (n + 1) as nat) matches Some(ids) && {
        let m = catalog_need(
            ids.len() as int,
            (catalog_bytes(s.tables_spec()).len() + crate::engine::catalog_codec::entry_bytes((schema.name, t)).len()) as int,
        );
        &&& ids.len() > 0
        &&& n + 1 + m < u32::MAX
        &&& s.pool().can_run((8 + 3 * (n + 2) + 11 * m + 3 * s.pool().capacity_spec()) as int)
        &&& s.lsn() + m + s.pool().capacity_spec() <= u64::MAX
    }
}

/// The body of page `x` of a file of `pages`, read with nothing cached.
pub open spec fn file_body(pages: Seq<Seq<u8>>, x: u32) -> Seq<u8> {
    (content_of(Map::empty(), pages, x)->0).1
}

/// [`catalog_walk`] over the pages of a file, read with nothing cached.
pub open spec fn file_catalog_walk(pages: Seq<Seq<u8>>, current: u32, fuel: nat) -> Option<Seq<u8>>
    decreases fuel,
{
    if fuel == 0 {
        None
    } else {
        match content_of(Map::empty(), pages, current) {
            None => None,
            Some((_, body)) => if used_len(body) > CATALOG_CHUNK_SIZE {
                None
            } else if next_link(body) == 0 {
                Some(chunk_of(body))
            } else {
                match file_catalog_walk(pages, next_link(body), (fuel - 1) as nat) {
                    None => None,
                    Some(rest) => Some(chunk_of(body) + rest),
                }
            },
        }
    }
}

/// The catalog of a file of `pages` can be read: the chain from the
/// catalog page its meta page names holds an encoded catalog.
pub open spec fn file_catalog_ok(pages: Seq<Seq<u8>>) -> bool {
    match file_catalog_walk(pages, meta_fields(file_body(pages, 0)).1, (pages.len() + 1) as nat) {
        Some(b) => parse_catalog(b) is Ok,
        None => false,
    }
}

proof fn lemma_walk_file(pool: BufferPool, pages: Seq<Seq<u8>>, current: u32, fuel: nat)
    requires
        forall|x: u32| #[trigger] pool.content(x) == content_of(Map::empty(), pages, x),
    ensures
        catalog_walk(pool, current, fuel) == file_catalog_walk(pages, current, fuel),
    decreases fuel,
{
    if fuel > 0 {
        assert(pool.content(current) == content_of(Map::empty(), pages, current));
        if let Some((_, body)) = pool.content(current) {
            lemma_walk_file(pool, pages, next_link(body), (fuel - 1) as nat);
        }
    }
}

/// `r` is what reading a catalog whose pages walk as `w` gives: a failure
/// where the walk fails, else what decoding the bytes gives.
pub open spec fn catalog_result(r: Result<Catalog, DbError>, w: Option<Seq<u8>>) -> bool {
    match w {
        None => r is Err,
        Some(bytes) => match parse_catalog(bytes) {
            Ok((m, _)) => (r matches Ok(c) && catalog_map(c@) == m),
            Err(k) => (r matches Err(e) && e.kind() == k),
        },
    }
}

/// Reads the catalog stored in the chain of catalog pages from `first`:
/// each page links to the next and holds a chunk of the encoded catalog. A
/// page holding more than a chunk, or a chain that comes back on itself, is
/// corruption. On a coherent pool the content of every page is kept, and a
/// catalog read is the one the chain's chunks encode.
#[verifier::loop_isolation(false)]
#[verifier::spinoff_prover]
#[verifier::rlimit(100)]
pub fn load_catalog(pool: &mut BufferPool, first: u32) -> (r: Result<Catalog, DbError>)
    requires
        old(pool).wf(),
    ensures
        final(pool).wf(),
        final(pool).capacity_spec() == old(pool).capacity_spec(),
        final(pool).disk().len() == old(pool).disk().len(),
        old(pool).coherent() ==> final(pool).coherent() && forall|x: u32|
            #[trigger] final(pool).content(x) == old(pool).content(x),
        old(pool).idle() ==> final(pool).idle(),
        r matches Ok(c) ==> c.wf(),
        (r is Ok && old(pool).coherent()) ==> exists|ids: Seq<u32>|
            #[trigger] catalog_chain(*old(pool), first, ids) && decodes_to(
                chain_bytes(*old(pool), ids),
                catalog_map((r->Ok_0)@),
            ),
        old(pool).clock_spec() <= final(pool).clock_spec() <= old(pool).clock_spec() + 3 * (old(
            pool,
        ).disk().len() + 1),
        old(pool).can_read(3 * (old(pool).disk().len() + 1) as int) ==> catalog_result(
            r,
            catalog_walk(*old(pool), first, (old(pool).disk().len() + 1) as nat),
        ),
        old(pool).can_read(3 * (old(pool).disk().len() + 1) as int) ==> (catalog_walk_fault(
            *old(pool),
            first,
            (old(pool).disk().len() + 1) as nat,
        ) matches Some(k) ==> (r matches Err(e) && e.kind() == k)),
{
    let ghost p0 = *pool;
    let ghost total = (p0.disk().len() + 1) as nat;
    let count = pool.page_count() as u64;
    let mut data: Vec<u8> = Vec::new();
    let mut current = first;
    let mut visited: u64 = 0;
    let ghost mut ids: Seq<u32> = Seq::empty();
    loop
        invariant
            pool.wf(),
            pool.disk().len() == p0.disk().len(),
            pool.capacity_spec() == p0.capacity_spec(),
            count == p0.disk().len(),
            p0.coherent() ==> pool.coherent() && forall|x: u32|
                #[trigger] pool.content(x) == p0.content(x),
            p0.idle() ==> pool.idle(),
            p0.can_read(3 * total as int) ==> pool.roomy(),
            ids.len() == visited,
            p0.coherent() ==> data@ == chain_bytes(p0, ids),
            p0.clock_spec() <= pool.clock_spec() <= p0.clock_spec() + 3 * visited,
            visited <= count + 1,
            p0.can_read(3 * total as int) ==> catalog_walk(p0, first, total) == match catalog_walk(
                p0,
                current,
                (total - visited) as nat,
            ) {
                None => None,
                Some(rest) => Some(data@ + rest),
            },
            p0.can_read(3 * total as int) ==> catalog_walk_fault(p0, first, total) == catalog_walk_fault(
                p0,
                current,
                (total - visited) as nat,
            ),
            p0.coherent() ==> (if ids.len() == 0 {
                current == first
            } else {
                chain(p0, first, ids) && current == next_link(page_body(p0, ids.last())) && current != 0
                    && forall|j: int| 0 <= j < ids.len() ==> used_len(page_body(p0, #[trigger] ids[j])) <= CATALOG_CHUNK_SIZE
            }),
        decreases count + 1 - visited,
    {
        if visited > count {
            return Err(DbError::corruption("catalog page chain is cyclic"));
        }
        let page = pool.read_copy(current)?;
        let ghost body = page.data@;
        let bytes = page.data.as_slice();
        let next = read_u32_at(bytes, 0);
        let used = read_u32_at(bytes, 4) as usize;
        assert(bytes@.subrange(0, 4) == body.subrange(0, 4));
        assert(bytes@.subrange(4, 8) == body.subrange(4, 8));
        if used > CATALOG_CHUNK_SIZE {
            return Err(DbError::corruption("used_len exceeds chunk size"));
        }
        let ghost before = data@;
        crate::codec::push_bytes(&mut data, &bytes[CATALOG_PAGE_HEADER_SIZE..CATALOG_PAGE_HEADER_SIZE + used]);
        let ghost full = ids.push(current);
        proof {
            if p0.coherent() {
                assert(full.drop_last() =~= ids);
                assert(page_body(p0, current) == body);
                assert forall|j: int| 0 <= j < full.len() implies p0.content(#[trigger] full[j]) is Some by {}
                assert forall|j: int| 0 <= j < full.len() - 1 implies full[j + 1] == next_link(page_body(p0, #[trigger] full[j])) by {}
                assert(chain(p0, first, full));
                assert(data@ == chain_bytes(p0, full));
            }
            ids = full;
        }
        if next == 0 {
            break;
        }
        current = next;
        visited = visited + 1;
    }
    let catalog = decode_catalog(data.as_slice())?;
    proof {
        if p0.coherent() {
            assert(catalog_chain(p0, first, ids));
        }
    }
    Ok(catalog)
}


/// The tables of the catalog that have data pages, with their first data
/// page, in the catalog's order.
pub open spec fn data_pages_of(entries: Seq<(Seq<char>, TableMeta)>) -> Seq<(Seq<char>, u32)>
    decreases entries.len(),
{
    if entries.len() == 0 {
        Seq::empty()
    } else {
        let rest = data_pages_of(entries.drop_last());
        match entries.last().1.data_page_id {
            Some(id) => rest.push((entries.last().0, id)),
            None => rest,
        }
    }
}

/// The paged storage engine over one database file and its write-ahead log.
///
/// The file's pages live in the buffer pool's pager; whoever owns the files
/// stores the pager's bytes back, appends the log payloads that
/// [`FileStorage::take_log`] hands over, and empties the log file when it
/// says so.
#[derive(Debug)]
pub struct FileStorage {
    buffer_pool: BufferPool,
    catalog: Catalog,
    current_lsn: u64,
    catalog_page_id: u32,
    last_checkpoint_lsn: u64,
    table_names: Vec<String>,
    table_data: Vec<TableStorage>,
    log_out: Vec<Vec<u8>>,
    log_reset: bool,
}

impl FileStorage {
    pub closed spec fn wf(&self) -> bool {
        &&& self.buffer_pool.wf()
        &&& self.catalog.wf()
        &&& self.table_names@.len() == self.table_data@.len()
    }

    /// The tables of the catalog.
    pub closed spec fn tables_spec(&self) -> Seq<(Seq<char>, TableMeta)> {
        self.catalog@
    }

    /// The current log sequence number.
    pub closed spec fn lsn(&self) -> u64 {
        self.current_lsn
    }

    /// The sequence number of the last checkpoint.
    pub closed spec fn checkpoint_lsn(&self) -> u64 {
        self.last_checkpoint_lsn
    }

    /// The first page of the stored catalog.
    pub closed spec fn catalog_page(&self) -> u32 {
        self.catalog_page_id
    }

    /// The pages as the buffer pool shows them.
    pub closed spec fn pool(&self) -> BufferPool {
        self.buffer_pool
    }

    /// Log payloads not yet handed over.
    pub closed spec fn log_pending(&self) -> Seq<Seq<u8>> {
        self.log_out@.map_values(|b: Vec<u8>| b@)
    }

    /// Whether the log file must be emptied before the pending payloads are
    /// appended.
    pub closed spec fn log_reset_spec(&self) -> bool {
        self.log_reset
    }

    /// The first data page of each table with rows, by name.
    pub closed spec fn data_pages(&self) -> Seq<(Seq<char>, u32)> {
        Seq::new(
            self.table_names@.len(),
            |i: int| (self.table_names@[i]@, self.table_data@[i].first()),
        )
    }

    fn find_data(&self, name: &str) -> (r: Option<usize>)
        requires
            self.wf(),
        ensures
            r matches Some(i) ==> i < self.data_pages().len() && self.data_pages()[i as int].0 == name@,
            r matches Some(i) ==> forall|j: int| 0 <= j < i ==> #[trigger] self.data_pages()[j].0 != name@,
            r is None ==> forall|i: int| 0 <= i < self.data_pages().len() ==> #[trigger] self.data_pages()[i].0 != name@,
    {
        let mut i: usize = 0;
        while i < self.table_names.len()
            invariant
                self.wf(),
                i <= self.table_names@.len(),
                forall|k: int| 0 <= k < i ==> #[trigger] self.data_pages()[k].0 != name@,
            decreases self.table_names@.len() - i,
        {
            if same_name(self.table_names[i].as_str(), name) {
                return Some(i);
            }
            i = i + 1;
        }
        None
    }

    /// Opens the engine over the bytes of the database file and the payloads
    /// read from the log: the meta page is read (or a new file set up), the
    /// log records after the last checkpoint are applied, the catalog is read
    /// (the last applied snapshot, else the catalog pages), and a checkpoint
    /// is taken.
    #[verifier::spinoff_prover]
    #[verifier::rlimit(100)]
    pub fn open_with(pager: Pager, cache_capacity: usize, log_payloads: &[Vec<u8>]) -> (r: Result<
        Self,
        DbError,
    >)
        requires
            pager.wf(),
        ensures
            r matches Ok(s) ==> s.wf() && s.log_reset_spec() && s.log_pending().len() == 0 && s.checkpoint_lsn()
                == s.lsn(),
            cache_capacity == 0 ==> r is Err,
            (cache_capacity > 0 && log_payloads@.len() == 0 && pager@.len() == 0 && 2 * cache_capacity + 64
                <= u64::MAX) ==> r is Ok,
            r matches Ok(s) ==> ((log_payloads@.len() == 0 && pager@.len() == 0) ==> s.tables_spec().len() == 0),
            r matches Ok(s) ==> ((log_payloads@.len() == 0 && pager@.len() > 0 && coherent_of(Map::empty(), pager@)
                && 26 + 3 * pager@.len() <= u64::MAX) ==> match file_catalog_walk(
                pager@,
                meta_fields(file_body(pager@, 0)).1,
                (pager@.len() + 1) as nat,
            ) {
                Some(b) => parse_catalog(b) matches Ok((m, _)) && catalog_map(s.tables_spec()) == m,
                None => false,
            }),
            r matches Ok(s) ==> ((pager@.len() == 0 || coherent_of(Map::empty(), pager@)) ==> (last_logged_snapshot(
                log_payloads@.map_values(|p: Vec<u8>| p@),
                file_checkpoint_lsn(pager@),
            ) matches Some(b) ==> (parse_catalog(b) matches Ok((m, _)) && catalog_map(s.tables_spec()) == m))),
    {
        let ghost pages = pager@;
        let mut buffer_pool = BufferPool::new(pager, cache_capacity)?;
        let ghost p0 = buffer_pool;
        proof {
            assert forall|x: u32| #[trigger] p0.content(x) == content_of(Map::empty(), pages, x) by {
                assert(p0.cache() == Map::<u32, crate::engine::buffer_pool::CachedPage>::empty());
            }
            assert(p0.idle());
        }
        let (current_lsn, catalog_page_id, last_checkpoint_lsn) = load_or_init_meta(&mut buffer_pool)?;
        let ghost p1 = buffer_pool;
        proof {
            if p0.coherent() && pages.len() > 0 {
                assert(catalog_page_id == meta_fields(file_body(pages, 0)).1);
                lemma_walk_file(p1, pages, catalog_page_id, (pages.len() + 1) as nat);
            }
            if p0.coherent() && pages.len() == 0 {
                let b1 = page_body(p1, 1);
                crate::engine::catalog_laws::lemma_catalog_roundtrip(Seq::empty());
                assert(catalog_walk(p1, 1, 3) == Some(chunk_of(b1)));
            }
        }
        let mut storage = FileStorage {
            buffer_pool,
            catalog: Catalog::new(),
            current_lsn,
            catalog_page_id,
            last_checkpoint_lsn,
            table_names: Vec::new(),
            table_data: Vec::new(),
            log_out: Vec::new(),
            log_reset: false,
        };
        let mut records: Vec<WalRecord> = Vec::new();
        let mut i: usize = 0;
        while i < log_payloads.len()
            invariant
                i <= log_payloads@.len(),
                records@.len() == i,
                forall|k: int| 0 <= k < i ==> crate::engine::wal_record::wal_record_bytes(
                    (#[trigger] records@[k]).lsn,
                    records@[k].record_type,
                    records@[k].data@,
                ) == log_payloads@[k]@,
            decreases log_payloads@.len() - i,
        {
            records.push(decode_wal_record(log_payloads[i].as_slice())?);
            i = i + 1;
        }
        proof {
            let views = log_payloads@.map_values(|p: Vec<u8>| p@);
            assert forall|k: int| 0 <= k < records@.len() implies crate::engine::wal_record::wal_record_bytes(
                (#[trigger] records@[k]).lsn,
                records@[k].record_type,
                records@[k].data@,
            ) == views[k] by {}
            lemma_last_snapshot_payloads(records@, views, storage.checkpoint_lsn());
            if pages.len() > 0 && p0.coherent() {
                assert(storage.checkpoint_lsn() == file_checkpoint_lsn(pages));
            }
        }
        let snapshot = storage.apply_wal_records(records.as_slice())?;
        match snapshot {
            Some(c) => {
                storage.catalog = c;
            },
            None => {
                proof {
                    let t = 3 * (storage.buffer_pool.disk().len() + 1) as int;
                    if storage.buffer_pool.can_run(t) {
                        storage.buffer_pool.lemma_can_run_read(t);
                    }
                }
                storage.catalog = load_catalog(&mut storage.buffer_pool, storage.catalog_page_id)?;
            },
        }
        storage.rebuild_table_data();
        proof {
            if cache_capacity > 0 && log_payloads@.len() == 0 && pages.len() == 0 {
                assert(catalog_map(Seq::<(Seq<char>, TableMeta)>::empty()) =~= Map::<Seq<char>, TableMeta>::empty());
                lemma_no_tables(storage.tables_spec());
            }
            if cache_capacity > 0 && log_payloads@.len() == 0 && pages.len() == 0 && 2 * cache_capacity + 64
                <= u64::MAX {
                let p = storage.pool();
                lemma_auto_spec_u32_to_from_le_bytes();
                assert(catalog_bytes(storage.tables_spec()) =~= catalog_bytes(Seq::empty()));
                assert(catalog_bytes(storage.tables_spec()).len() == 8);
                let c = CATALOG_CHUNK_SIZE as int;
                assert(8int / c == 0 && 8int % c == 8) by (nonlinear_arith)
                    requires
                        c == 4072,
                ;
                assert(chunk_count(8) == 1);
                assert(p.content(1) is Some);
                assert(id_walk(p, 0, seq![1u32], 2) == Some(seq![1u32]));
                assert(id_walk(p, 1, Seq::empty(), 3) == Some(seq![1u32]));
                assert(catalog_pages_ok(storage, storage.tables_spec()));
                assert(checkpoint_ok(storage));
            }
        }
        storage.checkpoint()?;
        Ok(storage)
    }

    fn rebuild_table_data(&mut self)
        requires
            old(self).wf(),
        ensures
            final(self).wf(),
            final(self).tables_spec() == old(self).tables_spec(),
            final(self).lsn() == old(self).lsn(),
            final(self).checkpoint_lsn() == old(self).checkpoint_lsn(),
            final(self).catalog_page() == old(self).catalog_page(),
            final(self).pool() == old(self).pool(),
            final(self).log_pending() == old(self).log_pending(),
            final(self).log_reset_spec() == old(self).log_reset_spec(),
            final(self).data_pages() == data_pages_of(old(self).tables_spec()),
    {
        let entries = self.catalog.tables();
        let ghost view = self.catalog@;
        let mut names: Vec<String> = Vec::new();
        let mut data: Vec<TableStorage> = Vec::new();
        let mut i: usize = 0;
        while i < entries.len()
            invariant
                i <= entries@.len(),
                entries@.len() == view.len(),
                forall|k: int| 0 <= k < entries@.len() ==> (#[trigger] entries@[k]).0@ == view[k].0 && entries@[k].1@ == view[k].1,
                names@.len() == data@.len(),
                Seq::new(names@.len(), |j: int| (names@[j]@, data@[j].first())) == data_pages_of(view.subrange(0, i as int)),
            decreases entries@.len() - i,
        {
            proof {
                assert(view.subrange(0, i + 1).drop_last() =~= view.subrange(0, i as int));
            }
            let (name, table) = entries[i];
            match table.data_page_id() {
                Some(id) => {
                    names.push(name.to_owned());
                    data.push(TableStorage::from_first_page_id(id));
                },
                None => {},
            }
            proof {
                let ghost_pairs = Seq::new(names@.len(), |j: int| (names@[j]@, data@[j].first()));
                assert(ghost_pairs =~= data_pages_of(view.subrange(0, i + 1)));
            }
            i = i + 1;
        }
        proof {
            assert(view.subrange(0, i as int) =~= view);
        }
        self.table_names = names;
        self.table_data = data;
        proof {
            assert(self.data_pages() =~= data_pages_of(view));
        }
    }

    /// Applies the log records whose sequence number is past the last
    /// checkpoint, in order: a page write puts the page in place, a snapshot
    /// gives the catalog and the sequence number it holds. The last snapshot
    /// applied, if any, is returned. On a coherent pool, with records that
    /// replay cleanly, every page then shows what the last page write to it
    /// held (see [`replayed_content`]).
    #[verifier::spinoff_prover]
    #[verifier::rlimit(100)]
    pub fn apply_wal_records(&mut self, records: &[WalRecord]) -> (r: Result<Option<Catalog>, DbError>)
        requires
            old(self).wf(),
        ensures
            final(self).wf(),
            final(self).tables_spec() == old(self).tables_spec(),
            final(self).checkpoint_lsn() == old(self).checkpoint_lsn(),
            final(self).catalog_page() == old(self).catalog_page(),
            r matches Ok(Some(c)) ==> c.wf(),
            (r is Ok && forall|i: int| 0 <= i < records@.len() ==> #[trigger] records@[i].lsn <= old(self).checkpoint_lsn())
                ==> final(self).lsn() == old(self).lsn() && r == Ok::<Option<Catalog>, DbError>(None),
            (forall|i: int| 0 <= i < records@.len() ==> #[trigger] records@[i].lsn <= old(self).checkpoint_lsn())
                ==> final(self).pool() == old(self).pool(),
            (old(self).pool().can_run((3 * records@.len()) as int) && old(self).pool().readable() && replay_ok(
                records@,
                old(self).checkpoint_lsn(),
                old(self).pool().disk().len(),
            )) ==> r is Ok,
            final(self).pool().disk().len() == old(self).pool().disk().len(),
            final(self).pool().capacity_spec() == old(self).pool().capacity_spec(),
            old(self).pool().clock_spec() <= final(self).pool().clock_spec() <= old(self).pool().clock_spec() + 3
                * records@.len(),
            final(self).data_pages() == old(self).data_pages(),
            final(self).log_pending() == old(self).log_pending(),
            final(self).log_reset_spec() == old(self).log_reset_spec(),
            r matches Ok(Some(c)) ==> (last_snapshot(records@, old(self).checkpoint_lsn()) matches Some(b) && parse_catalog(
                b,
            ) matches Ok((m, _)) && catalog_map(c@) == m),
            r matches Ok(None) ==> last_snapshot(records@, old(self).checkpoint_lsn()) is None,
            (r is Ok && old(self).pool().coherent() && replay_ok(records@, old(self).checkpoint_lsn(), old(self).pool().disk().len()))
                ==> final(self).pool().coherent() && forall|x: u32| #[trigger] final(self).pool().content(x)
                == replayed_content(old(self).pool(), records@, old(self).checkpoint_lsn(), x),
    {
        let ghost p0 = self.pool();
        let ghost rp = p0.coherent() && replay_ok(records@, self.checkpoint_lsn(), p0.disk().len());
        let ghost ok = p0.can_run((3 * records@.len()) as int) && p0.readable() && replay_ok(records@, self.checkpoint_lsn(), p0.disk().len());
        let mut snapshot: Option<Catalog> = None;
        let mut i: usize = 0;
        while i < records.len()
            invariant
                self.wf(),
                i <= records@.len(),
                p0 == old(self).pool(),
                ok == (p0.can_run((3 * records@.len()) as int) && p0.readable() && replay_ok(records@, old(self).checkpoint_lsn(), p0.disk().len())),
                ok ==> self.pool().readable(),
                rp == (p0.coherent() && replay_ok(records@, old(self).checkpoint_lsn(), p0.disk().len())),
                rp ==> self.pool().coherent() && forall|x: u32| #[trigger] self.pool().content(x) == replayed_content(
                    p0,
                    records@.subrange(0, i as int),
                    old(self).checkpoint_lsn(),
                    x,
                ),
                self.pool().disk().len() == p0.disk().len(),
                self.pool().capacity_spec() == p0.capacity_spec(),
                p0.clock_spec() <= self.pool().clock_spec() <= p0.clock_spec() + 3 * i,
                ok ==> self.pool().coherent() && self.pool().idle(),
                self.data_pages() == old(self).data_pages(),
                self.log_pending() == old(self).log_pending(),
                self.log_reset_spec() == old(self).log_reset_spec(),
                self.tables_spec() == old(self).tables_spec(),
                self.checkpoint_lsn() == old(self).checkpoint_lsn(),
                self.catalog_page() == old(self).catalog_page(),
                snapshot matches Some(c) ==> c.wf(),
                snapshot matches Some(c) ==> (last_snapshot(records@.subrange(0, i as int), old(self).checkpoint_lsn())
                    matches Some(b) && parse_catalog(b) matches Ok((m, _)) && catalog_map(c@) == m),
                snapshot is None ==> last_snapshot(records@.subrange(0, i as int), old(self).checkpoint_lsn()) is None,
                (forall|k: int| 0 <= k < i ==> #[trigger] records@[k].lsn <= old(self).checkpoint_lsn()) ==> (
                self.lsn() == old(self).lsn() && snapshot is None && self.pool() == old(self).pool()),
            decreases records@.len() - i,
        {
            let record = &records[i];
            proof {
                assert(records@.subrange(0, i + 1).drop_last() =~= records@.subrange(0, i as int));
                assert(records@.subrange(0, i + 1).last() == records@[i as int]);
                if ok && record.lsn > self.checkpoint_lsn() {
                    assert(record_ok(records@[i as int], p0.disk().len()));
                    if record.record_type == WalRecordType::PageWrite {
                        let id = spec_u32_from_le_bytes(record.data@.subrange(0, 4));
                        assert(self.pool().content(id) is Some);
                    }
                }
            }
            if record.lsn > self.last_checkpoint_lsn {
                match record.record_type {
                    WalRecordType::PageWrite => {
                        let ghost q0 = self.pool();
                        self.apply_page_write(record)?;
                        proof {
                            if rp {
                                let q1 = self.pool();
                                let pre = records@.subrange(0, i + 1);
                                assert(record_ok(records@[i as int], p0.disk().len()));
                                assert forall|x: u32| #[trigger] q1.content(x) == replayed_content(
                                    p0,
                                    pre,
                                    old(self).checkpoint_lsn(),
                                    x,
                                ) by {
                                    assert(q0.content(x) == replayed_content(p0, pre.drop_last(), old(self).checkpoint_lsn(), x));
                                }
                            }
                            if ok {
                                let q1 = self.pool();
                                assert forall|x: u32| x < q1.disk().len() implies #[trigger] q1.content(x) is Some by {
                                    assert(q0.content(x) is Some);
                                }
                            }
                        }
                    },
                    WalRecordType::Snapshot => {
                        let (lsn, catalog) = decode_snapshot(record.data.as_slice())?;
                        snapshot = Some(catalog);
                        self.current_lsn = lsn;
                    },
                }
            }
            i = i + 1;
        }
        proof {
            assert(records@.subrange(0, i as int) =~= records@);
        }
        Ok(snapshot)
    }

    /// Puts back the page a page-write record holds: its data is a page id,
    /// then the page's stored bytes. Data shorter than an id and a page, or
    /// bytes that do not describe a page, is corruption. The page is put in
    /// the cache at that id, marked changed, and the record's sequence number
    /// becomes the current one.
    pub fn apply_page_write(&mut self, record: &WalRecord) -> (r: Result<(), DbError>)
        requires
            old(self).wf(),
        ensures
            final(self).wf(),
            final(self).tables_spec() == old(self).tables_spec(),
            final(self).checkpoint_lsn() == old(self).checkpoint_lsn(),
            final(self).catalog_page() == old(self).catalog_page(),
            r is Ok ==> final(self).lsn() == record.lsn,
            r is Err ==> final(self).lsn() == old(self).lsn(),
            record.data@.len() < 4 + crate::engine::page::PAGE_SIZE ==> r is Err,
            r is Ok ==> (crate::engine::page::parse_page(record.data@.subrange(4, record.data@.len() as int))
                is Some && final(self).pool().cache().contains_key(spec_u32_from_le_bytes(
                record.data@.subrange(0, 4),
            )) && final(self).pool().content(spec_u32_from_le_bytes(record.data@.subrange(0, 4)))
                == crate::engine::page::parse_page(record.data@.subrange(4, record.data@.len() as int))),
            (record.data@.len() != 4 + crate::engine::page::PAGE_SIZE || crate::engine::page::parse_page(
                record.data@.subrange(4, record.data@.len() as int),
            ) is None) ==> (r matches Err(e) && e.kind() == ErrorKind::Corruption),
            (record.data@.len() == 4 + crate::engine::page::PAGE_SIZE && crate::engine::page::parse_page(
                record.data@.subrange(4, record.data@.len() as int),
            ) is Some && old(self).pool().can_run(3) && old(self).pool().content(
                spec_u32_from_le_bytes(record.data@.subrange(0, 4)),
            ) is Some) ==> r is Ok,
            final(self).pool().disk().len() == old(self).pool().disk().len(),
            final(self).pool().capacity_spec() == old(self).pool().capacity_spec(),
            old(self).pool().clock_spec() <= final(self).pool().clock_spec() <= old(self).pool().clock_spec() + 3,
            final(self).data_pages() == old(self).data_pages(),
            final(self).log_pending() == old(self).log_pending(),
            final(self).log_reset_spec() == old(self).log_reset_spec(),
            page_write_ok(record.data@) ==> (old(self).pool().idle() ==> final(self).pool().idle()),
            page_write_ok(record.data@) ==> (old(self).pool().coherent() ==> final(self).pool().coherent()),
            (page_write_ok(record.data@) && old(self).pool().coherent() && r is Ok) ==> forall|x: u32|
                #[trigger] final(self).pool().content(x) == if x == spec_u32_from_le_bytes(record.data@.subrange(0, 4)) {
                    crate::engine::page::parse_page(record.data@.subrange(4, record.data@.len() as int))
                } else {
                    old(self).pool().content(x)
                },
    {
        proof {
            if old(self).pool().idle() {
                old(self).buffer_pool.lemma_full_has_unpinned();
            }
        }
        if record.data.len() < 4 + crate::engine::page::PAGE_SIZE {
            return Err(DbError::corruption("invalid PageWrite record size"));
        }
        let data = record.data.as_slice();
        let page_id = read_u32_at(data, 0);
        let page = Page::from_bytes(&data[4..data.len()])?;
        proof {
            crate::engine::page::lemma_parsed_page(data@.subrange(4, data@.len() as int));
        }
        if page.header.page_id == page_id {
            self.buffer_pool.write_copy(page)?;
        } else {
            let slot = self.buffer_pool.get_page(page_id)?;
            *slot = page;
            self.buffer_pool.unpin_page(page_id, true)?;
        }
        self.current_lsn = record.lsn;
        Ok(())
    }
}

/// A log record that replays cleanly on a file of `disk_len` pages: a page
/// write of a page of the file (see [`page_write_ok`]), or a snapshot that
/// holds a sequence number and an encoded catalog.
/// The content of page `x` once the page writes among `records` past the
/// checkpoint `ckpt` are put back over `before`: the page the last such
/// write to `x` holds, else what `before` shows.
pub open spec fn replayed_content(before: BufferPool, records: Seq<WalRecord>, ckpt: u64, x: u32) -> Option<
    (PageHeader, Seq<u8>),
>
    decreases records.len(),
{
    if records.len() == 0 {
        before.content(x)
    } else {
        let rec = records.last();
        if rec.lsn > ckpt && rec.record_type == WalRecordType::PageWrite && rec.data@.len() >= 4
            && spec_u32_from_le_bytes(rec.data@.subrange(0, 4)) == x {
            crate::engine::page::parse_page(rec.data@.subrange(4, rec.data@.len() as int))
        } else {
            replayed_content(before, records.drop_last(), ckpt, x)
        }
    }
}

/// The catalog bytes of the last snapshot record of `records` past the
/// checkpoint `ckpt`, if there is one (one whose data is too short to hold
/// a sequence number is not counted).
pub open spec fn last_snapshot(records: Seq<WalRecord>, ckpt: u64) -> Option<Seq<u8>>
    decreases records.len(),
{
    if records.len() == 0 {
        None
    } else {
        let rec = records.last();
        if rec.lsn > ckpt && rec.record_type == WalRecordType::Snapshot && rec.data@.len() >= 8 {
            Some(rec.data@.subrange(8, rec.data@.len() as int))
        } else {
            last_snapshot(records.drop_last(), ckpt)
        }
    }
}

/// The catalog bytes of the last snapshot among the log payloads
/// `payloads` past the checkpoint `ckpt`, if there is one: a payload is a
/// sequence number, a type tag (one for a snapshot), then the record's
/// data, which for a snapshot is a sequence number and the catalog (a
/// snapshot too short to hold the number is not counted).
pub open spec fn last_logged_snapshot(payloads: Seq<Seq<u8>>, ckpt: u64) -> Option<Seq<u8>>
    decreases payloads.len(),
{
    if payloads.len() == 0 {
        None
    } else {
        let p = payloads.last();
        if spec_u64_from_le_bytes(p.subrange(0, 8)) > ckpt && p[8] == 1u8 && p.len() >= 17 {
            Some(p.subrange(17, p.len() as int))
        } else {
            last_logged_snapshot(payloads.drop_last(), ckpt)
        }
    }
}

/// Records read from payloads have the payloads' last snapshot.
proof fn lemma_last_snapshot_payloads(records: Seq<WalRecord>, payloads: Seq<Seq<u8>>, ckpt: u64)
    requires
        records.len() == payloads.len(),
        forall|k: int| 0 <= k < records.len() ==> crate::engine::wal_record::wal_record_bytes(
            (#[trigger] records[k]).lsn,
            records[k].record_type,
            records[k].data@,
        ) == payloads[k],
    ensures
        last_snapshot(records, ckpt) is Some ==> last_logged_snapshot(payloads, ckpt) == last_snapshot(records, ckpt),
        last_snapshot(records, ckpt) is None ==> last_logged_snapshot(payloads, ckpt) is None,
    decreases records.len(),
{
    if records.len() > 0 {
        let rec = records.last();
        let p = payloads.last();
        assert(crate::engine::wal_record::wal_record_bytes(rec.lsn, rec.record_type, rec.data@) == p);
        lemma_auto_spec_u64_to_from_le_bytes();
        assert(p.subrange(0, 8) =~= spec_u64_to_le_bytes(rec.lsn));
        assert(p[8] == crate::engine::wal_record::record_tag(rec.record_type));
        if rec.data@.len() >= 8 {
            assert(p.subrange(17, p.len() as int) =~= rec.data@.subrange(8, rec.data@.len() as int));
        }
        lemma_last_snapshot_payloads(records.drop_last(), payloads.drop_last(), ckpt);
    }
}

pub open spec fn record_ok(rec: WalRecord, disk_len: nat) -> bool {
    match rec.record_type {
        WalRecordType::PageWrite => page_write_ok(rec.data@) && spec_u32_from_le_bytes(rec.data@.subrange(0, 4))
            < disk_len,
        WalRecordType::Snapshot => rec.data@.len() >= 8 && parse_catalog(
            rec.data@.subrange(8, rec.data@.len() as int),
        ) is Ok,
    }
}

/// Every record past the checkpoint `ckpt` replays cleanly.
pub open spec fn replay_ok(records: Seq<WalRecord>, ckpt: u64, disk_len: nat) -> bool {
    forall|i: int| 0 <= i < records.len() && #[trigger] records[i].lsn > ckpt ==> record_ok(records[i], disk_len)
}

/// The data of a page-write record that replays cleanly: a page id, then
/// the stored bytes of a page that carries that id.
pub open spec fn page_write_ok(data: Seq<u8>) -> bool {
    &&& data.len() == 4 + crate::engine::page::PAGE_SIZE
    &&& crate::engine::page::parse_page(data.subrange(4, data.len() as int)) matches Some((h, _))
        && h.page_id == spec_u32_from_le_bytes(data.subrange(0, 4))
}

/// `rec` is the page-write record logged as the `k`-th of a run that
/// started at `s`, for page `id`: the next sequence number in the run, and,
/// on a coherent pool, the page's id and its stored bytes.
pub open spec fn logged_page(s: FileStorage, rec: Seq<u8>, k: int, id: u32) -> bool {
    exists|data: Seq<u8>|
        rec == #[trigger] crate::engine::wal_record::wal_record_bytes((s.lsn() + k + 1) as u64, WalRecordType::PageWrite, data)
            && (s.pool().coherent() ==> data == spec_u32_to_le_bytes(id) + crate::engine::page::stored_page(
            (s.pool().content(id)->0).0,
            (s.pool().content(id)->0).1,
        ))
}

/// Entry `i` is the first entry named `name` in the list of tables with
/// data pages.
pub open spec fn first_named(dp: Seq<(Seq<char>, u32)>, name: Seq<char>, i: int) -> bool {
    &&& 0 <= i < dp.len()
    &&& dp[i].0 == name
    &&& forall|j: int| 0 <= j < i ==> #[trigger] dp[j].0 != name
}

/// `t` is `s` once the changed pages of `s`'s cache, `ids` in some order,
/// have each been logged (see [`logged_page`]).
pub open spec fn logged_pages(s: FileStorage, t: FileStorage, ids: Seq<u32>) -> bool {
    &&& ids.no_duplicates()
    &&& forall|id: u32| ids.contains(id) <==> (s.pool().cache().contains_key(id) && s.pool().cache()[id].dirty)
    &&& t.lsn() == s.lsn() + ids.len()
    &&& t.log_pending().len() == s.log_pending().len() + ids.len()
    &&& t.log_pending().subrange(0, s.log_pending().len() as int) == s.log_pending()
    &&& forall|k: int| 0 <= k < ids.len() ==> #[trigger] logged_page(s, t.log_pending()[s.log_pending().len() + k], k, ids[k])
}

/// The body of a catalog page linking to `next` and holding `chunk`.
pub open spec fn chunk_page_body(next: u32, chunk: Seq<u8>) -> Seq<u8> {
    spec_u32_to_le_bytes(next) + spec_u32_to_le_bytes(chunk.len() as u32) + chunk + Seq::new(
        (CATALOG_CHUNK_SIZE - chunk.len()) as nat,
        |i: int| 0u8,
    )
}

/// The chunk of `encoded` the `k`-th catalog page holds: at most a chunk's
/// worth of bytes, from `k` chunks in.
pub open spec fn chunk_at(encoded: Seq<u8>, k: int) -> Seq<u8> {
    let start = k * CATALOG_CHUNK_SIZE;
    if start + CATALOG_CHUNK_SIZE < encoded.len() {
        encoded.subrange(start, start + CATALOG_CHUNK_SIZE)
    } else {
        encoded.subrange(start, encoded.len() as int)
    }
}

/// The page the `k`-th catalog page of `all` links to while `len` bytes are
/// stored: the next one while bytes remain after its chunk, else none.
pub open spec fn chunk_next(all: Seq<u32>, len: int, k: int) -> u32 {
    if k * CATALOG_CHUNK_SIZE + CATALOG_CHUNK_SIZE < len {
        all[k + 1]
    } else {
        0
    }
}

/// The first `count` pages of `all` hold the chunks of `encoded` in order,
/// each linking to the next and the last to none.
pub open spec fn holds_chunks(pool: BufferPool, all: Seq<u32>, encoded: Seq<u8>, count: int) -> bool {
    forall|k: int|
        0 <= k < count ==> pool.content(#[trigger] all[k]) is Some && page_body(pool, all[k]) == chunk_page_body(
            chunk_next(all, encoded.len() as int, k),
            chunk_at(encoded, k),
        )
}

/// A catalog page body reads back its link, its length and its chunk.
proof fn lemma_chunk_page_body(next: u32, chunk: Seq<u8>)
    requires
        chunk.len() <= CATALOG_CHUNK_SIZE,
    ensures
        next_link(chunk_page_body(next, chunk)) == next,
        used_len(chunk_page_body(next, chunk)) == chunk.len(),
        chunk_of(chunk_page_body(next, chunk)) == chunk,
{
    lemma_auto_spec_u32_to_from_le_bytes();
    let b = chunk_page_body(next, chunk);
    assert(b.subrange(0, 4) =~= spec_u32_to_le_bytes(next));
    assert(b.subrange(4, 8) =~= spec_u32_to_le_bytes(chunk.len() as u32));
    assert(chunk_of(b) =~= chunk);
}

/// The `j`-th chunk of `len` bytes exists exactly when it starts before
/// the end.
proof fn lemma_chunk_index(len: int, j: int)
    requires
        len > 0,
        j >= 0,
    ensures
        j < chunk_count(len) <==> j * CATALOG_CHUNK_SIZE < len,
{
    let c = CATALOG_CHUNK_SIZE as int;
    vstd::arithmetic::div_mod::lemma_fundamental_div_mod(len, c);
    let q = len / c;
    let r = len % c;
    assert(j < chunk_count(len) <==> j * c < len) by (nonlinear_arith)
        requires
            len == c * q + r,
            0 <= r < c,
            c > 0,
            j >= 0,
            chunk_count(len) == q + if r != 0 {
                1int
            } else {
                0int
            },
    ;
}

/// Pages holding the chunks of `encoded` walk, from the `j`-th on, to the
/// bytes from `j` chunks in.
proof fn lemma_walk_chunks(pool: BufferPool, all: Seq<u32>, encoded: Seq<u8>, j: int, fuel: nat)
    requires
        holds_chunks(pool, all, encoded, chunk_count(encoded.len() as int)),
        encoded.len() > 0,
        chunk_count(encoded.len() as int) <= all.len(),
        forall|k: int| 0 <= k < all.len() ==> #[trigger] all[k] != 0,
        0 <= j < chunk_count(encoded.len() as int),
        fuel >= chunk_count(encoded.len() as int) - j,
    ensures
        catalog_walk(pool, all[j], fuel) == Some(encoded.subrange(j * CATALOG_CHUNK_SIZE, encoded.len() as int)),
    decreases chunk_count(encoded.len() as int) - j,
{
    let len = encoded.len() as int;
    let c = CATALOG_CHUNK_SIZE as int;
    lemma_chunk_index(len, j);
    lemma_chunk_index(len, j + 1);
    assert((j + 1) * c == j * c + c) by (nonlinear_arith);
    let chunk = chunk_at(encoded, j);
    assert(pool.content(all[j]) is Some);
    lemma_chunk_page_body(chunk_next(all, len, j), chunk);
    if j * c + c < len {
        lemma_walk_chunks(pool, all, encoded, j + 1, (fuel - 1) as nat);
        assert(encoded.subrange(j * c, len) =~= chunk + encoded.subrange(j * c + c, len));
    } else {
        assert(chunk =~= encoded.subrange(j * c, len));
    }
}

/// Pages `all` that held the chunks of a catalog's encoding in `pc`, and
/// hold the same in `pf`, walk in `pf` to that encoding.
proof fn lemma_chain_written(pc: BufferPool, pf: BufferPool, all: Seq<u32>, entries: Seq<(Seq<char>, TableMeta)>, n: nat)
    requires
        holds_chunks(pc, all, catalog_bytes(entries), chunk_count(catalog_bytes(entries).len() as int)),
        forall|k: int| 0 <= k < chunk_count(catalog_bytes(entries).len() as int) ==> #[trigger] pf.content(all[k]) == pc.content(all[k]),
        chunk_count(catalog_bytes(entries).len() as int) <= all.len() <= n + 1,
        forall|k: int| 0 <= k < all.len() ==> #[trigger] all[k] != 0,
    ensures
        catalog_walk(pf, all[0], (n + 1) as nat) == Some(catalog_bytes(entries)),
{
    let encoded = catalog_bytes(entries);
    let count = chunk_count(encoded.len() as int);
    lemma_auto_spec_u32_to_from_le_bytes();
    assert(encoded.len() > 0);
    lemma_chunk_index(encoded.len() as int, 0);
    assert forall|k: int| 0 <= k < count implies pf.content(#[trigger] all[k]) is Some && page_body(pf, all[k])
        == chunk_page_body(chunk_next(all, encoded.len() as int, k), chunk_at(encoded, k)) by {
        assert(pf.content(all[k]) == pc.content(all[k]));
    }
    lemma_walk_chunks(pf, all, encoded, 0, (n + 1) as nat);
    assert(encoded.subrange(0, encoded.len() as int) =~= encoded);
}

/// A walk of the catalog chain from a page other than the meta page reads
/// only pages other than the meta page.
proof fn lemma_catalog_walk_frame(a: BufferPool, b: BufferPool, current: u32, fuel: nat)
    requires
        forall|x: u32| x != META_PAGE_ID ==> #[trigger] a.content(x) == b.content(x),
        current != META_PAGE_ID,
    ensures
        catalog_walk(a, current, fuel) == catalog_walk(b, current, fuel),
    decreases fuel,
{
    if fuel > 0 {
        assert(a.content(current) == b.content(current));
        if let Some((_, body)) = a.content(current) {
            if next_link(body) != 0 {
                lemma_catalog_walk_frame(a, b, next_link(body), (fuel - 1) as nat);
            }
        }
    }
}

/// A catalog written over the catalog pages reads back: where the chain
/// from `first` holds the encoding of `entries` (as
/// [`FileStorage::write_catalog_to_pages`] and [`FileStorage::checkpoint`]
/// leave it), a read of the chain as [`load_catalog`] describes it gives a
/// catalog of the same tables.
pub proof fn lemma_stored_catalog_reads_back(
    pool: BufferPool,
    first: u32,
    entries: Seq<(Seq<char>, TableMeta)>,
    r: Result<Catalog, DbError>,
)
    requires
        catalog_walk(pool, first, (pool.disk().len() + 1) as nat) == Some(catalog_bytes(entries)),
        crate::engine::catalog_laws::entries_fit(entries),
        entries.len() <= crate::engine::wire::MAX_DECODED_ITEMS,
        catalog_result(r, catalog_walk(pool, first, (pool.disk().len() + 1) as nat)),
    ensures
        r matches Ok(c) && catalog_map(c@) == catalog_map(entries),
{
    crate::engine::catalog_laws::lemma_catalog_roundtrip(entries);
}

/// The sequence number of the last checkpoint a file of `pages` records
/// (none yet for a new file).
pub open spec fn file_checkpoint_lsn(pages: Seq<Seq<u8>>) -> u64 {
    if pages.len() == 0 {
        0
    } else {
        meta_fields(file_body(pages, 0)).2
    }
}

/// What a checkpoint leaves in the file reopens as the same tables: where
/// every page of the file reads back as the pool shows it and the catalog
/// chain from the page the meta page names holds the encoding of `entries`
/// (as [`FileStorage::checkpoint`] leaves them), the file's own catalog
/// chain, read with nothing cached, holds that encoding, the file is
/// sound, and the encoding decodes to the tables of `entries`: the catalog
/// [`FileStorage::open_with`] reads from the file when the log is empty.
pub proof fn lemma_checkpoint_reopens(pool: BufferPool, entries: Seq<(Seq<char>, TableMeta)>)
    requires
        pool.wf(),
        pool.coherent(),
        pool.disk().len() > 0,
        forall|x: u32| x < pool.disk().len() ==> crate::engine::page::parse_page(pool.disk()[x as int]) == #[trigger] pool.content(x),
        catalog_walk(pool, meta_fields(page_body(pool, META_PAGE_ID)).1, (pool.disk().len() + 1) as nat) == Some(
            catalog_bytes(entries),
        ),
        crate::engine::catalog_laws::entries_fit(entries),
        entries.len() <= crate::engine::wire::MAX_DECODED_ITEMS,
    ensures
        coherent_of(Map::empty(), pool.disk()),
        file_catalog_walk(pool.disk(), meta_fields(file_body(pool.disk(), 0)).1, (pool.disk().len() + 1) as nat) == Some(
            catalog_bytes(entries),
        ),
        parse_catalog(catalog_bytes(entries)) matches Ok((m, _)) && m == catalog_map(entries),
{
    let d = pool.disk();
    assert forall|x: u32| #[trigger] pool.content(x) == content_of(Map::empty(), d, x) by {
        if x >= d.len() && pool.content(x) is Some {
            pool.lemma_content_in_file(x);
        }
    }
    assert(page_body(pool, META_PAGE_ID) == file_body(d, 0));
    lemma_walk_file(pool, d, meta_fields(file_body(d, 0)).1, (d.len() + 1) as nat);
    crate::engine::catalog_laws::lemma_catalog_roundtrip(entries);
}

/// A catalog of no tables has no entries.
proof fn lemma_no_tables(entries: Seq<(Seq<char>, TableMeta)>)
    requires
        catalog_map(entries) == Map::<Seq<char>, TableMeta>::empty(),
    ensures
        entries.len() == 0,
{
    if entries.len() > 0 {
        assert(crate::engine::catalog::has_table(entries, entries[0].0));
        assert(catalog_map(entries).contains_key(entries[0].0));
    }
}

/// A checkpoint of `s` succeeds: the file has its meta page, the catalog can
/// be written over the catalog pages, and the pool's clock has room for that
/// and for writing every cached page back twice over.
pub open spec fn checkpoint_ok(s: FileStorage) -> bool {
    let n = s.pool().disk().len();
    &&& n > 0
    &&& s.pool().readable()
    &&& catalog_pages_ok(s, s.tables_spec())
    &&& id_walk(s.pool(), s.catalog_page(), Seq::empty(), (n + 1) as nat) matches Some(ids) && s.pool().can_run(
        3 * (n + 1) + 11 * catalog_need(ids.len() as int, catalog_bytes(s.tables_spec()).len() as int) + 2
            * s.pool().capacity_spec() + 7,
    )
}

impl FileStorage {
    /// Writes the catalog in memory over the catalog pages, writes every
    /// changed page back, records the current sequence number and the
    /// catalog's first page in the meta page and writes it back, and empties
    /// the log. On a coherent pool the file then holds the content of every
    /// page, and the catalog pages hold the catalog.
    #[verifier::spinoff_prover]
    #[verifier::rlimit(100)]
    pub fn checkpoint(&mut self) -> (r: Result<(), DbError>)
        requires
            old(self).wf(),
        ensures
            final(self).wf(),
            final(self).tables_spec() == old(self).tables_spec(),
            final(self).lsn() >= old(self).lsn(),
            final(self).catalog_page() == old(self).catalog_page(),
            final(self).data_pages() == old(self).data_pages(),
            r is Ok ==> final(self).checkpoint_lsn() == final(self).lsn() && final(self).log_pending().len()
                == 0 && final(self).log_reset_spec(),
            r is Err ==> final(self).checkpoint_lsn() == old(self).checkpoint_lsn() && final(self).log_reset_spec()
                == old(self).log_reset_spec(),
            old(self).pool().coherent() ==> final(self).pool().coherent(),
            (r is Ok && old(self).pool().coherent()) ==> {
                &&& meta_fields(page_body(final(self).pool(), META_PAGE_ID)) == (
                    final(self).lsn(),
                    final(self).catalog_page(),
                    final(self).lsn(),
                )
                &&& forall|x: u32|
                    x < final(self).pool().disk().len() ==> crate::engine::page::parse_page(
                        final(self).pool().disk()[x as int],
                    ) == #[trigger] final(self).pool().content(x)
            },
            (r is Ok && old(self).pool().coherent() && catalog_pages_ok(*old(self), old(self).tables_spec()))
                ==> catalog_walk(
                final(self).pool(),
                final(self).catalog_page(),
                (final(self).pool().disk().len() + 1) as nat,
            ) == Some(catalog_bytes(final(self).tables_spec())),
            old(self).pool().idle() ==> final(self).pool().idle(),
            final(self).pool().capacity_spec() == old(self).pool().capacity_spec(),
            checkpoint_ok(*old(self)) ==> r is Ok,
            r matches Err(e) ==> e.kind() == ErrorKind::InvalidOperation || e.kind() == ErrorKind::Corruption,
    {
        let ghost s0 = *self;
        let cat = self.catalog.duplicate();
        self.write_catalog_to_pages(&cat)?;
        proof {
            if checkpoint_ok(s0) {
                assert(self.pool().can_run((2 * self.pool().capacity_spec() + 7) as int));
            }
        }
        let ghost p0 = self.buffer_pool;
        proof {
            p0.lemma_cache_bound();
        }
        self.buffer_pool.flush_all()?;
        proof {
            self.buffer_pool.lemma_cache_bound();
            if p0.coherent() && p0.readable() && p0.disk().len() > 0 {
                assert(p0.content(META_PAGE_ID) is Some);
            }
        }
        let mut meta = self.buffer_pool.read_copy(META_PAGE_ID)?;
        write_u64_into(&mut meta, META_LSN_OFFSET, self.current_lsn);
        write_u32_into(&mut meta, META_CATALOG_PAGE_OFFSET, self.catalog_page_id);
        write_u64_into(&mut meta, META_LAST_CHECKPOINT_LSN_OFFSET, self.current_lsn);
        let ghost mbody = meta.data@;
        proof {
            if p0.coherent() {
                lemma_content_sound(self.buffer_pool, META_PAGE_ID);
            }
        }
        self.buffer_pool.write_copy(meta)?;
        proof {
            let pw = self.buffer_pool;
            if p0.coherent() && pw.cache().contains_key(META_PAGE_ID) {
                assert(pw.cache()[META_PAGE_ID].header.page_id == META_PAGE_ID);
            }
        }
        self.buffer_pool.flush_page(META_PAGE_ID)?;
        let ghost p1 = self.buffer_pool;
        proof {
            p1.lemma_cache_bound();
        }
        self.buffer_pool.flush_all()?;
        proof {
            if p0.coherent() {
                lemma_auto_spec_u32_to_from_le_bytes();
                lemma_auto_spec_u64_to_from_le_bytes();
                assert(mbody.subrange(0, 8) =~= spec_u64_to_le_bytes(self.current_lsn));
                assert(mbody.subrange(8, 12) =~= spec_u32_to_le_bytes(self.catalog_page_id));
                assert(mbody.subrange(12, 20) =~= spec_u64_to_le_bytes(self.current_lsn));
                let pf = self.buffer_pool;
                assert forall|x: u32| x < pf.disk().len() implies crate::engine::page::parse_page(
                    pf.disk()[x as int],
                ) == #[trigger] pf.content(x) by {
                    if pf.cache().contains_key(x) {
                        assert(!pf.cache()[x].dirty);
                    }
                }
                if self.catalog_page_id != META_PAGE_ID {
                    assert forall|x: u32| x != META_PAGE_ID implies #[trigger] pf.content(x) == p0.content(x) by {}
                    assert(pf.disk().len() == p0.disk().len());
                    lemma_catalog_walk_frame(p0, pf, self.catalog_page_id, (p0.disk().len() + 1) as nat);
                }
            }
        }
        self.log_out = Vec::new();
        self.log_reset = true;
        self.last_checkpoint_lsn = self.current_lsn;
        proof {
            assert(self.log_pending() =~= Seq::<Seq<u8>>::empty());
        }
        Ok(())
    }
}

impl FileStorage {
    /// The pages of the stored catalog's chain, from its first page until a
    /// page links to none (id zero ends the chain). A chain that comes back
    /// on itself is corruption. On a coherent pool the content of every page
    /// is kept.
    #[verifier::loop_isolation(false)]
    #[verifier::spinoff_prover]
    #[verifier::rlimit(100)]
    pub fn collect_existing_catalog_pages(&mut self) -> (r: Result<Vec<u32>, DbError>)
        requires
            old(self).wf(),
        ensures
            final(self).wf(),
            final(self).tables_spec() == old(self).tables_spec(),
            final(self).lsn() == old(self).lsn(),
            final(self).checkpoint_lsn() == old(self).checkpoint_lsn(),
            final(self).catalog_page() == old(self).catalog_page(),
            final(self).data_pages() == old(self).data_pages(),
            final(self).log_pending() == old(self).log_pending(),
            final(self).log_reset_spec() == old(self).log_reset_spec(),
            final(self).pool().disk().len() == old(self).pool().disk().len(),
            old(self).pool().coherent() ==> final(self).pool().coherent() && forall|x: u32|
                #[trigger] final(self).pool().content(x) == old(self).pool().content(x),
            old(self).pool().idle() ==> final(self).pool().idle(),
            r matches Ok(ids) ==> ids@.no_duplicates() && forall|i: int| 0 <= i < ids@.len() ==> #[trigger] ids@[i] != 0,
            r matches Ok(ids) ==> (ids@.len() > 0 ==> ids@[0] == old(self).catalog_page()),
            r matches Err(e) ==> e.kind() == ErrorKind::InvalidOperation || e.kind() == ErrorKind::Corruption,
            (r is Ok && old(self).pool().coherent()) ==> (if old(self).catalog_page() == 0 {
                (r->Ok_0)@.len() == 0
            } else {
                chain(old(self).pool(), old(self).catalog_page(), (r->Ok_0)@) && next_link(
                    page_body(old(self).pool(), (r->Ok_0)@.last()),
                ) == 0
            }),
            final(self).pool().capacity_spec() == old(self).pool().capacity_spec(),
            old(self).pool().clock_spec() <= final(self).pool().clock_spec() <= old(self).pool().clock_spec() + 3 * (
            old(self).pool().disk().len() + 1),
            old(self).pool().can_run(3 * (old(self).pool().disk().len() + 1) as int) ==> match id_walk(
                old(self).pool(),
                old(self).catalog_page(),
                Seq::empty(),
                (old(self).pool().disk().len() + 1) as nat,
            ) {
                Some(ids) => r matches Ok(v) && v@ == ids,
                None => r is Err,
            },
    {
        let ghost p0 = self.buffer_pool;
        let ghost total = (p0.disk().len() + 1) as nat;
        let count = self.buffer_pool.page_count() as u64;
        let mut pages: Vec<u32> = Vec::new();
        let mut current = self.catalog_page_id;
        let mut visited: u64 = 0;
        while current != 0
            invariant
                self.wf(),
                self.buffer_pool.disk().len() == p0.disk().len(),
                count == p0.disk().len(),
                self.tables_spec() == old(self).tables_spec(),
                self.lsn() == old(self).lsn(),
                self.checkpoint_lsn() == old(self).checkpoint_lsn(),
                self.catalog_page() == old(self).catalog_page(),
                self.data_pages() == old(self).data_pages(),
                self.log_pending() == old(self).log_pending(),
                self.log_reset_spec() == old(self).log_reset_spec(),
                p0 == old(self).pool(),
                p0.coherent() ==> self.buffer_pool.coherent() && forall|x: u32|
                    #[trigger] self.buffer_pool.content(x) == p0.content(x),
                p0.idle() ==> self.buffer_pool.idle(),
                pages@.len() == visited,
                pages@.len() == 0 ==> current == self.catalog_page_id,
                pages@.len() > 0 ==> pages@[0] == self.catalog_page_id,
                pages@.no_duplicates(),
                forall|i: int| 0 <= i < pages@.len() ==> #[trigger] pages@[i] != 0,
                p0.coherent() ==> (if pages@.len() == 0 {
                    current == self.catalog_page_id
                } else {
                    chain(p0, self.catalog_page_id, pages@) && current == next_link(page_body(p0, pages@.last()))
                }),
                self.buffer_pool.capacity_spec() == p0.capacity_spec(),
                p0.clock_spec() <= self.buffer_pool.clock_spec() <= p0.clock_spec() + 3 * visited,
                visited <= count + 1,
                p0.can_run(3 * total as int) ==> id_walk(p0, self.catalog_page_id, Seq::empty(), total) == id_walk(
                    p0,
                    current,
                    pages@,
                    (total - visited) as nat,
                ),
            decreases count + 1 - visited,
        {
            if visited > count {
                return Err(DbError::corruption("catalog page chain is cyclic"));
            }
            let mut k: usize = 0;
            while k < pages.len()
                invariant
                    k <= pages@.len(),
                    forall|j: int| 0 <= j < k ==> pages@[j] != current,
                decreases pages@.len() - k,
            {
                if pages[k] == current {
                    return Err(DbError::corruption("catalog page chain is cyclic"));
                }
                k = k + 1;
            }
            let ghost before = pages@;
            pages.push(current);
            let page = self.buffer_pool.read_copy(current)?;
            let ghost body = page.data@;
            let next = read_u32_at(page.data.as_slice(), 0);
            proof {
                assert(page.data@.subrange(0, 4) == body.subrange(0, 4));
                assert forall|x: int, y: int| 0 <= x < y < pages@.len() implies pages@[x] != pages@[y] by {
                    if y == before.len() {
                        assert(pages@[x] == before[x]);
                    } else {
                        assert(before.no_duplicates());
                    }
                }
                if p0.coherent() {
                    assert(page_body(p0, current) == body);
                    assert(pages@.drop_last() =~= before);
                    assert forall|j: int| 0 <= j < pages@.len() implies p0.content(#[trigger] pages@[j]) is Some by {
                        if j < before.len() {
                            assert(pages@[j] == before[j]);
                        }
                    }
                    assert forall|j: int| 0 <= j < pages@.len() - 1 implies pages@[j + 1] == next_link(page_body(p0, #[trigger] pages@[j])) by {
                        if j + 1 < before.len() {
                            assert(pages@[j] == before[j]);
                            assert(pages@[j + 1] == before[j + 1]);
                        } else {
                            assert(pages@[j] == before.last());
                        }
                    }
                }
            }
            current = next;
            visited = visited + 1;
        }
        Ok(pages)
    }

    /// Writes one chunk of the encoded catalog into a page: the page becomes
    /// a data page whose body links to `next` and holds the chunk, zero
    /// elsewhere.
    pub fn write_catalog_chunk(&mut self, page_id: u32, next_page_id: u32, chunk: &[u8]) -> (r: Result<
        (),
        DbError,
    >)
        requires
            old(self).wf(),
            chunk@.len() <= CATALOG_CHUNK_SIZE,
        ensures
            final(self).wf(),
            final(self).tables_spec() == old(self).tables_spec(),
            final(self).lsn() == old(self).lsn(),
            final(self).checkpoint_lsn() == old(self).checkpoint_lsn(),
            final(self).catalog_page() == old(self).catalog_page(),
            final(self).data_pages() == old(self).data_pages(),
            final(self).log_pending() == old(self).log_pending(),
            final(self).log_reset_spec() == old(self).log_reset_spec(),
            final(self).pool().disk().len() == old(self).pool().disk().len(),
            old(self).pool().coherent() ==> final(self).pool().coherent(),
            old(self).pool().idle() ==> final(self).pool().idle(),
            (r is Ok && old(self).pool().coherent()) ==> forall|x: u32|
                #[trigger] final(self).pool().content(x) == (if x == page_id {
                    Some(
                        (
                            PageHeader {
                                page_type: PageType::Data,
                                ..(old(self).pool().content(page_id)->0).0
                            },
                            chunk_page_body(next_page_id, chunk@),
                        ),
                    )
                } else {
                    old(self).pool().content(x)
                }),
            (r is Err && old(self).pool().coherent()) ==> forall|x: u32|
                #[trigger] final(self).pool().content(x) == old(self).pool().content(x),
            r matches Err(e) ==> e.kind() == ErrorKind::InvalidOperation || e.kind() == ErrorKind::Corruption,
            final(self).pool().capacity_spec() == old(self).pool().capacity_spec(),
            old(self).pool().clock_spec() <= final(self).pool().clock_spec() <= old(self).pool().clock_spec() + 6,
            (old(self).pool().can_run(6) && old(self).pool().content(page_id) is Some) ==> r is Ok,
    {
        let ghost p0 = self.buffer_pool;
        let mut page = self.buffer_pool.read_copy(page_id)?;
        proof {
            if p0.coherent() {
                lemma_content_sound(self.buffer_pool, page_id);
            }
        }
        page.header.page_type = PageType::Data;
        page.data = vec![0u8; PAGE_BODY_SIZE];
        write_u32_into(&mut page, 0, next_page_id);
        write_u32_into(&mut page, 4, chunk.len() as u32);
        write_at(&mut page.data, CATALOG_PAGE_HEADER_SIZE, chunk);
        proof {
            assert(page.data@ =~= chunk_page_body(next_page_id, chunk@));
        }
        self.buffer_pool.write_copy(page)
    }

    /// Logs a page write: the page's id and stored bytes, under the next
    /// sequence number, which becomes the current one. A sequence number that
    /// cannot grow is an invalid operation.
    pub fn append_page_write_wal(&mut self, page_id: u32) -> (r: Result<(), DbError>)
        requires
            old(self).wf(),
        ensures
            final(self).wf(),
            final(self).tables_spec() == old(self).tables_spec(),
            final(self).checkpoint_lsn() == old(self).checkpoint_lsn(),
            final(self).catalog_page() == old(self).catalog_page(),
            final(self).data_pages() == old(self).data_pages(),
            final(self).log_reset_spec() == old(self).log_reset_spec(),
            final(self).pool().disk().len() == old(self).pool().disk().len(),
            old(self).pool().coherent() ==> final(self).pool().coherent() && forall|x: u32|
                #[trigger] final(self).pool().content(x) == old(self).pool().content(x),
            old(self).pool().idle() ==> final(self).pool().idle(),
            r is Ok ==> final(self).lsn() == old(self).lsn() + 1 && exists|data: Seq<u8>|
                final(self).log_pending() == old(self).log_pending().push(
                    crate::engine::wal_record::wal_record_bytes(
                        final(self).lsn(),
                        WalRecordType::PageWrite,
                        data,
                    ),
                ) && (old(self).pool().coherent() ==> data == spec_u32_to_le_bytes(page_id)
                    + crate::engine::page::stored_page(
                    (old(self).pool().content(page_id)->0).0,
                    (old(self).pool().content(page_id)->0).1,
                )),
            r is Err ==> final(self).lsn() == old(self).lsn() && final(self).log_pending() == old(
                self,
            ).log_pending(),
            r matches Err(e) ==> e.kind() == ErrorKind::InvalidOperation || e.kind() == ErrorKind::Corruption,
            final(self).pool().capacity_spec() == old(self).pool().capacity_spec(),
            old(self).pool().clock_spec() <= final(self).pool().clock_spec() <= old(self).pool().clock_spec() + 3,
            (old(self).pool().can_run(3) && old(self).pool().content(page_id) is Some && old(self).lsn()
                < u64::MAX) ==> r is Ok,
    {
        let ghost p0 = self.buffer_pool;
        let page = self.buffer_pool.read_copy(page_id)?;
        let page_bytes = page.as_bytes();
        if self.current_lsn == u64::MAX {
            return Err(DbError::invalid_operation("LSN overflow"));
        }
        let mut data: Vec<u8> = Vec::new();
        crate::codec::push_u32(&mut data, page_id);
        crate::codec::push_bytes(&mut data, page_bytes.as_slice());
        let new_lsn = self.current_lsn + 1;
        let record = WalRecord { lsn: new_lsn, record_type: WalRecordType::PageWrite, data };
        let payload = encode_wal_record(&record);
        let ghost before = self.log_out@;
        self.log_out.push(payload);
        self.current_lsn = new_lsn;
        proof {
            assert(self.log_pending() =~= old(self).log_pending().push(
                crate::engine::wal_record::wal_record_bytes(new_lsn, WalRecordType::PageWrite, record.data@),
            ));
            assert(record.data@ == spec_u32_to_le_bytes(page_id) + page_bytes@);
            assert(page_bytes@ == crate::engine::page::stored_page(page.header, page.data@));
            assert(self.lsn() == new_lsn);
            if p0.coherent() {
                assert(p0.content(page_id) == Some((page.header, page.data@)));
                assert(record.data@ =~= spec_u32_to_le_bytes(page_id) + crate::engine::page::stored_page(
                    (p0.content(page_id)->0).0,
                    (p0.content(page_id)->0).1,
                ));
            }
        }
        Ok(())
    }
}

/// How many pages a catalog write fills over a chain of `k` catalog pages
/// when the encoding is `len` bytes long: the chain's pages, or one per
/// chunk where there are more chunks (the chain then grows by fresh pages).
pub open spec fn catalog_need(k: int, len: int) -> int {
    if k >= chunk_count(len) {
        k
    } else {
        chunk_count(len)
    }
}

/// The catalog `entries` can be written over the catalog pages of `s`:
/// it can be encoded, the chain of catalog pages can be walked, the file
/// can grow by the pages the chain lacks, and the pool's clock and the
/// sequence numbers have room for the work.
pub open spec fn catalog_pages_ok(s: FileStorage, entries: Seq<(Seq<char>, TableMeta)>) -> bool {
    let n = s.pool().disk().len();
    &&& entries.len() <= u32::MAX
    &&& forall|i: int| 0 <= i < entries.len() ==> crate::engine::catalog_codec::table_encodable(#[trigger] entries[i].1)
    &&& id_walk(s.pool(), s.catalog_page(), Seq::empty(), (n + 1) as nat) matches Some(ids) && {
        let m = catalog_need(ids.len() as int, catalog_bytes(entries).len() as int);
        &&& ids.len() > 0
        &&& n + m < u32::MAX
        &&& s.pool().can_run(3 * (n + 1) + 11 * m)
        &&& s.lsn() + m <= u64::MAX
    }
}

/// The number of chunks an encoding of `len` bytes is cut into.
pub open spec fn chunk_count(len: int) -> int {
    len / CATALOG_CHUNK_SIZE as int + if len % CATALOG_CHUNK_SIZE as int != 0 {
        1int
    } else {
        0int
    }
}

impl FileStorage {
    /// Stores a catalog in the catalog pages: its encoding is cut into chunks,
    /// each written into a page of the chain, in order, each page linking to
    /// the next, and logged; where the chain has too few pages, fresh pages
    /// are added to the file and to the end of the chain; pages of the chain
    /// left over are marked free and logged. A chain with no page (a
    /// catalog page of zero) is an invalid operation.
    #[verifier::loop_isolation(false)]
    #[verifier::spinoff_prover]
    #[verifier::rlimit(100)]
    pub fn write_catalog_to_pages(&mut self, catalog: &Catalog) -> (r: Result<(), DbError>)
        requires
            old(self).wf(),
            catalog.wf(),
        ensures
            final(self).wf(),
            final(self).tables_spec() == old(self).tables_spec(),
            final(self).checkpoint_lsn() == old(self).checkpoint_lsn(),
            final(self).data_pages() == old(self).data_pages(),
            final(self).log_reset_spec() == old(self).log_reset_spec(),
            final(self).lsn() >= old(self).lsn(),
            old(self).pool().coherent() ==> final(self).pool().coherent(),
            r is Ok ==> (catalog@.len() <= u32::MAX && forall|i: int|
                0 <= i < catalog@.len() ==> crate::engine::catalog_codec::table_encodable(#[trigger] catalog@[i].1)),
            r matches Err(e) ==> e.kind() == ErrorKind::InvalidOperation || e.kind() == ErrorKind::Corruption,
            final(self).pool().capacity_spec() == old(self).pool().capacity_spec(),
            old(self).pool().idle() ==> final(self).pool().idle(),
            (old(self).pool().coherent() && catalog_pages_ok(*old(self), catalog@)) ==> r is Ok,
            final(self).catalog_page() == old(self).catalog_page(),
            r is Ok ==> final(self).catalog_page() != 0,
            (r is Ok && old(self).pool().coherent() && old(self).pool().readable()) ==> final(self).pool().readable(),
            (old(self).pool().coherent() && catalog_pages_ok(*old(self), catalog@)) ==> ({
                let n = old(self).pool().disk().len();
                let ids = id_walk(old(self).pool(), old(self).catalog_page(), Seq::empty(), (n + 1) as nat)->0;
                let m = catalog_need(ids.len() as int, catalog_bytes(catalog@).len() as int);
                &&& final(self).lsn() <= old(self).lsn() + m
                &&& final(self).pool().clock_spec() <= old(self).pool().clock_spec() + 3 * (n + 1) + 11 * m
                &&& final(self).pool().disk().len() == n + (m - ids.len())
                &&& catalog_walk(final(self).pool(), final(self).catalog_page(), (final(self).pool().disk().len() + 1) as nat)
                    == Some(catalog_bytes(catalog@))
            }),
    {
        let ghost s0 = *self;
        let ghost p0 = self.pool();
        let ghost n = p0.disk().len();
        let ghost ok = p0.coherent() && catalog_pages_ok(s0, catalog@);
        let ghost ids = id_walk(p0, s0.catalog_page(), Seq::empty(), (n + 1) as nat)->0;
        let ghost m = catalog_need(ids.len() as int, catalog_bytes(catalog@).len() as int);
        let ghost rd = old(self).pool().coherent() && old(self).pool().readable();
        let encoded = encode_catalog(catalog)?;
        let len = encoded.len();
        let full = len / CATALOG_CHUNK_SIZE;
        let needed = if len % CATALOG_CHUNK_SIZE != 0 && full < usize::MAX {
            full + 1
        } else {
            full
        };
        proof {
            assert(full < usize::MAX) by (nonlinear_arith)
                requires
                    full == len / CATALOG_CHUNK_SIZE,
                    CATALOG_CHUNK_SIZE > 1,
            ;
            assert(needed == chunk_count(len as int));
            if ok {
                lemma_id_walk(p0, s0.catalog_page(), Seq::empty(), (n + 1) as nat);
                assert(id_walk(p0, s0.catalog_page(), Seq::empty(), (n + 1) as nat) == Some(ids));
                assert(p0.can_run(3 * (n + 1) as int));
            }
        }
        let mut all = self.collect_existing_catalog_pages()?;
        let ghost pe = self.pool();
        proof {
            if ok {
                assert(all@ == ids);
                assert(pe.clock_spec() <= p0.clock_spec() + 3 * (n + 1));
                assert forall|j: int| 0 <= j < ids.len() implies #[trigger] ids[j] < n by {
                    p0.lemma_content_in_file(ids[j]);
                }
                assert(all@.subrange(0, ids.len() as int) =~= ids);
            }
        }
        if all.len() == 0 {
            return Err(DbError::invalid_operation("no catalog pages"));
        }
        while all.len() < needed
            invariant
                self.wf(),
                self.tables_spec() == old(self).tables_spec(),
                self.checkpoint_lsn() == old(self).checkpoint_lsn(),
                self.data_pages() == old(self).data_pages(),
                self.log_reset_spec() == old(self).log_reset_spec(),
                self.lsn() >= old(self).lsn(),
                old(self).pool().coherent() ==> self.pool().coherent(),
                self.pool().capacity_spec() == p0.capacity_spec(),
                old(self).pool().idle() ==> self.pool().idle(),
                self.catalog_page() == old(self).catalog_page(),
                rd ==> self.pool().readable(),
                all@.len() > 0,
                all@[0] == old(self).catalog_page(),
                all@[0] != 0,
                ok ==> self.lsn() == old(self).lsn(),
                ok ==> ids.no_duplicates() && forall|j: int| 0 <= j < ids.len() ==> #[trigger] ids[j] != 0 && ids[j] < n,
                ok ==> all@.len() >= ids.len() && all@.subrange(0, ids.len() as int) == ids,
                ok ==> forall|j: int| ids.len() <= j < all@.len() ==> #[trigger] all@[j] == n + (j - ids.len()),
                ok ==> self.pool().disk().len() == n + (all@.len() - ids.len()),
                ok ==> all@.len() <= m,
                ok ==> self.pool().clock_spec() <= pe.clock_spec() + 2 * (all@.len() - ids.len()),
                ok ==> self.pool().coherent() && self.pool().idle(),
                ok ==> forall|j: int| 0 <= j < all@.len() ==> self.pool().content(#[trigger] all@[j]) is Some,
                ok ==> forall|x: u32| x < n ==> #[trigger] self.pool().content(x) == p0.content(x),
            decreases needed - all@.len(),
        {
            let ghost qa = self.pool();
            let ghost before = all@;
            proof {
                if ok {
                    qa.lemma_full_has_unpinned();
                }
            }
            let id = self.buffer_pool.allocate_page(PageType::Data)?;
            proof {
                if rd {
                    let qb = self.pool();
                    assert forall|x: u32| x < qb.disk().len() implies #[trigger] qb.content(x) is Some by {
                        if x != qa.disk().len() {
                            assert(qa.content(x) is Some);
                        }
                    }
                }
            }
            all.push(id);
            proof {
                assert(all@[0] == before[0]);
                if ok {
                    let qb = self.pool();
                    assert(all@.subrange(0, ids.len() as int) =~= before.subrange(0, ids.len() as int));
                    assert forall|j: int| 0 <= j < all@.len() implies qb.content(#[trigger] all@[j]) is Some by {
                        if j < before.len() {
                            assert(all@[j] == before[j]);
                            if j < ids.len() {
                                assert(before[j] == ids[j]);
                                assert(ids[j] < n);
                            }
                            assert(qa.content(before[j]) is Some);
                            assert(before[j] != qa.disk().len());
                        }
                    }
                    assert forall|j: int| ids.len() <= j < all@.len() implies #[trigger] all@[j] == n + (j - ids.len()) by {
                        if j < before.len() {
                            assert(all@[j] == before[j]);
                        }
                    }
                    assert forall|x: u32| x < n implies #[trigger] qb.content(x) == p0.content(x) by {
                        assert(qa.content(x) == p0.content(x));
                    }
                }
            }
        }
        let ghost p1 = self.pool();
        proof {
            if ok {
                assert(all@.len() == m);
                assert(ids.len() <= n + 1);
                assert(n >= 1) by {
                    assert(ids[0] < n);
                }
                assert forall|j: int| 0 <= j < all@.len() implies #[trigger] all@[j] != 0 by {
                    if j < ids.len() {
                        assert(all@[j] == ids[j]);
                        assert(all@.subrange(0, ids.len() as int)[j] == ids[j]);
                    }
                }
                assert(all@.no_duplicates()) by {
                    assert forall|x: int, y: int| 0 <= x < y < all@.len() implies all@[x] != all@[y] by {
                        if y < ids.len() {
                            assert(all@.subrange(0, ids.len() as int)[x] == ids[x]);
                            assert(all@.subrange(0, ids.len() as int)[y] == ids[y]);
                        } else if x < ids.len() {
                            assert(all@.subrange(0, ids.len() as int)[x] == ids[x]);
                            assert(ids[x] < n);
                        }
                    }
                }
                assert(p1.can_run(9 * m));
                assert(self.pages_ready(all@, all@.len() as int));
            }
        }
        let i = self.write_catalog_chunks(all.as_slice(), encoded.as_slice())?;
        let ghost pc = self.pool();
        self.free_catalog_pages(all.as_slice(), i)?;
        self.catalog_page_id = all[0];
        proof {
            if ok {
                lemma_chain_written(pc, self.pool(), all@, catalog@, (n + (m - ids.len())) as nat);
            }
        }
        Ok(())
    }

    /// The pages `all` can take `k` pages' worth of logged page work: the pool
    /// is coherent and has room on its clock, every page of `all` can be
    /// read, and the sequence numbers have room.
    pub open spec fn pages_ready(&self, all: Seq<u32>, k: int) -> bool {
        &&& self.pool().can_run(9 * k)
        &&& self.lsn() + k <= u64::MAX
        &&& forall|x: int| 0 <= x < all.len() ==> self.pool().content(#[trigger] all[x]) is Some
    }

    /// Writes the chunks of `encoded` into the pages `all`, in order, each
    /// linking to the next, and logs each page written; gives how many pages
    /// were written.
    fn write_catalog_chunks(&mut self, all: &[u32], encoded: &[u8]) -> (r: Result<usize, DbError>)
        requires
            old(self).wf(),
        ensures
            final(self).wf(),
            final(self).tables_spec() == old(self).tables_spec(),
            final(self).checkpoint_lsn() == old(self).checkpoint_lsn(),
            final(self).data_pages() == old(self).data_pages(),
            final(self).log_reset_spec() == old(self).log_reset_spec(),
            final(self).catalog_page() == old(self).catalog_page(),
            final(self).lsn() >= old(self).lsn(),
            old(self).pool().coherent() ==> final(self).pool().coherent(),
            final(self).pool().capacity_spec() == old(self).pool().capacity_spec(),
            old(self).pool().idle() ==> final(self).pool().idle(),
            r matches Ok(i) ==> i == chunk_count(encoded@.len() as int) && i <= all@.len() && final(self).lsn()
                <= old(self).lsn() + i && final(self).pool().clock_spec() <= old(self).pool().clock_spec() + 9 * i,
            r matches Err(e) ==> e.kind() == ErrorKind::InvalidOperation || e.kind() == ErrorKind::Corruption,
            r matches Ok(i) ==> (old(self).pages_ready(all@, all@.len() as int) ==> final(self).pages_ready(
                all@,
                all@.len() - i,
            )),
            (old(self).pages_ready(all@, all@.len() as int) && all@.len() >= chunk_count(encoded@.len() as int))
                ==> r is Ok,
            final(self).pool().disk().len() == old(self).pool().disk().len(),
            (old(self).pool().coherent() && old(self).pool().readable()) ==> final(self).pool().readable(),
            r matches Ok(i) ==> ((old(self).pool().coherent() && all@.no_duplicates()) ==> holds_chunks(
                final(self).pool(),
                all@,
                encoded@,
                i as int,
            )),
    {
        let ghost ok = old(self).pages_ready(all@, all@.len() as int) && all@.len() >= chunk_count(
            encoded@.len() as int,
        );
        let ghost c0 = self.pool().clock_spec();
        let len = encoded.len();
        let mut i: usize = 0;
        let mut start: usize = 0;
        proof {
            assert(chunk_count(0) == 0);
        }
        while start < len
            invariant
                self.wf(),
                encoded@.len() == len,
                start <= len,
                (start == i * CATALOG_CHUNK_SIZE && start < len) || (start == len && i == chunk_count(len as int)),
                i <= chunk_count(len as int),
                self.tables_spec() == old(self).tables_spec(),
                self.checkpoint_lsn() == old(self).checkpoint_lsn(),
                self.data_pages() == old(self).data_pages(),
                self.log_reset_spec() == old(self).log_reset_spec(),
                self.catalog_page() == old(self).catalog_page(),
                self.lsn() >= old(self).lsn(),
                old(self).pool().coherent() ==> self.pool().coherent(),
                self.pool().capacity_spec() == old(self).pool().capacity_spec(),
                old(self).pool().idle() ==> self.pool().idle(),
                i <= all@.len(),
                self.lsn() <= old(self).lsn() + i,
                old(self).pool().clock_spec() <= self.pool().clock_spec() <= old(self).pool().clock_spec() + 9 * i,
                old(self).pages_ready(all@, all@.len() as int) ==> self.pages_ready(
                    all@,
                    all@.len() - i,
                ),
                self.pool().disk().len() == old(self).pool().disk().len(),
                (old(self).pool().coherent() && old(self).pool().readable()) ==> self.pool().readable(),
                (old(self).pool().coherent() && all@.no_duplicates()) ==> holds_chunks(
                    self.pool(),
                    all@,
                    encoded@,
                    i as int,
                ),
            decreases len - start,
        {
            proof {
                assert(i < chunk_count(len as int)) by (nonlinear_arith)
                    requires
                        start == i * CATALOG_CHUNK_SIZE,
                        start < len,
                        CATALOG_CHUNK_SIZE > 0,
                ;
            }
            if i >= all.len() {
                return Err(DbError::invalid_operation("page index out of bounds"));
            }
            let page_id = all[i];
            let more = len - start > CATALOG_CHUNK_SIZE;
            proof {
                if more {
                    assert(i + 1 < chunk_count(len as int)) by (nonlinear_arith)
                        requires
                            start == i * CATALOG_CHUNK_SIZE,
                            len - start > CATALOG_CHUNK_SIZE,
                            CATALOG_CHUNK_SIZE > 0,
                    ;
                }
            }
            let next_page_id = if more {
                if i + 1 >= all.len() {
                    return Err(DbError::invalid_operation("next page index out of bounds"));
                }
                all[i + 1]
            } else {
                0
            };
            let end = if more {
                start + CATALOG_CHUNK_SIZE
            } else {
                len
            };
            let ghost q0 = self.pool();
            self.write_catalog_chunk(page_id, next_page_id, &encoded[start..end])?;
            let ghost q1 = self.pool();
            proof {
                if old(self).pages_ready(all@, all@.len() as int) {
                    assert forall|x: int| 0 <= x < all@.len() implies q1.content(#[trigger] all@[x]) is Some by {
                        assert(q0.content(all@[x]) is Some);
                    }
                }
            }
            self.append_page_write_wal(page_id)?;
            proof {
                if old(self).pages_ready(all@, all@.len() as int) {
                    assert forall|x: int| 0 <= x < all@.len() implies self.pool().content(#[trigger] all@[x]) is Some by {
                        assert(q1.content(all@[x]) is Some);
                    }
                }
                if (old(self).pool().coherent() && old(self).pool().readable()) {
                    let pr = self.pool();
                    assert forall|x: u32| x < pr.disk().len() implies #[trigger] pr.content(x) is Some by {
                        assert(q0.content(x) is Some);
                        assert(q1.content(x) is Some);
                    }
                }
                if old(self).pool().coherent() && all@.no_duplicates() {
                    let pn = self.pool();
                    assert(encoded@.subrange(start as int, end as int) == chunk_at(encoded@, i as int));
                    assert(next_page_id == chunk_next(all@, len as int, i as int));
                    assert forall|k: int| 0 <= k < i + 1 implies pn.content(#[trigger] all@[k]) is Some && page_body(
                        pn,
                        all@[k],
                    ) == chunk_page_body(chunk_next(all@, encoded@.len() as int, k), chunk_at(encoded@, k)) by {
                        if k < i {
                            assert(all@[k] != all@[i as int]);
                            assert(q0.content(all@[k]) is Some);
                        }
                    }
                }
                if more {
                    assert(end == (i + 1) * CATALOG_CHUNK_SIZE) by (nonlinear_arith)
                        requires
                            start == i * CATALOG_CHUNK_SIZE,
                            end == start + CATALOG_CHUNK_SIZE,
                    ;
                } else {
                    assert(chunk_count(len as int) == i + 1) by (nonlinear_arith)
                        requires
                            start == i * CATALOG_CHUNK_SIZE,
                            len - start <= CATALOG_CHUNK_SIZE,
                            start < len,
                            CATALOG_CHUNK_SIZE > 0,
                    ;
                }
            }
            start = end;
            i = i + 1;
        }
        proof {
            if len == 0 {
                assert(chunk_count(0) == 0);
            }
        }
        Ok(i)
    }

    /// Marks the pages of `all` from `from` on free (an empty free-list
    /// page) and logs each.
    fn free_catalog_pages(&mut self, all: &[u32], from: usize) -> (r: Result<(), DbError>)
        requires
            old(self).wf(),
        ensures
            final(self).wf(),
            final(self).tables_spec() == old(self).tables_spec(),
            final(self).checkpoint_lsn() == old(self).checkpoint_lsn(),
            final(self).data_pages() == old(self).data_pages(),
            final(self).log_reset_spec() == old(self).log_reset_spec(),
            final(self).catalog_page() == old(self).catalog_page(),
            final(self).lsn() >= old(self).lsn(),
            old(self).pool().coherent() ==> final(self).pool().coherent(),
            final(self).pool().capacity_spec() == old(self).pool().capacity_spec(),
            old(self).pool().idle() ==> final(self).pool().idle(),
            r matches Err(e) ==> e.kind() == ErrorKind::InvalidOperation || e.kind() == ErrorKind::Corruption,
            (from <= all@.len() && old(self).pages_ready(all@, all@.len() - from)) ==> r is Ok,
            from <= all@.len() ==> final(self).lsn() <= old(self).lsn() + (all@.len() - from) && final(self).pool().clock_spec()
                <= old(self).pool().clock_spec() + 9 * (all@.len() - from),
            final(self).pool().disk().len() == old(self).pool().disk().len(),
            (old(self).pool().coherent() && old(self).pool().readable()) ==> final(self).pool().readable(),
            (old(self).pool().coherent() && all@.no_duplicates() && from <= all@.len()) ==> forall|k: int|
                0 <= k < from ==> #[trigger] final(self).pool().content(all@[k]) == old(self).pool().content(all@[k]),
    {
        let mut j = from;
        while j < all.len()
            invariant
                self.wf(),
                from <= j || all@.len() <= from,
                from <= all@.len() ==> j <= all@.len(),
                from <= all@.len() ==> self.lsn() <= old(self).lsn() + (j - from),
                from <= all@.len() ==> old(self).pool().clock_spec() <= self.pool().clock_spec() <= old(self).pool().clock_spec() + 9 * (j - from),
                self.tables_spec() == old(self).tables_spec(),
                self.checkpoint_lsn() == old(self).checkpoint_lsn(),
                self.data_pages() == old(self).data_pages(),
                self.log_reset_spec() == old(self).log_reset_spec(),
                self.catalog_page() == old(self).catalog_page(),
                self.lsn() >= old(self).lsn(),
                old(self).pool().coherent() ==> self.pool().coherent(),
                self.pool().capacity_spec() == old(self).pool().capacity_spec(),
                old(self).pool().idle() ==> self.pool().idle(),
                (from <= all@.len() && old(self).pages_ready(all@, all@.len() - from)) ==> self.pages_ready(
                    all@,
                    all@.len() - j,
                ),
                self.pool().disk().len() == old(self).pool().disk().len(),
                (old(self).pool().coherent() && old(self).pool().readable()) ==> self.pool().readable(),
                (old(self).pool().coherent() && all@.no_duplicates() && from <= all@.len()) ==> forall|k: int|
                    0 <= k < from ==> #[trigger] self.pool().content(all@[k]) == old(self).pool().content(all@[k]),
            decreases all@.len() - j,
        {
            let extra = all[j];
            let ghost q0 = self.pool();
            let mut page = self.buffer_pool.read_copy(extra)?;
            proof {
                if old(self).pool().coherent() {
                    lemma_content_sound(self.buffer_pool, extra);
                }
            }
            page.header.page_type = PageType::Freelist;
            page.data = vec![0u8; PAGE_BODY_SIZE];
            self.buffer_pool.write_copy(page)?;
            let ghost q1 = self.pool();
            proof {
                if from <= all@.len() && old(self).pages_ready(all@, all@.len() - from) {
                    assert forall|x: int| 0 <= x < all@.len() implies q1.content(#[trigger] all@[x]) is Some by {
                        assert(q0.content(all@[x]) is Some);
                    }
                }
            }
            self.append_page_write_wal(extra)?;
            proof {
                if (old(self).pool().coherent() && old(self).pool().readable()) {
                    let pr = self.pool();
                    assert forall|x: u32| x < pr.disk().len() implies #[trigger] pr.content(x) is Some by {
                        assert(q0.content(x) is Some);
                        assert(q1.content(x) is Some);
                    }
                }
                if old(self).pool().coherent() && all@.no_duplicates() && from <= all@.len() {
                    assert forall|k: int| 0 <= k < from implies #[trigger] self.pool().content(all@[k]) == old(
                        self,
                    ).pool().content(all@[k]) by {
                        assert(all@[k] != all@[j as int]);
                        assert(q1.content(all@[k]) == q0.content(all@[k]));
                    }
                }
                if from <= all@.len() && old(self).pages_ready(all@, all@.len() - from) {
                    assert forall|x: int| 0 <= x < all@.len() implies self.pool().content(#[trigger] all@[x]) is Some by {
                        assert(q1.content(all@[x]) is Some);
                    }
                }
            }
            j = j + 1;
        }
        Ok(())
    }

    /// Logs every page the cache holds changed.
    #[verifier::spinoff_prover]
    #[verifier::rlimit(100)]
    pub fn log_dirty_pages(&mut self) -> (r: Result<(), DbError>)
        requires
            old(self).wf(),
        ensures
            final(self).wf(),
            final(self).tables_spec() == old(self).tables_spec(),
            final(self).checkpoint_lsn() == old(self).checkpoint_lsn(),
            final(self).catalog_page() == old(self).catalog_page(),
            final(self).data_pages() == old(self).data_pages(),
            final(self).log_reset_spec() == old(self).log_reset_spec(),
            final(self).lsn() >= old(self).lsn(),
            old(self).pool().coherent() ==> final(self).pool().coherent() && forall|x: u32|
                #[trigger] final(self).pool().content(x) == old(self).pool().content(x),
            old(self).pool().idle() ==> final(self).pool().idle(),
            final(self).pool().capacity_spec() == old(self).pool().capacity_spec(),
            old(self).pool().clock_spec() <= final(self).pool().clock_spec() <= old(self).pool().clock_spec() + 3
                * old(self).pool().capacity_spec(),
            r is Ok ==> exists|ids: Seq<u32>|
                #[trigger] logged_pages(*old(self), *final(self), ids),
            (old(self).pool().can_run((3 * old(self).pool().capacity_spec()) as int) && old(self).lsn()
                + old(self).pool().capacity_spec() <= u64::MAX) ==> r is Ok,
            r matches Err(e) ==> e.kind() == ErrorKind::InvalidOperation || e.kind() == ErrorKind::Corruption,
    {
        let ids = self.buffer_pool.dirty_ids();
        let ghost p0 = self.buffer_pool;
        let ghost l0 = self.log_pending();
        proof {
            p0.lemma_cache_bound();
        }
        let mut i: usize = 0;
        while i < ids.len()
            invariant
                self.wf(),
                i <= ids@.len(),
                ids@.len() <= p0.capacity_spec(),
                p0 == old(self).pool(),
                l0 == old(self).log_pending(),
                ids@.no_duplicates(),
                forall|id: u32| ids@.contains(id) <==> (p0.cache().contains_key(id) && p0.cache()[id].dirty),
                self.tables_spec() == old(self).tables_spec(),
                self.checkpoint_lsn() == old(self).checkpoint_lsn(),
                self.catalog_page() == old(self).catalog_page(),
                self.data_pages() == old(self).data_pages(),
                self.log_reset_spec() == old(self).log_reset_spec(),
                self.lsn() == old(self).lsn() + i,
                self.pool().capacity_spec() == p0.capacity_spec(),
                p0.clock_spec() <= self.pool().clock_spec() <= p0.clock_spec() + 3 * i,
                p0.idle() ==> self.pool().idle(),
                old(self).pool().coherent() ==> self.pool().coherent() && forall|x: u32|
                    #[trigger] self.pool().content(x) == old(self).pool().content(x),
                self.log_pending().len() == l0.len() + i,
                self.log_pending().subrange(0, l0.len() as int) == l0,
                forall|k: int|
                    0 <= k < i ==> #[trigger] logged_page(*old(self), self.log_pending()[l0.len() + k], k, ids@[k]),
            decreases ids@.len() - i,
        {
            proof {
                assert(ids@.contains(ids@[i as int]));
            }
            let ghost before = self.log_pending();
            self.append_page_write_wal(ids[i])?;
            proof {
                let data = choose|data: Seq<u8>|
                    self.log_pending() == before.push(
                        crate::engine::wal_record::wal_record_bytes(self.lsn(), WalRecordType::PageWrite, data),
                    ) && (old(self).pool().coherent() ==> data == spec_u32_to_le_bytes(ids@[i as int])
                        + crate::engine::page::stored_page(
                        (old(self).pool().content(ids@[i as int])->0).0,
                        (old(self).pool().content(ids@[i as int])->0).1,
                    ));
                assert(self.log_pending().subrange(0, l0.len() as int) =~= l0);
                assert forall|k: int| 0 <= k < i + 1 implies #[trigger] logged_page(
                    *old(self),
                    self.log_pending()[l0.len() + k],
                    k,
                    ids@[k],
                ) by {
                    if k < i {
                        assert(self.log_pending()[l0.len() + k] == before[l0.len() + k]);
                    } else {
                        assert(self.log_pending()[l0.len() + k] == crate::engine::wal_record::wal_record_bytes(
                            self.lsn(),
                            WalRecordType::PageWrite,
                            data,
                        ));
                        assert(self.lsn() == (old(self).lsn() + k + 1) as u64);
                    }
                }
            }
            i = i + 1;
        }
        proof {
            assert(logged_pages(*old(self), *self, ids@));
        }
        Ok(())
    }
}

impl FileStorage {
    /// Replaces the catalog and stores it in the catalog pages (see
    /// [`FileStorage::write_catalog_to_pages`]).
    pub fn save_catalog(&mut self, catalog: &Catalog) -> (r: Result<(), DbError>)
        requires
            old(self).wf(),
            catalog.wf(),
        ensures
            final(self).wf(),
            final(self).tables_spec() == catalog@,
            final(self).checkpoint_lsn() == old(self).checkpoint_lsn(),
            final(self).data_pages() == old(self).data_pages(),
    {
        self.catalog = catalog.duplicate();
        self.write_catalog_to_pages(catalog)
    }

    pub fn get_catalog(&self) -> (r: &Catalog)
        requires
            self.wf(),
        ensures
            r@ == self.tables_spec(),
            r.wf(),
    {
        &self.catalog
    }

    /// The table of that name, to change in place; only the catalog changes.
    pub fn get_table_mut(&mut self, name: &str) -> (r: Option<&mut Table>)
        requires
            old(self).wf(),
        ensures
            final(self).wf(),
            r is Some <==> crate::engine::catalog::has_table(old(self).tables_spec(), name@),
            r is None ==> final(self).tables_spec() == old(self).tables_spec(),
            r matches Some(t) ==> {
                let i = table_position(old(self).tables_spec(), name@);
                &&& t@ == old(self).tables_spec()[i].1
                &&& final(self).tables_spec() == old(self).tables_spec().update(i, (name@, final(t)@))
            },
            final(self).lsn() == old(self).lsn(),
            final(self).checkpoint_lsn() == old(self).checkpoint_lsn(),
            final(self).catalog_page() == old(self).catalog_page(),
            final(self).pool() == old(self).pool(),
            final(self).data_pages() == old(self).data_pages(),
            final(self).log_pending() == old(self).log_pending(),
            final(self).log_reset_spec() == old(self).log_reset_spec(),
    {
        self.catalog.get_table_mut(name)
    }

    /// The table of that name.
    pub fn get_table(&self, name: &str) -> (r: Option<&Table>)
        requires
            self.wf(),
        ensures
            r is Some <==> crate::engine::catalog::has_table(self.tables_spec(), name@),
            r matches Some(t) ==> exists|i: int|
                0 <= i < self.tables_spec().len() && self.tables_spec()[i].0 == name@ && t@ == self.tables_spec()[i].1,
    {
        self.catalog.get_table(name)
    }

    /// Adds an empty table: it is created in the catalog (an empty or taken
    /// name is an invalid operation), given a fresh chain of data pages, and
    /// the catalog is stored in its pages; the pages changed are logged.
    #[verifier::spinoff_prover]
    #[verifier::rlimit(100)]
    pub fn create_table(&mut self, schema: TableSchema) -> (r: Result<(), DbError>)
        requires
            old(self).wf(),
        ensures
            final(self).wf(),
            final(self).checkpoint_lsn() == old(self).checkpoint_lsn(),
            (schema@.name.len() == 0 || crate::engine::catalog::has_table(old(self).tables_spec(), schema@.name))
                ==> (r is Err && final(self).tables_spec() == old(self).tables_spec()),
            r is Ok ==> exists|first: u32|
                catalog_map(final(self).tables_spec()) == catalog_map(old(self).tables_spec()).insert(
                    schema@.name,
                    TableMeta {
                        schema: schema@,
                        read_only: false,
                        data_page_id: Some(first),
                        index_root_page_id: None,
                        next_row_id: 0,
                    },
                ) && final(self).data_pages() == old(self).data_pages().push((schema@.name, first)),
            (schema@.name.len() > 0 && !crate::engine::catalog::has_table(old(self).tables_spec(), schema@.name)
                && create_ok(*old(self), schema@)) ==> r is Ok,
    {
        let ghost s0 = *self;
        let ghost p0 = self.pool();
        let ghost n = p0.disk().len();
        let ghost sm = schema@;
        let ghost ok = schema@.name.len() > 0 && !crate::engine::catalog::has_table(old(self).tables_spec(), schema@.name)
            && create_ok(s0, schema@);
        let ghost ids = id_walk(p0, s0.catalog_page(), Seq::empty(), (n + 1) as nat)->0;
        let ghost x = (
            sm.name,
            TableMeta { schema: sm, read_only: false, data_page_id: Some(n as u32), index_root_page_id: None, next_row_id: 0 },
        );
        let name = schema.name().to_owned();
        let ghost v0 = self.catalog@;
        self.catalog.create_table(schema)?;
        let ghost v1 = self.catalog@;
        let table_storage = TableStorage::new(&mut self.buffer_pool)?;
        let ghost pm = self.pool();
        let first = table_storage.first_data_page_id();
        let ghost d0 = self.data_pages();
        self.table_names.push(name.clone());
        self.table_data.push(table_storage);
        let ghost entry = (
            name@,
            TableMeta {
                schema: schema@,
                read_only: false,
                data_page_id: None,
                index_root_page_id: None,
                next_row_id: 0,
            },
        );
        proof {
            assert(self.data_pages() =~= d0.push((name@, first)));
            crate::engine::catalog::lemma_entries_sorted(&old(self).catalog);
            crate::engine::catalog::lemma_sorted_unique(v0);
            let pos = choose|pos: int| 0 <= pos <= v0.len() && v1 == v0.insert(pos, entry);
            crate::engine::catalog::lemma_map_insert(v0, pos, entry);
            assert(v1[pos] == entry);
            assert(crate::engine::catalog::has_table(v1, name@));
        }
        match self.catalog.get_table_mut(name.as_str()) {
            Some(t) => {
                t.set_data_page_id(first);
                proof {
                    let p = table_position(v1, name@);
                    crate::engine::catalog::lemma_map_update(
                        v1,
                        p,
                        TableMeta { data_page_id: Some(first), ..v1[p].1 },
                    );
                    crate::engine::catalog::lemma_position(v1, p);
                    let pos = choose|pos: int| 0 <= pos <= v0.len() && v1 == v0.insert(pos, entry);
                    crate::engine::catalog::lemma_position(v1, pos);
                }
            },
            None => {},
        }
        let ghost v2 = self.catalog@;
        let ghost d1 = self.data_pages();
        proof {
            assert(catalog_map(v2) =~= catalog_map(v0).insert(
                schema@.name,
                TableMeta {
                    schema: schema@,
                    read_only: false,
                    data_page_id: Some(first),
                    index_root_page_id: None,
                    next_row_id: 0,
                },
            ));
            assert(d1 == d0.push((schema@.name, first)));
        }
        let snapshot = self.catalog.duplicate();
        proof {
            if ok {
                let pos = choose|pos: int| 0 <= pos <= v0.len() && v1 == v0.insert(pos, (sm.name, crate::engine::catalog_codec::fresh_meta(sm)));
                assert(first == n);
                crate::engine::catalog::lemma_position(v1, pos);
                assert(v2 =~= v0.insert(pos, x));
                lemma_catalog_bytes_insert(v0, pos, x);
                assert(p0.content(n as u32) is None);
                lemma_id_walk_frame(p0, pm, s0.catalog_page(), Seq::empty(), (n + 1) as nat, (n + 2) as nat, n as u32);
                assert forall|i: int| 0 <= i < v2.len() implies crate::engine::catalog_codec::table_encodable(
                    #[trigger] v2[i].1,
                ) by {
                    if i < pos {
                        assert(v2[i] == v0[i]);
                    } else if i > pos {
                        assert(v2[i] == v0[i - 1]);
                    }
                }
                assert(catalog_pages_ok(*self, snapshot@));
            }
        }
        self.write_catalog_to_pages(&snapshot)?;
        self.log_dirty_pages()?;
        assert(catalog_map(self.tables_spec()) == catalog_map(old(self).tables_spec()).insert(
            schema@.name,
            TableMeta {
                schema: schema@,
                read_only: false,
                data_page_id: Some(first),
                index_root_page_id: None,
                next_row_id: 0,
            },
        ));
        assert(self.data_pages() == old(self).data_pages().push((schema@.name, first)));
        Ok(())
    }

    /// Removes a table (a missing name is table-not-found), forgets its data
    /// pages, and stores the catalog in its pages.
    pub fn drop_table(&mut self, name: &str) -> (r: Result<(), DbError>)
        requires
            old(self).wf(),
        ensures
            final(self).wf(),
            final(self).checkpoint_lsn() == old(self).checkpoint_lsn(),
            !crate::engine::catalog::has_table(old(self).tables_spec(), name@) ==> (r is Err
                && final(self).tables_spec() == old(self).tables_spec()),
            crate::engine::catalog::has_table(old(self).tables_spec(), name@) ==> catalog_map(
                final(self).tables_spec(),
            ) == catalog_map(old(self).tables_spec()).remove(name@),
            crate::engine::catalog::has_table(old(self).tables_spec(), name@) ==> forall|i: int|
                0 <= i < final(self).data_pages().len() ==> #[trigger] final(self).data_pages()[i].0 != name@,
    {
        let ghost v0 = self.catalog@;
        self.catalog.drop_table(name)?;
        proof {
            crate::engine::catalog::lemma_entries_sorted(&old(self).catalog);
            crate::engine::catalog::lemma_sorted_unique(v0);
            let i = choose|i: int|
                0 <= i < v0.len() && v0[i].0 == name@ && self.catalog@ == v0.remove(i);
            lemma_map_remove(v0, i);
        }
        let ghost v1 = self.catalog@;
        let mut k: usize = 0;
        while k < self.table_names.len()
            invariant
                self.wf(),
                self.catalog@ == v1,
                self.checkpoint_lsn() == old(self).checkpoint_lsn(),
                k <= self.table_names@.len(),
                forall|j: int| 0 <= j < k ==> #[trigger] self.data_pages()[j].0 != name@,
            decreases self.table_names@.len() - k,
        {
            if same_name(self.table_names[k].as_str(), name) {
                let ghost d0 = self.data_pages();
                self.table_names.remove(k);
                self.table_data.remove(k);
                proof {
                    assert(self.data_pages() =~= d0.remove(k as int));
                }
            } else {
                k = k + 1;
            }
        }
        let snapshot = self.catalog.duplicate();
        self.write_catalog_to_pages(&snapshot)
    }

    /// Renames a table (see [`Catalog::rename_table`]), moves its data pages
    /// to the new name, and stores the catalog in its pages.
    pub fn rename_table(&mut self, old_name: &str, new_name: &str) -> (r: Result<(), DbError>)
        requires
            old(self).wf(),
        ensures
            final(self).wf(),
            final(self).checkpoint_lsn() == old(self).checkpoint_lsn(),
            (old_name@ != new_name@ && !crate::engine::catalog::has_table(old(self).tables_spec(), old_name@)
                && !crate::engine::catalog::has_table(old(self).tables_spec(), new_name@)) ==> (r matches Err(e)
                && e.kind() == ErrorKind::TableNotFound && final(self).tables_spec() == old(self).tables_spec()),
            (old_name@ != new_name@ && crate::engine::catalog::has_table(old(self).tables_spec(), new_name@)) ==> (
            r matches Err(e) && e.kind() == ErrorKind::InvalidOperation && final(self).tables_spec() == old(
                self,
            ).tables_spec()),
            (old_name@ != new_name@ && r is Ok) ==> crate::engine::catalog::has_table(final(self).tables_spec(), new_name@)
                && !crate::engine::catalog::has_table(final(self).tables_spec(), old_name@),
    {
        let ghost before = self.catalog@;
        let ghost old_cat = self.catalog;
        self.catalog.rename_table(old_name, new_name)?;
        proof {
            if old_name@ != new_name@ {
                let pos = choose|pos: int|
                    0 <= pos < before.len() && #[trigger] before.remove(
                        crate::engine::catalog::table_position(before, old_name@),
                    ).insert(pos, crate::engine::catalog::renamed_entry(before, old_name@, new_name@)) == self.catalog@;
                let after = self.catalog@;
                let p = crate::engine::catalog::table_position(before, old_name@);
                crate::engine::catalog::lemma_entries_sorted(&self.catalog);
                crate::engine::catalog::lemma_sorted_unique(after);
                assert(after[pos].0 == new_name@);
                assert(crate::engine::catalog::has_table(after, new_name@));
                if crate::engine::catalog::has_table(after, old_name@) {
                    let j = choose|j: int| 0 <= j < after.len() && (#[trigger] after[j]).0 == old_name@;
                    let rem = before.remove(p);
                    if j < pos {
                        assert(after[j] == rem[j]);
                    } else if j > pos {
                        assert(after[j] == rem[j - 1]);
                    }
                    let k = if j < pos { j } else { j - 1 };
                    if k < p {
                        assert(rem[k] == before[k]);
                    } else {
                        assert(rem[k] == before[k + 1]);
                    }
                    crate::engine::catalog::lemma_entries_sorted(&old_cat);
                    crate::engine::catalog::lemma_sorted_unique(before);
                    assert(before[p].0 == old_name@);
                    assert(before[if k < p { k } else { k + 1 }].0 == old_name@);
                    assert(false);
                }
            }
        }
        match self.find_data(old_name) {
            Some(i) => {
                self.table_names.set(i, new_name.to_owned());
            },
            None => {},
        }
        let snapshot = self.catalog.duplicate();
        self.write_catalog_to_pages(&snapshot)
    }

    /// Stores a row in a table's data pages (see [`TableStorage::insert_row`])
    /// and logs the pages changed. A table with no data pages is
    /// table-not-found.
    pub fn insert_row(&mut self, table: &str, row: &Row) -> (r: Result<(), DbError>)
        requires
            old(self).wf(),
        ensures
            final(self).wf(),
            final(self).tables_spec() == old(self).tables_spec(),
            final(self).data_pages() == old(self).data_pages(),
            (forall|i: int| 0 <= i < old(self).data_pages().len() ==> #[trigger] old(self).data_pages()[i].0 != table@)
                ==> (r matches Err(e) && e.kind() == ErrorKind::TableNotFound),
            old(self).pool().coherent() ==> final(self).pool().coherent(),
            (r is Ok && old(self).pool().coherent()) ==> exists|i: int|
                0 <= i < old(self).data_pages().len() && (#[trigger] old(self).data_pages()[i]).0 == table@
                    && placed(old(self).pool(), final(self).pool(), old(self).data_pages()[i].1, record_of(row_bytes(row@))),
            (row@.len() <= u32::MAX && row_bytes(row@).len() + 4 <= crate::engine::table_storage::MAX_USED
                && old(self).pool().disk().len() < u32::MAX && old(self).pool().can_run(
                (3 * (old(self).pool().disk().len() + 1) + 14 + 3 * old(self).pool().capacity_spec()) as int,
            ) && old(self).lsn() + old(self).pool().capacity_spec() <= u64::MAX) ==> forall|i: int|
                #[trigger] first_named(old(self).data_pages(), table@, i) && crate::engine::table_storage::walkable_chain(
                    old(self).pool(),
                    old(self).data_pages()[i].1,
                    (old(self).pool().disk().len() + 1) as nat,
                ) ==> r is Ok,
    {
        let i = match self.find_data(table) {
            Some(i) => i,
            None => {
                return Err(DbError::table_not_found(table));
            },
        };
        let ghost p0 = self.pool();
        let first = self.table_data[i].first_data_page_id();
        let storage = TableStorage::from_first_page_id(first);
        proof {
            if p0.can_run((3 * (p0.disk().len() + 1) + 14 + 3 * p0.capacity_spec()) as int) {
                assert(p0.can_run((3 * (p0.disk().len() + 1) + 14) as int));
            }
        }
        storage.insert_row(&mut self.buffer_pool, row)?;
        let ghost p1 = self.pool();
        self.log_dirty_pages()?;
        proof {
            if p0.coherent() {
                assert(self.data_pages()[i as int].1 == first);
                assert(placed(p0, p1, first, record_of(row_bytes(row@))));
                let ids = choose|ids: Seq<u32>|
                    #[trigger] chain(p0, first, ids) && (forall|j: int| 1 <= j < ids.len() ==> #[trigger] ids[j] != 0) && (forall|j: int|
                        0 <= j < ids.len() ==> used_len(page_body(p0, #[trigger] ids[j])) <= crate::engine::table_storage::MAX_USED) && (
                    forall|j: int|
                        0 <= j < ids.len() - 1 ==> crate::engine::table_storage::free_space(page_body(p0, #[trigger] ids[j])) < record_of(row_bytes(row@)).len())
                        && crate::engine::table_storage::placed_after(p0, p1, ids.last(), record_of(row_bytes(row@)));
                assert(crate::engine::table_storage::placed_after(p0, self.pool(), ids.last(), record_of(row_bytes(row@))));
                assert(placed(p0, self.pool(), first, record_of(row_bytes(row@))));
            }
        }
        Ok(())
    }

    /// The row with the given index in a table's data pages (see
    /// [`TableStorage::get_row`]). A table with no data pages is
    /// table-not-found.
    #[verifier::rlimit(60)]
    pub fn get_row(&mut self, table: &str, row_idx: usize) -> (r: Result<Option<Row>, DbError>)
        requires
            old(self).wf(),
        ensures
            final(self).wf(),
            final(self).tables_spec() == old(self).tables_spec(),
            final(self).data_pages() == old(self).data_pages(),
            (forall|i: int| 0 <= i < old(self).data_pages().len() ==> #[trigger] old(self).data_pages()[i].0 != table@)
                ==> (r matches Err(e) && e.kind() == ErrorKind::TableNotFound),
            old(self).pool().coherent() ==> final(self).pool().coherent() && forall|x: u32|
                #[trigger] final(self).pool().content(x) == old(self).pool().content(x),
            r matches Ok(Some(row)) ==> (old(self).pool().coherent() ==> exists|i: int, ids: Seq<u32>|
                0 <= i < old(self).data_pages().len() && (#[trigger] old(self).data_pages()[i]).0 == table@
                    && #[trigger] chain(old(self).pool(), old(self).data_pages()[i].1, ids) && (forall|j: int|
                    1 <= j < ids.len() ==> #[trigger] ids[j] != 0) && found_row(
                    scan_pages(old(self).pool(), ids, row_idx as nat),
                    row@,
                )),
            r matches Ok(None) ==> (old(self).pool().coherent() ==> exists|i: int, ids: Seq<u32>|
                0 <= i < old(self).data_pages().len() && (#[trigger] old(self).data_pages()[i]).0 == table@
                    && #[trigger] chain(old(self).pool(), old(self).data_pages()[i].1, ids) && next_link(
                    page_body(old(self).pool(), ids.last()),
                ) == 0 && scan_pages(old(self).pool(), ids, row_idx as nat) is Passed),
            old(self).pool().can_run(3 * (old(self).pool().disk().len() + 1) as int) ==> forall|i: int|
                #[trigger] first_named(old(self).data_pages(), table@, i) ==> row_result(
                    r,
                    crate::engine::table_storage::row_walk(
                        old(self).pool(),
                        old(self).data_pages()[i].1,
                        row_idx as nat,
                        0,
                        (old(self).pool().disk().len() + 1) as nat,
                    ),
                ),
    {
        let i = match self.find_data(table) {
            Some(i) => i,
            None => {
                return Err(DbError::table_not_found(table));
            },
        };
        let first = self.table_data[i].first_data_page_id();
        let storage = TableStorage::from_first_page_id(first);
        let ghost p0 = self.pool();
        let ghost dp = self.data_pages();
        let res = storage.get_row(&mut self.buffer_pool, row_idx);
        proof {
            assert(dp[i as int].1 == first && dp[i as int].0 == table@);
            if p0.coherent() {
                if res is Ok && res->Ok_0 is Some {
                    let rv = (res->Ok_0)->0@;
                    let ids = choose|ids: Seq<u32>|
                        #[trigger] chain(p0, first, ids) && found_row(scan_pages(p0, ids, row_idx as nat), rv);
                    assert(chain(p0, dp[i as int].1, ids));
                }
                if res is Ok && res->Ok_0 is None {
                    let ids = choose|ids: Seq<u32>|
                        #[trigger] chain(p0, first, ids) && next_link(page_body(p0, ids.last())) == 0
                            && scan_pages(p0, ids, row_idx as nat) is Passed;
                    assert(chain(p0, dp[i as int].1, ids));
                }
            }
        }
        res
    }

    /// Changing one cell is not supported by the paged engine.
    pub fn set_cell(&mut self, table: &str, row_idx: usize, col_idx: usize, value: Value) -> (r: Result<
        (),
        DbError,
    >)
        ensures
            r matches Err(e) && e.kind() == ErrorKind::Unsupported,
    {
        Err(DbError::unsupported("row operations not yet integrated"))
    }

    /// Replacing all rows is not supported by the paged engine.
    pub fn replace_rows(&mut self, table: &str, rows: Vec<Row>) -> (r: Result<(), DbError>)
        ensures
            r matches Err(e) && e.kind() == ErrorKind::Unsupported,
    {
        Err(DbError::unsupported("row operations not yet integrated"))
    }

    /// Reads the catalog again from its pages, makes it the current one and
    /// gives a copy of it.
    pub fn reload_from_disk(&mut self) -> (r: Result<Catalog, DbError>)
        requires
            old(self).wf(),
        ensures
            final(self).wf(),
            r matches Ok(c) ==> c.wf() && c@ == final(self).tables_spec(),
            old(self).pool().can_read(3 * (old(self).pool().disk().len() + 1) as int) ==> catalog_result(
                r,
                catalog_walk(old(self).pool(), old(self).catalog_page(), (old(self).pool().disk().len() + 1) as nat),
            ),
            r is Err ==> final(self).tables_spec() == old(self).tables_spec() && final(self).data_pages() == old(
                self,
            ).data_pages(),
            r is Ok ==> final(self).data_pages() == data_pages_of(final(self).tables_spec()),
            final(self).lsn() == old(self).lsn(),
            final(self).checkpoint_lsn() == old(self).checkpoint_lsn(),
            final(self).catalog_page() == old(self).catalog_page(),
            final(self).log_pending() == old(self).log_pending(),
            old(self).pool().coherent() ==> final(self).pool().coherent() && forall|x: u32|
                #[trigger] final(self).pool().content(x) == old(self).pool().content(x),
    {
        let catalog = load_catalog(&mut self.buffer_pool, self.catalog_page_id)?;
        self.catalog = catalog;
        self.rebuild_table_data();
        Ok(self.catalog.duplicate())
    }

    /// Hands over the log payloads to append, and whether the log file must
    /// be emptied first; both are then cleared.
    pub fn take_log(&mut self) -> (r: (bool, Vec<Vec<u8>>))
        requires
            old(self).wf(),
        ensures
            final(self).wf(),
            r.0 == old(self).log_reset_spec(),
            r.1@.map_values(|b: Vec<u8>| b@) == old(self).log_pending(),
            final(self).log_pending().len() == 0,
            !final(self).log_reset_spec(),
            final(self).tables_spec() == old(self).tables_spec(),
            final(self).lsn() == old(self).lsn(),
            final(self).checkpoint_lsn() == old(self).checkpoint_lsn(),
            final(self).pool() == old(self).pool(),
    {
        let reset = self.log_reset;
        let mut out: Vec<Vec<u8>> = Vec::new();
        std::mem::swap(&mut out, &mut self.log_out);
        self.log_reset = false;
        proof {
            assert(self.log_pending() =~= Seq::<Seq<u8>>::empty());
        }
        (reset, out)
    }

    /// The pager, whose bytes are the database file.
    pub fn pager(&self) -> (r: &Pager)
        requires
            self.wf(),
        ensures
            r.wf(),
            r@ == self.pool().disk(),
    {
        self.buffer_pool.pager()
    }

    /// Takes a final checkpoint.
    pub fn close(&mut self) -> (r: Result<(), DbError>)
        requires
            old(self).wf(),
        ensures
            final(self).wf(),
            r is Ok ==> final(self).checkpoint_lsn() == final(self).lsn() && final(self).log_pending().len() == 0,
            final(self).tables_spec() == old(self).tables_spec(),
            final(self).lsn() >= old(self).lsn(),
            checkpoint_ok(*old(self)) ==> r is Ok,
            r matches Err(e) ==> e.kind() == ErrorKind::InvalidOperation || e.kind() == ErrorKind::Corruption,
    {
        self.checkpoint()
    }
}

/// What the log records of a page, replay puts back: the data of the
/// page-write record that [`FileStorage::append_page_write_wal`] logs for a
/// page names that page, and the rest of it reads back as the page's header
/// and body, which [`FileStorage::apply_page_write`] then makes the page's
/// content.
pub proof fn lemma_logged_page_replays(page_id: u32, h: PageHeader, body: Seq<u8>)
    requires
        body.len() == crate::engine::page::PAGE_BODY_SIZE,
        h.flags < 0x100_0000,
        h.checksum == 0,
    ensures
        ({
            let data = spec_u32_to_le_bytes(page_id) + crate::engine::page::stored_page(h, body);
            &&& data.len() == 4 + crate::engine::page::PAGE_SIZE
            &&& spec_u32_from_le_bytes(data.subrange(0, 4)) == page_id
            &&& crate::engine::page::parse_page(data.subrange(4, data.len() as int)) == Some((h, body))
        }),
{
    lemma_auto_spec_u32_to_from_le_bytes();
    crate::engine::page::lemma_parts_roundtrip(h, body);
    let data = spec_u32_to_le_bytes(page_id) + crate::engine::page::stored_page(h, body);
    assert(data.subrange(0, 4) =~= spec_u32_to_le_bytes(page_id));
    assert(data.subrange(4, data.len() as int) =~= crate::engine::page::stored_page(h, body));
}

/// Removing the entry of a name removes it from the map.
proof fn lemma_map_remove(entries: Seq<(Seq<char>, TableMeta)>, i: int)
    requires
        crate::engine::catalog::unique_names(entries),
        0 <= i < entries.len(),
    ensures
        catalog_map(entries.remove(i)) == catalog_map(entries).remove(entries[i].0),
{
    let n = entries.remove(i);
    assert forall|k: Seq<char>| #[trigger] catalog_map(n).contains_key(k) == catalog_map(entries).remove(entries[i].0).contains_key(k) by {
        if crate::engine::catalog::has_table(n, k) {
            let p = table_position(n, k);
            let q = if p < i { p } else { p + 1 };
            assert(entries[q] == n[p]);
            crate::engine::catalog::lemma_position(entries, q);
            crate::engine::catalog::lemma_position(entries, i);
        }
        if crate::engine::catalog::has_table(entries, k) && k != entries[i].0 {
            let p = table_position(entries, k);
            assert(p != i);
            let q = if p < i { p } else { p - 1 };
            assert(n[q] == entries[p]);
        }
    }
    assert forall|k: Seq<char>| #[trigger] catalog_map(n).contains_key(k) implies catalog_map(n)[k] == catalog_map(entries).remove(entries[i].0)[k] by {
        let p = table_position(n, k);
        let q = if p < i { p } else { p + 1 };
        assert(entries[q] == n[p]);
        assert(crate::engine::catalog::unique_names(n)) by {
            assert forall|a: int, b: int| 0 <= a < b < n.len() implies (#[trigger] n[a]).0 != (#[trigger] n[b]).0 by {
                let aa = if a < i { a } else { a + 1 };
                let bb = if b < i { b } else { b + 1 };
                assert(n[a] == entries[aa]);
                assert(n[b] == entries[bb]);
            }
        }
        crate::engine::catalog::lemma_position(n, p);
        crate::engine::catalog::lemma_position(entries, q);
    }
    assert(catalog_map(n) =~= catalog_map(entries).remove(entries[i].0));
}

/// An engine that keeps only a catalog in memory; it stores no rows.
#[derive(Debug)]
pub struct InMemoryStorage {
    catalog: Catalog,
}

impl InMemoryStorage {
    pub closed spec fn wf(&self) -> bool {
        self.catalog.wf()
    }

    /// The tables of the catalog.
    pub closed spec fn tables_spec(&self) -> Seq<(Seq<char>, TableMeta)> {
        self.catalog@
    }

    pub fn new() -> (r: Self)
        ensures
            r.wf(),
            r.tables_spec().len() == 0,
    {
        InMemoryStorage { catalog: Catalog::new() }
    }

    /// Replaces the catalog with a copy of the given one.
    pub fn save_catalog(&mut self, catalog: &Catalog) -> (r: Result<(), DbError>)
        requires
            catalog.wf(),
        ensures
            r is Ok,
            final(self).wf(),
            final(self).tables_spec() == catalog@,
    {
        self.catalog = catalog.duplicate();
        Ok(())
    }

    pub fn get_catalog(&self) -> (r: &Catalog)
        requires
            self.wf(),
        ensures
            r@ == self.tables_spec(),
            r.wf(),
    {
        &self.catalog
    }

    /// A copy of the catalog.
    pub fn load_catalog(&self) -> (r: Result<Catalog, DbError>)
        requires
            self.wf(),
        ensures
            r matches Ok(c) && c.wf() && c@ == self.tables_spec(),
    {
        Ok(self.catalog.duplicate())
    }

    /// The table of that name, to change in place.
    pub fn get_table_mut(&mut self, name: &str) -> (r: Option<&mut Table>)
        requires
            old(self).wf(),
        ensures
            final(self).wf(),
            r is Some <==> crate::engine::catalog::has_table(old(self).tables_spec(), name@),
            r is None ==> final(self).tables_spec() == old(self).tables_spec(),
            r matches Some(t) ==> {
                let i = table_position(old(self).tables_spec(), name@);
                &&& t@ == old(self).tables_spec()[i].1
                &&& final(self).tables_spec() == old(self).tables_spec().update(i, (name@, final(t)@))
            },
    {
        self.catalog.get_table_mut(name)
    }

    /// The table of that name.
    pub fn get_table(&self, name: &str) -> (r: Option<&Table>)
        requires
            self.wf(),
        ensures
            r is Some <==> crate::engine::catalog::has_table(self.tables_spec(), name@),
            r matches Some(t) ==> exists|i: int|
                0 <= i < self.tables_spec().len() && self.tables_spec()[i].0 == name@ && t@ == self.tables_spec()[i].1,
    {
        self.catalog.get_table(name)
    }

    /// See [`Catalog::create_table`].
    pub fn create_table(&mut self, schema: TableSchema) -> (r: Result<(), DbError>)
        requires
            old(self).wf(),
        ensures
            final(self).wf(),
            r is Ok <==> (schema@.name.len() > 0 && !crate::engine::catalog::has_table(
                old(self).tables_spec(),
                schema@.name,
            )),
            r is Ok ==> catalog_map(final(self).tables_spec()) == catalog_map(old(self).tables_spec()).insert(
                schema@.name,
                crate::engine::catalog_codec::fresh_meta(schema@),
            ),
            r is Err ==> final(self).tables_spec() == old(self).tables_spec(),
    {
        let ghost v0 = self.catalog@;
        let ghost entry = (schema@.name, crate::engine::catalog_codec::fresh_meta(schema@));
        let r = self.catalog.create_table(schema);
        proof {
            if r is Ok {
                crate::engine::catalog::lemma_entries_sorted(&old(self).catalog);
                crate::engine::catalog::lemma_sorted_unique(v0);
                let pos = choose|pos: int| 0 <= pos <= v0.len() && self.catalog@ == v0.insert(pos, entry);
                crate::engine::catalog::lemma_map_insert(v0, pos, entry);
            }
        }
        r
    }

    /// See [`Catalog::drop_table`].
    pub fn drop_table(&mut self, name: &str) -> (r: Result<(), DbError>)
        requires
            old(self).wf(),
        ensures
            final(self).wf(),
            r is Ok <==> crate::engine::catalog::has_table(old(self).tables_spec(), name@),
            r is Ok ==> catalog_map(final(self).tables_spec()) == catalog_map(old(self).tables_spec()).remove(
                name@,
            ),
            r is Err ==> final(self).tables_spec() == old(self).tables_spec(),
    {
        let ghost v0 = self.catalog@;
        let r = self.catalog.drop_table(name);
        proof {
            if r is Ok {
                crate::engine::catalog::lemma_entries_sorted(&old(self).catalog);
                crate::engine::catalog::lemma_sorted_unique(v0);
                let i = choose|i: int| 0 <= i < v0.len() && v0[i].0 == name@ && self.catalog@ == v0.remove(i);
                lemma_map_remove(v0, i);
            }
        }
        r
    }

    /// See [`Catalog::rename_table`].
    pub fn rename_table(&mut self, old_name: &str, new_name: &str) -> (r: Result<(), DbError>)
        requires
            old(self).wf(),
        ensures
            final(self).wf(),
            old_name@ == new_name@ ==> r is Ok && final(self).tables_spec() == old(self).tables_spec(),
            old_name@ != new_name@ ==> (r is Ok <==> (!crate::engine::catalog::has_table(old(self).tables_spec(), new_name@)
                && crate::engine::catalog::has_table(old(self).tables_spec(), old_name@) && crate::schema::schema_valid(
                new_name@,
                old(self).tables_spec()[table_position(old(self).tables_spec(), old_name@)].1.schema.columns,
            ))),
            (old_name@ != new_name@ && r is Ok) ==> exists|pos: int|
                0 <= pos < old(self).tables_spec().len() && #[trigger] old(self).tables_spec().remove(
                    table_position(old(self).tables_spec(), old_name@),
                ).insert(pos, crate::engine::catalog::renamed_entry(old(self).tables_spec(), old_name@, new_name@))
                    == final(self).tables_spec(),
            r is Err ==> final(self).tables_spec() == old(self).tables_spec(),
            r matches Err(e) ==> (e.kind() == ErrorKind::InvalidOperation || e.kind() == ErrorKind::TableNotFound),
            (r matches Err(e) && e.kind() == ErrorKind::TableNotFound) <==> (old_name@ != new_name@
                && !crate::engine::catalog::has_table(old(self).tables_spec(), new_name@) && !crate::engine::catalog::has_table(
                old(self).tables_spec(),
                old_name@,
            )),
    {
        self.catalog.rename_table(old_name, new_name)
    }

    /// Rows are not stored in memory.
    pub fn insert_row(&mut self, table: &str, row: &Row) -> (r: Result<(), DbError>)
        ensures
            r matches Err(e) && e.kind() == ErrorKind::Unsupported,
    {
        Err(DbError::unsupported("row operations not supported in InMemoryStorage"))
    }

    /// Rows are not stored in memory.
    pub fn get_row(&mut self, table: &str, row_idx: usize) -> (r: Result<Option<Row>, DbError>)
        ensures
            r matches Err(e) && e.kind() == ErrorKind::Unsupported,
    {
        Err(DbError::unsupported("row operations not supported in InMemoryStorage"))
    }

    /// Rows are not stored in memory.
    pub fn set_cell(&mut self, table: &str, row_idx: usize, col_idx: usize, value: Value) -> (r: Result<
        (),
        DbError,
    >)
        ensures
            r matches Err(e) && e.kind() == ErrorKind::Unsupported,
    {
        Err(DbError::unsupported("row operations not supported in InMemoryStorage"))
    }

    /// Rows are not stored in memory.
    pub fn replace_rows(&mut self, table: &str, rows: Vec<Row>) -> (r: Result<(), DbError>)
        ensures
            r matches Err(e) && e.kind() == ErrorKind::Unsupported,
    {
        Err(DbError::unsupported("row operations not supported in InMemoryStorage"))
    }

    /// Nothing to write back.
    pub fn checkpoint(&mut self) -> (r: Result<(), DbError>)
        ensures
            r is Ok,
            final(self).tables_spec() == old(self).tables_spec(),
    {
        Ok(())
    }
}

/// Reads a snapshot record's data: a log sequence number, then an encoded
/// catalog.
pub fn decode_snapshot(data: &[u8]) -> (r: Result<(u64, Catalog), DbError>)
    ensures
        data@.len() < 8 ==> (r matches Err(e) && e.kind() == ErrorKind::Io),
        data@.len() >= 8 ==> match parse_catalog(data@.subrange(8, data@.len() as int)) {
            Ok((m, _)) => (r matches Ok((lsn, c)) && lsn == spec_u64_from_le_bytes(data@.subrange(0, 8))
                && c.wf() && catalog_map(c@) == m),
            Err(k) => (r matches Err(e) && e.kind() == k),
        },
{
    if data.len() < 8 {
        return Err(DbError::io("failed to fill whole buffer"));
    }
    let seq = read_u64_at(data, 0);
    let catalog = decode_catalog(&data[8..data.len()])?;
    Ok((seq, catalog))
}

} // verus!
