//! The order in which a table's rows read back: rows put at the end of a
//! chain of data pages keep their numbers, in the order they came.
use crate::engine::buffer_pool::{lemma_content_sound, BufferPool};
use crate::engine::page::{DATA_PAGE_HEADER_SIZE, PAGE_BODY_SIZE};
use crate::engine::row_laws::{
    chain_count, count, lemma_appended_sound, lemma_chain_passes, lemma_chain_prefix, lemma_found_in_fresh_page,
    lemma_found_in_place, lemma_fresh_chain_sound, lemma_insert_keeps_sound, lemma_scan_extend,
    lemma_scan_pages_same, lemma_tiles_same, records_end, sound_chain, sound_page, tiles,
};
use crate::engine::table_storage::{
    appended, chain, empty_data_body, found_row, free_space, linked, next_link, page_body, placed, record_of,
    scan, scan_pages, used_len, Scan, MAX_USED,
};
use crate::engine::wire::{encodable, lemma_row_roundtrip, row_bytes, MAX_DECODED_ITEMS};
use crate::value::ValueModel;
use vstd::bytes::*;
use vstd::prelude::*;

verus! {

/// The whole chain of data pages from `first`: each page links to the
/// next, none after the first is page zero, and the last links to none.
pub open spec fn full_chain(pool: BufferPool, first: u32, ids: Seq<u32>) -> bool {
    &&& chain(pool, first, ids)
    &&& forall|j: int| 1 <= j < ids.len() ==> #[trigger] ids[j] != 0
    &&& next_link(page_body(pool, ids.last())) == 0
}

/// The chain of data pages from `first` holds the records `rows`, in
/// order and nothing more: record number `i` is `rows[i]`.
pub open spec fn holds_rows(pool: BufferPool, first: u32, rows: Seq<Seq<u8>>) -> bool {
    exists|ids: Seq<u32>|
        #[trigger] full_chain(pool, first, ids) && (forall|j: int|
            0 <= j < ids.len() ==> sound_page(page_body(pool, #[trigger] ids[j]))) && chain_count(pool, ids)
            == rows.len() && forall|i: int|
            0 <= i < rows.len() ==> scan_pages(pool, ids, i as nat) == Scan::Found(#[trigger] rows[i])
}

/// A record of `len` bytes goes to the last page of the chain from
/// `first`: every page of the chain before its last has less room.
pub open spec fn lands_last(pool: BufferPool, first: u32, len: int) -> bool {
    forall|ids: Seq<u32>, j: int|
        #![trigger full_chain(pool, first, ids), ids[j]]
        full_chain(pool, first, ids) && 0 <= j < ids.len() - 1 ==> free_space(page_body(pool, ids[j])) < len
}

/// A scan of tiled records that passes them all counts them all.
proof fn lemma_scan_passed_count(body: Seq<u8>, off: int, end: int, want: nat, seen: nat)
    requires
        tiles(body, off, end),
        end <= body.len(),
        seen <= want,
        scan(body, off, end, want, seen) is Passed,
    ensures
        scan(body, off, end, want, seen) == Scan::Passed(seen + count(body, off, end)),
        seen + count(body, off, end) <= want,
    decreases end - off,
{
    if off < end {
        let re = off + 4 + spec_u32_from_le_bytes(body.subrange(off, off + 4));
        if re < end {
            lemma_scan_passed_count(body, re, end, want, seen + 1);
        } else {
            assert(count(body, re, end) == 0);
        }
    }
}

/// Over pages that hold their records exactly, a scan that passes them
/// all counts them all.
proof fn lemma_pages_passed_count(pool: BufferPool, ids: Seq<u32>, want: nat)
    requires
        forall|j: int| 0 <= j < ids.len() ==> sound_page(page_body(pool, #[trigger] ids[j])),
        scan_pages(pool, ids, want) is Passed,
    ensures
        scan_pages(pool, ids, want) == Scan::Passed(chain_count(pool, ids)),
        chain_count(pool, ids) <= want,
    decreases ids.len(),
{
    if ids.len() > 0 {
        let p = ids.drop_last();
        assert forall|j: int| 0 <= j < p.len() implies sound_page(page_body(pool, #[trigger] p[j])) by {
            assert(p[j] == ids[j]);
        }
        lemma_pages_passed_count(pool, p, want);
        let b = page_body(pool, ids.last());
        assert(sound_page(page_body(pool, ids[ids.len() - 1])));
        lemma_scan_passed_count(b, DATA_PAGE_HEADER_SIZE as int, records_end(b), want, chain_count(pool, p));
    }
}

/// A record among tiled bytes is found the same in bytes that agree on
/// them and go on after them.
proof fn lemma_scan_prefix_same(b1: Seq<u8>, b2: Seq<u8>, off: int, end1: int, end2: int, want: nat, seen: nat)
    requires
        tiles(b1, off, end1),
        0 <= off,
        end1 <= end2,
        end1 <= b1.len(),
        end2 <= b2.len(),
        forall|i: int| off <= i < end1 ==> #[trigger] b1[i] == b2[i],
        seen <= want < seen + count(b1, off, end1),
    ensures
        scan(b2, off, end2, want, seen) == scan(b1, off, end1, want, seen),
    decreases end1 - off,
{
    assert(off < end1);
    assert(off + 4 <= end1);
    assert(b1.subrange(off, off + 4) =~= b2.subrange(off, off + 4));
    let re = off + 4 + spec_u32_from_le_bytes(b1.subrange(off, off + 4));
    assert(re <= end1);
    if seen == want {
        assert(b1.subrange(off + 4, re) =~= b2.subrange(off + 4, re));
    } else {
        if re >= end1 {
            assert(count(b1, re, end1) == 0);
        } else {
            lemma_scan_prefix_same(b1, b2, re, end1, end2, want, seen + 1);
        }
    }
}

/// Where only the last page of `ids` changed, and only after its records,
/// a record it held is found the same.
proof fn lemma_last_page_grown(old: BufferPool, new: BufferPool, ids: Seq<u32>, want: nat)
    requires
        ids.len() > 0,
        forall|j: int| 0 <= j < ids.len() ==> sound_page(page_body(old, #[trigger] ids[j])),
        forall|j: int| 0 <= j < ids.len() - 1 ==> page_body(old, #[trigger] ids[j]) == page_body(new, ids[j]),
        used_len(page_body(old, ids.last())) <= used_len(page_body(new, ids.last())),
        records_end(page_body(new, ids.last())) <= page_body(new, ids.last()).len(),
        forall|i: int|
            DATA_PAGE_HEADER_SIZE <= i < records_end(page_body(old, ids.last())) ==> #[trigger] page_body(
                old,
                ids.last(),
            )[i] == page_body(new, ids.last())[i],
        want < chain_count(old, ids),
    ensures
        scan_pages(new, ids, want) == scan_pages(old, ids, want),
{
    let p = ids.drop_last();
    assert forall|j: int| 0 <= j < p.len() implies page_body(old, #[trigger] p[j]) == page_body(new, p[j]) by {
        assert(p[j] == ids[j]);
    }
    assert forall|j: int| 0 <= j < p.len() implies sound_page(page_body(old, #[trigger] p[j])) by {
        assert(p[j] == ids[j]);
    }
    lemma_scan_pages_same(old, new, p, want);
    if scan_pages(old, p, want) is Passed {
        lemma_pages_passed_count(old, p, want);
        let b = page_body(old, ids.last());
        let nb = page_body(new, ids.last());
        assert(sound_page(page_body(old, ids[ids.len() - 1])));
        lemma_scan_prefix_same(
            b,
            nb,
            DATA_PAGE_HEADER_SIZE as int,
            records_end(b),
            records_end(nb),
            want,
            chain_count(old, p),
        );
    }
}

/// A record appended after tiled bytes adds one to their count.
proof fn lemma_count_appended(b: Seq<u8>, nb: Seq<u8>, off: int, end: int, rec: Seq<u8>, row: Seq<u8>)
    requires
        rec == record_of(row),
        row.len() <= u32::MAX,
        tiles(b, off, end),
        0 <= off,
        end + rec.len() <= nb.len(),
        end <= b.len(),
        forall|i: int| off <= i < end ==> #[trigger] nb[i] == b[i],
        nb.subrange(end, end + rec.len()) == rec,
    ensures
        count(nb, off, end + rec.len()) == count(b, off, end) + 1,
    decreases end - off,
{
    lemma_auto_spec_u32_to_from_le_bytes();
    if off < end {
        let re = off + 4 + spec_u32_from_le_bytes(b.subrange(off, off + 4));
        assert(nb.subrange(off, off + 4) =~= b.subrange(off, off + 4));
        lemma_count_appended(b, nb, re, end, rec, row);
        assert(off + 4 <= end);
        assert(re <= end);
    } else {
        assert(nb.subrange(off, off + 4) =~= rec.subrange(0, 4));
        assert(rec.subrange(0, 4) =~= spec_u32_to_le_bytes(row.len() as u32));
        assert(spec_u32_from_le_bytes(nb.subrange(off, off + 4)) == row.len());
        assert(count(nb, end + rec.len(), end + rec.len()) == 0);
    }
}

/// A table's first data page with no records (as
/// [`crate::engine::table_storage::TableStorage::new`] leaves it) holds no
/// rows, on a sound chain.
pub proof fn lemma_fresh_chain_holds_no_rows(pool: BufferPool, first: u32)
    requires
        pool.content(first) is Some,
        page_body(pool, first) == empty_data_body(),
    ensures
        sound_chain(pool, first),
        holds_rows(pool, first, Seq::empty()),
{
    lemma_fresh_chain_sound(pool, first);
    lemma_auto_spec_u32_to_from_le_bytes();
    let e = empty_data_body();
    assert(e.subrange(0, 4) =~= spec_u32_to_le_bytes(0));
    assert(e.subrange(4, 8) =~= spec_u32_to_le_bytes(0));
    let ids = seq![first];
    assert(full_chain(pool, first, ids));
    assert(ids.drop_last() =~= Seq::<u32>::empty());
    assert(ids.last() == first);
    assert(chain_count(pool, ids.drop_last()) == 0);
    assert(page_body(pool, ids.last()) == e);
    assert(used_len(e) == 0);
    assert(records_end(e) == DATA_PAGE_HEADER_SIZE);
    assert(count(e, DATA_PAGE_HEADER_SIZE as int, DATA_PAGE_HEADER_SIZE as int) == 0);
    assert(chain_count(pool, ids) == 0);
    assert(sound_page(page_body(pool, ids[0])));
}

/// The walk an insert made (see [`placed`]) is the whole chain when the
/// record lands on its last page.
proof fn lemma_walk_is_chain(old: BufferPool, new: BufferPool, first: u32, f: Seq<u32>, w: Seq<u32>, rec: Seq<u8>)
    requires
        full_chain(old, first, f),
        chain(old, first, w),
        forall|j: int| 1 <= j < w.len() ==> #[trigger] w[j] != 0,
        crate::engine::table_storage::placed_after(old, new, w.last(), rec),
        forall|j: int| 0 <= j < f.len() - 1 ==> free_space(page_body(old, #[trigger] f[j])) < rec.len(),
    ensures
        w == f,
{
    if w.len() < f.len() {
        let k = w.len() - 1;
        lemma_chain_prefix(old, first, w, f, k);
        assert(f[k + 1] == next_link(page_body(old, f[k])));
        assert(f[k + 1] != 0);
        assert(free_space(page_body(old, f[k])) < rec.len());
    } else if w.len() > f.len() {
        let k = f.len() - 1;
        lemma_chain_prefix(old, first, f, w, k);
        assert(w[k + 1] == next_link(page_body(old, w[k])));
        assert(w[k + 1] != 0);
    } else {
        assert forall|j: int| 0 <= j < w.len() implies w[j] == f[j] by {
            lemma_chain_prefix(old, first, w, f, j);
        }
        assert(w =~= f);
    }
}

/// Rows put at the end of a table's chain of data pages keep their order:
/// where the chain holds the records `rows` and a row is inserted (see
/// [`placed`]) whose record lands on the chain's last page (see
/// [`lands_last`]), the chain then holds `rows` and the row after them.
/// Rows of more values than [`MAX_DECODED_ITEMS`], or with a value that
/// cannot be read back, are left out; so is a record that lands on an
/// earlier page with room, which then takes a number among the rows.
#[verifier::rlimit(100)]
#[verifier::spinoff_prover]
pub proof fn lemma_insert_appends_row(
    old: BufferPool,
    new: BufferPool,
    first: u32,
    rows: Seq<Seq<u8>>,
    vs: Seq<ValueModel>,
)
    requires
        old.wf(),
        old.coherent(),
        sound_chain(old, first),
        holds_rows(old, first, rows),
        placed(old, new, first, record_of(row_bytes(vs))),
        row_bytes(vs).len() + 4 <= MAX_USED,
        vs.len() <= MAX_DECODED_ITEMS,
        forall|i: int| 0 <= i < vs.len() ==> encodable(#[trigger] vs[i]),
        lands_last(old, first, record_of(row_bytes(vs)).len() as int),
    ensures
        sound_chain(new, first),
        holds_rows(new, first, rows.push(row_bytes(vs))),
{
    let row = row_bytes(vs);
    let rec = record_of(row);
    lemma_auto_spec_u32_to_from_le_bytes();
    assert(rec.len() == row.len() + 4);
    lemma_insert_keeps_sound(old, new, first, row);
    let f = choose|ids: Seq<u32>|
        #[trigger] full_chain(old, first, ids) && (forall|j: int|
            0 <= j < ids.len() ==> sound_page(page_body(old, #[trigger] ids[j]))) && chain_count(old, ids)
            == rows.len() && forall|i: int|
            0 <= i < rows.len() ==> scan_pages(old, ids, i as nat) == Scan::Found(#[trigger] rows[i]);
    let wk = choose|ids: Seq<u32>|
        #[trigger] chain(old, first, ids) && (forall|j: int| 1 <= j < ids.len() ==> #[trigger] ids[j] != 0) && (forall|j: int|
            0 <= j < ids.len() ==> used_len(page_body(old, #[trigger] ids[j])) <= MAX_USED) && (
        forall|j: int|
            0 <= j < ids.len() - 1 ==> free_space(page_body(old, #[trigger] ids[j])) < rec.len())
            && crate::engine::table_storage::placed_after(old, new, ids.last(), rec);
    assert forall|j: int| 0 <= j < f.len() - 1 implies free_space(page_body(old, #[trigger] f[j])) < rec.len() by {
        assert(full_chain(old, first, f));
    }
    lemma_walk_is_chain(old, new, first, f, wk, rec);
    assert(f.no_duplicates());
    let last = f.last();
    let p = f.drop_last();
    let b = page_body(old, last);
    assert(sound_page(page_body(old, f[f.len() - 1])));
    assert forall|j: int| 0 <= j < p.len() implies sound_page(page_body(old, #[trigger] p[j])) by {
        assert(p[j] == f[j]);
    }
    assert forall|j: int| 0 <= j < p.len() implies #[trigger] p[j] != last by {
        assert(p[j] == f[j]);
        assert(f[j] != f[f.len() - 1]);
    }
    let c = chain_count(old, p);
    lemma_row_roundtrip(vs, Seq::empty());
    assert(row + Seq::<u8>::empty() =~= row);
    assert(old.content(last) is Some);
    lemma_content_sound(old, last);
    let u = used_len(b) as int;
    let h = DATA_PAGE_HEADER_SIZE as int;
    let w = c + count(b, h, h + u);
    assert(w == rows.len());
    lemma_chain_passes(old, p, w);
    assert(f =~= p.push(last));
    assert forall|j: int| 0 <= j < f.len() - 1 implies page_body(old, #[trigger] f[j]) == page_body(new, f[j]) by {
        assert(f[j] == p[j]);
    }
    assert forall|j: int| 0 <= j < p.len() implies page_body(old, #[trigger] p[j]) == page_body(new, p[j]) by {}
    lemma_scan_pages_same(old, new, p, w);
    if free_space(b) >= rec.len() {
        lemma_found_in_place(old, new, first, vs, f, w, c);
        let nb = appended(b, rec);
        assert(page_body(new, last) == nb);
        lemma_appended_sound(b, rec, row);
        assert(nb.subrange(4, 8) =~= spec_u32_to_le_bytes((u + rec.len()) as u32));
        assert(used_len(nb) == u + rec.len());
        assert forall|i: int| h <= i < h + u implies #[trigger] nb[i] == b[i] by {}
        assert(nb.subrange(h + u, h + u + rec.len()) =~= rec);
        lemma_count_appended(b, nb, h, h + u, rec, row);
        assert(full_chain(new, first, f));
        assert(chain_count(new, f) == rows.len() + 1);
        let rows2 = rows.push(row);
        assert forall|i: int| 0 <= i < rows2.len() implies scan_pages(new, f, i as nat) == Scan::Found(#[trigger] rows2[i]) by {
            if i < rows.len() {
                lemma_last_page_grown(old, new, f, i as nat);
                assert(rows2[i] == rows[i]);
            }
        }
        assert forall|j: int| 0 <= j < f.len() implies sound_page(page_body(new, #[trigger] f[j])) by {}
        assert(holds_rows(new, first, rows2));
    } else {
        let n = old.disk().len() as u32;
        let f2 = f.push(n);
        lemma_found_in_fresh_page(old, new, first, vs, f, w, c);
        old.lemma_content_in_file(first);
        assert(n != 0);
        let e = empty_data_body();
        let nz = appended(e, rec);
        let lb = linked(b, n);
        assert(page_body(new, last) == lb);
        assert(page_body(new, n) == nz);
        assert(lb.subrange(4, 8) =~= b.subrange(4, 8));
        assert(used_len(lb) == u);
        assert forall|i: int| h <= i < h + u implies #[trigger] b[i] == lb[i] by {}
        lemma_tiles_same(b, lb, h, h + u);
        assert(e.subrange(0, 4) =~= spec_u32_to_le_bytes(0));
        assert(e.subrange(4, 8) =~= spec_u32_to_le_bytes(0));
        assert(sound_page(e));
        lemma_appended_sound(e, rec, row);
        assert(nz.subrange(4, 8) =~= spec_u32_to_le_bytes(rec.len() as u32));
        assert(used_len(nz) == rec.len());
        assert(nz.subrange(h, h + rec.len()) =~= rec);
        lemma_count_appended(e, nz, h, h, rec, row);
        assert(count(e, h, h) == 0);
        assert(f2.drop_last() =~= f);
        assert(f2.last() == n);
        assert(full_chain(new, first, f2));
        assert(chain_count(new, f) == rows.len());
        assert(chain_count(new, f2) == rows.len() + 1);
        let rows2 = rows.push(row);
        assert forall|i: int| 0 <= i < rows2.len() implies scan_pages(new, f2, i as nat) == Scan::Found(#[trigger] rows2[i]) by {
            if i < rows.len() {
                lemma_last_page_grown(old, new, f, i as nat);
                assert(rows2[i] == rows[i]);
                assert forall|j: int| 0 <= j < f.len() implies #[trigger] f[j] == f2[j] by {}
                lemma_scan_extend(new, f, f2, i as nat);
            }
        }
        assert forall|j: int| 0 <= j < f2.len() implies sound_page(page_body(new, #[trigger] f2[j])) by {}
        assert(holds_rows(new, first, rows2));
    }
}

/// Rows inserted one after another into a table's fresh chain of data
/// pages, each landing on the chain's last page, are held in the order
/// they came: where `pools[i + 1]` is `pools[i]` with the row `rows[i]`
/// inserted (see [`placed`]), the chain of the last pool holds the records
/// of `rows`, in order (see [`holds_rows`], and [`lemma_rows_read_back`]
/// for what a read then finds).
pub proof fn lemma_inserts_read_back(pools: Seq<BufferPool>, first: u32, rows: Seq<Seq<ValueModel>>)
    requires
        pools.len() == rows.len() + 1,
        pools[0].content(first) is Some,
        page_body(pools[0], first) == empty_data_body(),
        forall|i: int| 0 <= i < rows.len() ==> (#[trigger] pools[i]).wf() && pools[i].coherent(),
        forall|i: int|
            0 <= i < rows.len() ==> placed(
                #[trigger] pools[i],
                pools[i + 1],
                first,
                record_of(row_bytes(rows[i])),
            ),
        forall|i: int|
            0 <= i < rows.len() ==> row_bytes(#[trigger] rows[i]).len() + 4 <= MAX_USED && rows[i].len()
                <= MAX_DECODED_ITEMS && forall|j: int| 0 <= j < rows[i].len() ==> encodable(#[trigger] rows[i][j]),
        forall|i: int|
            0 <= i < rows.len() ==> lands_last(#[trigger] pools[i], first, record_of(row_bytes(rows[i])).len() as int),
    ensures
        sound_chain(pools[rows.len() as int], first),
        holds_rows(pools[rows.len() as int], first, rows.map_values(|vs: Seq<ValueModel>| row_bytes(vs))),
    decreases rows.len(),
{
    if rows.len() == 0 {
        lemma_fresh_chain_holds_no_rows(pools[0], first);
        assert(rows.map_values(|vs: Seq<ValueModel>| row_bytes(vs)) =~= Seq::<Seq<u8>>::empty());
    } else {
        let n = rows.len() - 1;
        let ps = pools.subrange(0, n + 1);
        let rs = rows.subrange(0, n);
        assert forall|i: int| 0 <= i < rs.len() implies (#[trigger] ps[i]).wf() && ps[i].coherent() by {
            assert(ps[i] == pools[i]);
        }
        assert forall|i: int| 0 <= i < rs.len() implies placed(
            #[trigger] ps[i],
            ps[i + 1],
            first,
            record_of(row_bytes(rs[i])),
        ) by {
            assert(ps[i] == pools[i] && ps[i + 1] == pools[i + 1] && rs[i] == rows[i]);
        }
        assert forall|i: int| 0 <= i < rs.len() implies row_bytes(#[trigger] rs[i]).len() + 4 <= MAX_USED && rs[i].len()
            <= MAX_DECODED_ITEMS && forall|j: int| 0 <= j < rs[i].len() ==> encodable(#[trigger] rs[i][j]) by {
            assert(rs[i] == rows[i]);
        }
        assert forall|i: int| 0 <= i < rs.len() implies lands_last(
            #[trigger] ps[i],
            first,
            record_of(row_bytes(rs[i])).len() as int,
        ) by {
            assert(ps[i] == pools[i] && rs[i] == rows[i]);
        }
        lemma_inserts_read_back(ps, first, rs);
        assert(ps[n] == pools[n]);
        let prev = rs.map_values(|vs: Seq<ValueModel>| row_bytes(vs));
        assert(pools[n].wf() && pools[n].coherent());
        assert(placed(pools[n], pools[n + 1], first, record_of(row_bytes(rows[n]))));
        assert(lands_last(pools[n], first, record_of(row_bytes(rows[n])).len() as int));
        assert(row_bytes(rows[n]).len() + 4 <= MAX_USED && rows[n].len() <= MAX_DECODED_ITEMS && forall|j: int|
            0 <= j < rows[n].len() ==> encodable(#[trigger] rows[n][j]));
        lemma_insert_appends_row(pools[n], pools[n + 1], first, prev, rows[n]);
        assert(prev.push(row_bytes(rows[n])) =~= rows.map_values(|vs: Seq<ValueModel>| row_bytes(vs)));
    }
}

/// Rows read back by their numbers: where the chain from `first` holds the
/// records `rows`, a read along the chain that finds record number `i` as a
/// row finds `rows[i]`, and a read of a number at or past their count finds
/// no row.
pub proof fn lemma_rows_read_back(
    pool: BufferPool,
    first: u32,
    rows: Seq<Seq<u8>>,
    ids: Seq<u32>,
    i: nat,
    vs: Seq<ValueModel>,
)
    requires
        holds_rows(pool, first, rows),
        chain(pool, first, ids),
        forall|j: int| 1 <= j < ids.len() ==> #[trigger] ids[j] != 0,
        found_row(scan_pages(pool, ids, i), vs),
    ensures
        i < rows.len(),
        found_row(Scan::Found(rows[i as int]), vs),
{
    let f = choose|x: Seq<u32>|
        #[trigger] full_chain(pool, first, x) && (forall|j: int|
            0 <= j < x.len() ==> sound_page(page_body(pool, #[trigger] x[j]))) && chain_count(pool, x)
            == rows.len() && forall|k: int|
            0 <= k < rows.len() ==> scan_pages(pool, x, k as nat) == Scan::Found(#[trigger] rows[k]);
    if ids.len() > f.len() {
        let k = f.len() - 1;
        lemma_chain_prefix(pool, first, f, ids, k);
        assert(ids[k + 1] == next_link(page_body(pool, ids[k])));
        assert(ids[k + 1] != 0);
    }
    assert forall|j: int| 0 <= j < ids.len() implies #[trigger] ids[j] == f[j] by {
        lemma_chain_prefix(pool, first, ids, f, j);
    }
    lemma_scan_extend(pool, ids, f, i);
    if i >= rows.len() {
        lemma_chain_passes(pool, f, i);
    }
    assert(scan_pages(pool, f, i) == Scan::Found(rows[i as int]));
}

} // verus!
