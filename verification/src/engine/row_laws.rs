//! Reading back an inserted row: a row placed along a sound chain of data
//! pages is found there again.
use crate::engine::buffer_pool::{lemma_content_sound, BufferPool};
use crate::engine::page::{DATA_PAGE_HEADER_SIZE, PAGE_BODY_SIZE};
use crate::engine::table_storage::{
    appended, chain, empty_data_body, found_row, free_space, linked, next_link, page_body, placed,
    placed_after, record_of, scan, scan_pages, used_len, Scan, MAX_USED,
};
use crate::engine::wire::{encodable, lemma_row_roundtrip, parse_row, row_bytes, MAX_DECODED_ITEMS};
use crate::error::ErrorKind;
use crate::value::ValueModel;
use vstd::bytes::*;
use vstd::prelude::*;

verus! {

/// The records of a page body fill `[off, end)` exactly: each is a `u32`
/// length and that many bytes, and the last ends at `end`.
pub open spec fn tiles(body: Seq<u8>, off: int, end: int) -> bool
    decreases end - off,
{
    if off >= end {
        off == end
    } else if off + 4 > end {
        false
    } else {
        let re = off + 4 + spec_u32_from_le_bytes(body.subrange(off, off + 4));
        re <= end && tiles(body, re, end)
    }
}

/// How many records fill `[off, end)` (see [`tiles`]).
pub open spec fn count(body: Seq<u8>, off: int, end: int) -> nat
    decreases end - off,
{
    if off >= end || off + 4 > end {
        0
    } else {
        let re = off + 4 + spec_u32_from_le_bytes(body.subrange(off, off + 4));
        if off < re && re <= end {
            1 + count(body, re, end)
        } else {
            0
        }
    }
}

/// The end of the records of a data page body.
pub open spec fn records_end(body: Seq<u8>) -> int {
    DATA_PAGE_HEADER_SIZE + used_len(body)
}

/// A data page whose records fill exactly the bytes it says it uses.
pub open spec fn sound_page(body: Seq<u8>) -> bool {
    &&& body.len() == PAGE_BODY_SIZE
    &&& used_len(body) <= MAX_USED
    &&& tiles(body, DATA_PAGE_HEADER_SIZE as int, records_end(body))
}

/// Every chain of data pages from `first`, up to a link of zero, visits no
/// page twice and holds sound pages.
pub open spec fn sound_chain(pool: BufferPool, first: u32) -> bool {
    forall|ids: Seq<u32>|
        #[trigger] chain(pool, first, ids) && (forall|j: int| 1 <= j < ids.len() ==> #[trigger] ids[j] != 0)
            ==> ids.no_duplicates() && forall|j: int|
            0 <= j < ids.len() ==> sound_page(page_body(pool, #[trigger] ids[j]))
}

/// How many records the pages `ids` hold.
pub open spec fn chain_count(pool: BufferPool, ids: Seq<u32>) -> nat
    decreases ids.len(),
{
    if ids.len() == 0 {
        0
    } else {
        let b = page_body(pool, ids.last());
        chain_count(pool, ids.drop_last()) + count(b, DATA_PAGE_HEADER_SIZE as int, records_end(b))
    }
}

/// Looking past the records of tiled bytes passes them all.
proof fn lemma_scan_passes(body: Seq<u8>, off: int, end: int, want: nat, seen: nat)
    requires
        tiles(body, off, end),
        end <= body.len(),
        want >= seen + count(body, off, end),
    ensures
        scan(body, off, end, want, seen) == Scan::Passed(seen + count(body, off, end)),
    decreases end - off,
{
    if off < end {
        let re = off + 4 + spec_u32_from_le_bytes(body.subrange(off, off + 4));
        if re < end {
            lemma_scan_passes(body, re, end, want, seen + 1);
        } else {
            assert(count(body, re, end) == 0);
        }
    }
}

/// Looking for the record after the records of tiled bytes, once a record
/// is appended there, finds it.
proof fn lemma_scan_appended(b: Seq<u8>, nb: Seq<u8>, off: int, end: int, rec: Seq<u8>, row: Seq<u8>, seen: nat)
    requires
        rec == record_of(row),
        row.len() <= u32::MAX,
        tiles(b, off, end),
        0 <= off,
        end + rec.len() <= nb.len(),
        end <= b.len(),
        forall|i: int| off <= i < end ==> #[trigger] nb[i] == b[i],
        nb.subrange(end, end + rec.len()) == rec,
    ensures
        scan(nb, off, end + rec.len(), seen + count(b, off, end), seen) == Scan::Found(row),
    decreases end - off,
{
    lemma_auto_spec_u32_to_from_le_bytes();
    if off < end {
        let re = off + 4 + spec_u32_from_le_bytes(b.subrange(off, off + 4));
        assert(nb.subrange(off, off + 4) =~= b.subrange(off, off + 4));
        lemma_scan_appended(b, nb, re, end, rec, row, seen + 1);
    } else {
        assert(off == end);
        assert(nb.subrange(off, off + 4) =~= rec.subrange(0, 4));
        assert(rec.subrange(0, 4) =~= spec_u32_to_le_bytes(row.len() as u32));
        assert forall|i: int| 0 <= i < row.len() implies #[trigger] nb.subrange(off + 4, off + 4 + row.len())[i]
            == row[i] by {
            assert(nb.subrange(end, end + rec.len())[4 + i] == rec[4 + i]);
            assert(rec[4 + i] == row[i]);
        }
        assert(nb.subrange(off + 4, off + 4 + row.len()) =~= row);
    }
}

/// A read past the last record finds nothing: over pages that all hold
/// their records exactly, looking for record number `want`, at or past the
/// number of records they hold, passes them all, so no row is read for it.
pub proof fn lemma_chain_passes(pool: BufferPool, ids: Seq<u32>, want: nat)
    requires
        forall|j: int| 0 <= j < ids.len() ==> sound_page(page_body(pool, #[trigger] ids[j])),
        want >= chain_count(pool, ids),
    ensures
        scan_pages(pool, ids, want) == Scan::Passed(chain_count(pool, ids)),
    decreases ids.len(),
{
    if ids.len() > 0 {
        let p = ids.drop_last();
        assert forall|j: int| 0 <= j < p.len() implies sound_page(page_body(pool, #[trigger] p[j])) by {
            assert(p[j] == ids[j]);
        }
        lemma_chain_passes(pool, p, want);
        let b = page_body(pool, ids.last());
        assert(sound_page(page_body(pool, ids[ids.len() - 1])));
        lemma_scan_passes(b, DATA_PAGE_HEADER_SIZE as int, records_end(b), want, chain_count(pool, p));
    }
}

/// Pages whose bodies did not change scan the same.
pub(crate) proof fn lemma_scan_pages_same(a: BufferPool, b: BufferPool, ids: Seq<u32>, want: nat)
    requires
        forall|j: int| 0 <= j < ids.len() ==> page_body(a, #[trigger] ids[j]) == page_body(b, ids[j]),
    ensures
        scan_pages(a, ids, want) == scan_pages(b, ids, want),
        chain_count(a, ids) == chain_count(b, ids),
    decreases ids.len(),
{
    if ids.len() > 0 {
        let p = ids.drop_last();
        assert forall|j: int| 0 <= j < p.len() implies page_body(a, #[trigger] p[j]) == page_body(b, p[j]) by {
            assert(p[j] == ids[j]);
        }
        lemma_scan_pages_same(a, b, p, want);
        assert(page_body(a, ids[ids.len() - 1]) == page_body(b, ids[ids.len() - 1]));
    }
}

/// Whether tiled bytes are tiled depends only on the bytes in between.
pub(crate) proof fn lemma_tiles_same(b1: Seq<u8>, b2: Seq<u8>, off: int, end: int)
    requires
        tiles(b1, off, end),
        0 <= off,
        end <= b1.len(),
        end <= b2.len(),
        forall|i: int| off <= i < end ==> #[trigger] b1[i] == b2[i],
    ensures
        tiles(b2, off, end),
        count(b2, off, end) == count(b1, off, end),
    decreases end - off,
{
    if off < end {
        assert(off + 4 <= end);
        assert forall|i: int| 0 <= i < 4 implies #[trigger] b1.subrange(off, off + 4)[i] == b2.subrange(off, off + 4)[i] by {
            assert(b1[off + i] == b2[off + i]);
        }
        assert(b1.subrange(off, off + 4) =~= b2.subrange(off, off + 4));
        let re = off + 4 + spec_u32_from_le_bytes(b1.subrange(off, off + 4));
        lemma_tiles_same(b1, b2, re, end);
    }
}

/// The record joins the last page walked.
#[verifier::rlimit(100)]
pub(crate) proof fn lemma_found_in_place(old: BufferPool, new: BufferPool, first: u32, vs: Seq<ValueModel>, ids: Seq<u32>, w: nat, c: nat)
    requires
        old.wf(),
        old.coherent(),
        chain(old, first, ids),
        ids.no_duplicates(),
        placed_after(old, new, ids.last(), record_of(row_bytes(vs))),
        forall|j: int| 0 <= j < ids.len() ==> sound_page(page_body(old, #[trigger] ids[j])),
        row_bytes(vs).len() + 4 <= MAX_USED,
        parse_row(row_bytes(vs)) == Ok::<(Seq<ValueModel>, int), ErrorKind>((vs, row_bytes(vs).len() as int)),
        scan_pages(old, ids.drop_last(), w) == Scan::Passed(c),
        w == c + count(page_body(old, ids.last()), DATA_PAGE_HEADER_SIZE as int, records_end(page_body(old, ids.last()))),
        free_space(page_body(old, ids.last())) >= record_of(row_bytes(vs)).len(),
    ensures
        chain(new, first, ids),
        found_row(scan_pages(new, ids, w), vs),
        scan_pages(new, ids, w) == Scan::Found(row_bytes(vs)),
{
    let row = row_bytes(vs);
    let rec = record_of(row);
    lemma_auto_spec_u32_to_from_le_bytes();
    assert(rec.len() == row.len() + 4);
    let last = ids.last();
    let p = ids.drop_last();
    let b = page_body(old, last);
    assert(sound_page(page_body(old, ids[ids.len() - 1])));
    assert forall|j: int| 0 <= j < p.len() implies #[trigger] p[j] != last by {
        assert(p[j] == ids[j]);
        assert(ids[j] != ids[ids.len() - 1]);
    }
    assert(old.content(last) is Some);
    lemma_content_sound(old, last);
    let u = used_len(b) as int;
    let h = DATA_PAGE_HEADER_SIZE as int;
    assert(ids =~= p.push(last));
        // the record joins the last page walked
        let nb = appended(b, rec);
        assert(page_body(new, last) == nb);
        assert forall|j: int| 0 <= j < p.len() implies page_body(old, #[trigger] p[j]) == page_body(new, p[j]) by {}
        lemma_scan_pages_same(old, new, p, w);
        assert(nb.subrange(4, 8) =~= spec_u32_to_le_bytes((u + rec.len()) as u32));
        assert(used_len(nb) == u + rec.len());
        assert forall|i: int| h <= i < h + u implies #[trigger] nb[i] == b[i] by {}
        assert(nb.subrange(h + u, h + u + rec.len()) =~= rec);
        lemma_scan_appended(b, nb, h, h + u, rec, row, c);
        assert(scan_pages(new, ids, w) == Scan::Found(row));
        assert forall|j: int| 0 <= j < ids.len() implies new.content(#[trigger] ids[j]) is Some by {}
        assert forall|j: int| 0 <= j < ids.len() - 1 implies ids[j + 1] == next_link(
            page_body(new, #[trigger] ids[j]),
        ) by {
            assert(ids[j] == p[j]);
        }
        assert(chain(new, first, ids));
}

/// The record goes to a fresh page linked after the last page walked.
#[verifier::rlimit(100)]
pub(crate) proof fn lemma_found_in_fresh_page(old: BufferPool, new: BufferPool, first: u32, vs: Seq<ValueModel>, ids: Seq<u32>, w: nat, c: nat)
    requires
        old.wf(),
        old.coherent(),
        chain(old, first, ids),
        ids.no_duplicates(),
        placed_after(old, new, ids.last(), record_of(row_bytes(vs))),
        forall|j: int| 0 <= j < ids.len() ==> sound_page(page_body(old, #[trigger] ids[j])),
        row_bytes(vs).len() + 4 <= MAX_USED,
        parse_row(row_bytes(vs)) == Ok::<(Seq<ValueModel>, int), ErrorKind>((vs, row_bytes(vs).len() as int)),
        scan_pages(old, ids.drop_last(), w) == Scan::Passed(c),
        w == c + count(page_body(old, ids.last()), DATA_PAGE_HEADER_SIZE as int, records_end(page_body(old, ids.last()))),
        free_space(page_body(old, ids.last())) < record_of(row_bytes(vs)).len(),
    ensures
        chain(new, first, ids.push(old.disk().len() as u32)),
        found_row(scan_pages(new, ids.push(old.disk().len() as u32), w), vs),
        scan_pages(new, ids.push(old.disk().len() as u32), w) == Scan::Found(row_bytes(vs)),
{
    let row = row_bytes(vs);
    let rec = record_of(row);
    lemma_auto_spec_u32_to_from_le_bytes();
    assert(rec.len() == row.len() + 4);
    let last = ids.last();
    let p = ids.drop_last();
    let b = page_body(old, last);
    assert(sound_page(page_body(old, ids[ids.len() - 1])));
    assert forall|j: int| 0 <= j < p.len() implies #[trigger] p[j] != last by {
        assert(p[j] == ids[j]);
        assert(ids[j] != ids[ids.len() - 1]);
    }
    assert(old.content(last) is Some);
    lemma_content_sound(old, last);
    let u = used_len(b) as int;
    let h = DATA_PAGE_HEADER_SIZE as int;
    assert(ids =~= p.push(last));
        // the record goes to a fresh page linked after the last page walked
        let n = old.disk().len() as u32;
        let e = empty_data_body();
        let nz = appended(e, rec);
        let lb = linked(b, n);
        let ids2 = ids.push(n);
        assert forall|j: int| 0 <= j < ids.len() implies #[trigger] ids[j] != n by {
            old.lemma_content_in_file(ids[j]);
        }
        assert forall|j: int| 0 <= j < p.len() implies page_body(old, #[trigger] p[j]) == page_body(new, p[j]) by {
            assert(p[j] == ids[j]);
        }
        lemma_scan_pages_same(old, new, p, w);
        assert(page_body(new, last) == lb);
        assert(lb.subrange(4, 8) =~= b.subrange(4, 8));
        assert(used_len(lb) == u);
        assert forall|i: int| h <= i < h + u implies #[trigger] b[i] == lb[i] by {}
        lemma_tiles_same(b, lb, h, h + u);
        lemma_scan_passes(lb, h, h + u, w, c);
        assert(ids2.drop_last() =~= ids);
        assert(scan_pages(new, ids, w) == Scan::Passed(w));
        assert(page_body(new, n) == nz);
        assert(e.subrange(4, 8) =~= spec_u32_to_le_bytes(0));
        assert(used_len(e) == 0);
        assert(nz.subrange(4, 8) =~= spec_u32_to_le_bytes(rec.len() as u32));
        assert(used_len(nz) == rec.len());
        assert(nz.subrange(h, h + rec.len()) =~= rec);
        lemma_scan_appended(e, nz, h, h, rec, row, w);
        assert(count(e, h, h) == 0);
        assert(scan_pages(new, ids2, w) == Scan::Found(row));
        assert(lb.subrange(0, 4) =~= spec_u32_to_le_bytes(n));
        assert forall|j: int| 0 <= j < ids2.len() implies new.content(#[trigger] ids2[j]) is Some by {
            if j < ids.len() {
                assert(ids2[j] == ids[j]);
            }
        }
        assert forall|j: int| 0 <= j < ids2.len() - 1 implies ids2[j + 1] == next_link(
            page_body(new, #[trigger] ids2[j]),
        ) by {
            if j < ids.len() - 1 {
                assert(ids2[j] == p[j]);
                assert(ids2[j + 1] == ids[j + 1]);
            }
        }
        assert(chain(new, first, ids2));
    }

/// A row inserted along a sound chain of data pages (see [`placed`]) is
/// found again along the chain: the pages walked, with the fresh page at
/// the end if one was added, form a chain of the new pool whose record
/// number `j` is the row, for some `j`. Rows of more values than
/// [`MAX_DECODED_ITEMS`], or with a value that cannot be read back, are left
/// out: they are written but do not read back.
pub proof fn lemma_insert_then_found(old: BufferPool, new: BufferPool, first: u32, vs: Seq<ValueModel>)
    requires
        old.wf(),
        old.coherent(),
        sound_chain(old, first),
        placed(old, new, first, record_of(row_bytes(vs))),
        row_bytes(vs).len() + 4 <= MAX_USED,
        vs.len() <= MAX_DECODED_ITEMS,
        forall|i: int| 0 <= i < vs.len() ==> encodable(#[trigger] vs[i]),
    ensures
        exists|ids: Seq<u32>, j: nat| chain(new, first, ids) && #[trigger] found_row(scan_pages(new, ids, j), vs),
{
    let row = row_bytes(vs);
    let rec = record_of(row);
    lemma_auto_spec_u32_to_from_le_bytes();
    assert(rec.len() == row.len() + 4);
    let ids = choose|ids: Seq<u32>|
        #[trigger] chain(old, first, ids) && (forall|j: int| 1 <= j < ids.len() ==> #[trigger] ids[j] != 0) && (forall|j: int|
            0 <= j < ids.len() ==> used_len(page_body(old, #[trigger] ids[j])) <= MAX_USED) && (
        forall|j: int|
            0 <= j < ids.len() - 1 ==> free_space(page_body(old, #[trigger] ids[j])) < rec.len())
            && placed_after(old, new, ids.last(), rec);
    assert(ids.no_duplicates());
    let last = ids.last();
    let p = ids.drop_last();
    let b = page_body(old, last);
    assert(sound_page(page_body(old, ids[ids.len() - 1])));
    assert forall|j: int| 0 <= j < p.len() implies sound_page(page_body(old, #[trigger] p[j])) by {
        assert(p[j] == ids[j]);
        assert(sound_page(page_body(old, ids[j])));
    }
    assert forall|j: int| 0 <= j < p.len() implies #[trigger] p[j] != last by {
        assert(p[j] == ids[j]);
        assert(ids[j] != ids[ids.len() - 1]);
    }
    let c = chain_count(old, p);
    lemma_row_roundtrip(vs, Seq::empty());
    assert(row + Seq::<u8>::empty() =~= row);
    assert(old.content(last) is Some);
    lemma_content_sound(old, last);
    let u = used_len(b) as int;
    let h = DATA_PAGE_HEADER_SIZE as int;
    let w = c + count(b, h, h + u);
    lemma_chain_passes(old, p, w);
    assert(ids =~= p.push(last));
    if free_space(b) >= rec.len() {
        lemma_found_in_place(old, new, first, vs, ids, w, c);
    } else {
        lemma_found_in_fresh_page(old, new, first, vs, ids, w, c);
    }
}

/// A chain that starts at a data page with no records (as
/// [`crate::engine::table_storage::TableStorage::new`] leaves it) is sound.
pub proof fn lemma_fresh_chain_sound(pool: BufferPool, first: u32)
    requires
        pool.content(first) is Some,
        page_body(pool, first) == empty_data_body(),
    ensures
        sound_chain(pool, first),
{
    lemma_auto_spec_u32_to_from_le_bytes();
    let e = empty_data_body();
    assert(e.subrange(0, 4) =~= spec_u32_to_le_bytes(0));
    assert(e.subrange(4, 8) =~= spec_u32_to_le_bytes(0));
    assert(sound_page(e));
    assert forall|ids: Seq<u32>|
        #[trigger] chain(pool, first, ids) && (forall|j: int| 1 <= j < ids.len() ==> #[trigger] ids[j] != 0)
        implies ids.no_duplicates() && forall|j: int|
            0 <= j < ids.len() ==> sound_page(page_body(pool, #[trigger] ids[j])) by {
        if ids.len() > 1 {
            assert(ids[1] == next_link(page_body(pool, ids[0])));
            assert(ids[1] != 0);
        }
        assert(ids.len() == 1);
    }
}

/// A record appended after tiled bytes leaves them tiled up to its end.
pub(crate) proof fn lemma_tiles_appended(b: Seq<u8>, nb: Seq<u8>, off: int, end: int, rec: Seq<u8>, row: Seq<u8>)
    requires
        rec == record_of(row),
        row.len() <= u32::MAX,
        tiles(b, off, end),
        0 <= off,
        end + rec.len() <= nb.len(),
        end <= b.len(),
        forall|i: int| off <= i < end ==> #[trigger] nb[i] == b[i],
        nb.subrange(end, end + rec.len()) == rec,
    ensures
        tiles(nb, off, end + rec.len()),
    decreases end - off,
{
    lemma_auto_spec_u32_to_from_le_bytes();
    if off < end {
        let re = off + 4 + spec_u32_from_le_bytes(b.subrange(off, off + 4));
        assert(nb.subrange(off, off + 4) =~= b.subrange(off, off + 4));
        lemma_tiles_appended(b, nb, re, end, rec, row);
        assert(off + 4 <= end);
        assert(re <= end);
    } else {
        assert(nb.subrange(off, off + 4) =~= rec.subrange(0, 4));
        assert(rec.subrange(0, 4) =~= spec_u32_to_le_bytes(row.len() as u32));
        let re = off + 4 + row.len();
        assert(re == end + rec.len());
        assert(spec_u32_from_le_bytes(nb.subrange(off, off + 4)) == row.len());
        assert(tiles(nb, re, end + rec.len()));
    }
}

/// A data page body with a record appended is sound where the page was.
pub(crate) proof fn lemma_appended_sound(b: Seq<u8>, rec: Seq<u8>, row: Seq<u8>)
    requires
        sound_page(b),
        rec == record_of(row),
        row.len() + 4 <= MAX_USED,
        free_space(b) >= rec.len(),
    ensures
        sound_page(appended(b, rec)),
        next_link(appended(b, rec)) == next_link(b),
{
    lemma_auto_spec_u32_to_from_le_bytes();
    let nb = appended(b, rec);
    let u = used_len(b) as int;
    let h = DATA_PAGE_HEADER_SIZE as int;
    assert(rec.len() == row.len() + 4);
    assert(nb.subrange(4, 8) =~= spec_u32_to_le_bytes((u + rec.len()) as u32));
    assert(nb.subrange(0, 4) =~= b.subrange(0, 4));
    assert forall|i: int| h <= i < h + u implies #[trigger] nb[i] == b[i] by {}
    assert(nb.subrange(h + u, h + u + rec.len()) =~= rec);
    lemma_tiles_appended(b, nb, h, h + u, rec, row);
}

/// Inserting a row keeps a sound chain sound (see [`sound_chain`]): the
/// pages it changes or adds hold their records exactly, and the chain still
/// visits no page twice.
#[verifier::rlimit(100)]
pub proof fn lemma_insert_keeps_sound(old: BufferPool, new: BufferPool, first: u32, row: Seq<u8>)
    requires
        old.wf(),
        old.coherent(),
        sound_chain(old, first),
        placed(old, new, first, record_of(row)),
        row.len() + 4 <= MAX_USED,
    ensures
        sound_chain(new, first),
{
    let rec = record_of(row);
    lemma_auto_spec_u32_to_from_le_bytes();
    assert(rec.len() == row.len() + 4);
    let ids = choose|ids: Seq<u32>|
        #[trigger] chain(old, first, ids) && (forall|j: int| 1 <= j < ids.len() ==> #[trigger] ids[j] != 0) && (forall|j: int|
            0 <= j < ids.len() ==> used_len(page_body(old, #[trigger] ids[j])) <= MAX_USED) && (
        forall|j: int|
            0 <= j < ids.len() - 1 ==> free_space(page_body(old, #[trigger] ids[j])) < rec.len())
            && placed_after(old, new, ids.last(), rec);
    let last = ids.last();
    let k = ids.len() - 1;
    let b = page_body(old, last);
    assert(ids.no_duplicates());
    assert(sound_page(page_body(old, ids[k])));
    assert forall|j: int| 0 <= j < k implies #[trigger] ids[j] != last by {
        assert(ids[j] != ids[k]);
    }
    if free_space(b) >= rec.len() {
        lemma_appended_sound(b, rec, row);
        assert forall|ids2: Seq<u32>|
            #[trigger] chain(new, first, ids2) && (forall|j: int| 1 <= j < ids2.len() ==> #[trigger] ids2[j] != 0)
            implies ids2.no_duplicates() && forall|j: int|
                0 <= j < ids2.len() ==> sound_page(page_body(new, #[trigger] ids2[j])) by {
            assert forall|j: int| 0 <= j < ids2.len() implies old.content(#[trigger] ids2[j]) is Some by {
                assert(new.content(ids2[j]) is Some);
            }
            assert forall|j: int| 0 <= j < ids2.len() - 1 implies ids2[j + 1] == next_link(
                page_body(old, #[trigger] ids2[j]),
            ) by {
                assert(ids2[j + 1] == next_link(page_body(new, ids2[j])));
            }
            assert(chain(old, first, ids2));
            assert forall|j: int| 0 <= j < ids2.len() implies sound_page(page_body(new, #[trigger] ids2[j])) by {
                assert(sound_page(page_body(old, ids2[j])));
            }
        }
    } else {
        let n = old.disk().len() as u32;
        let e = empty_data_body();
        let nz = appended(e, rec);
        assert forall|j: int| 0 <= j < ids.len() implies #[trigger] ids[j] != n by {
            old.lemma_content_in_file(ids[j]);
        }
        // the fresh page is sound and ends the chain
        assert(e.subrange(0, 4) =~= spec_u32_to_le_bytes(0));
        assert(e.subrange(4, 8) =~= spec_u32_to_le_bytes(0));
        assert(sound_page(e));
        lemma_appended_sound(e, rec, row);
        // the last page walked now links to it and is otherwise as it was
        let lb = linked(b, n);
        assert(lb.subrange(0, 4) =~= spec_u32_to_le_bytes(n));
        assert(lb.subrange(4, 8) =~= b.subrange(4, 8));
        assert forall|i: int| 8 <= i < 8 + used_len(b) implies #[trigger] b[i] == lb[i] by {}
        lemma_tiles_same(b, lb, 8, 8 + used_len(b));
        assert(sound_page(lb));
        assert forall|ids2: Seq<u32>|
            #[trigger] chain(new, first, ids2) && (forall|j: int| 1 <= j < ids2.len() ==> #[trigger] ids2[j] != 0)
            implies ids2.no_duplicates() && forall|j: int|
                0 <= j < ids2.len() ==> sound_page(page_body(new, #[trigger] ids2[j])) by {
            lemma_follows(old, new, first, ids, ids2, n);
            assert forall|j: int| 0 <= j < ids2.len() implies sound_page(page_body(new, #[trigger] ids2[j])) by {
                if j <= k {
                    assert(ids2[j] == ids[j]);
                    if j < k {
                        assert(sound_page(page_body(old, ids[j])));
                    }
                }
            }
            assert forall|a: int, c: int| 0 <= a < ids2.len() && 0 <= c < ids2.len() && a != c implies ids2[a]
                != ids2[c] by {
                if a <= k && c <= k {
                    assert(ids2[a] == ids[a] && ids2[c] == ids[c]);
                } else if a <= k {
                    assert(ids2[a] == ids[a]);
                } else if c <= k {
                    assert(ids2[c] == ids[c]);
                }
            }
        }
    }
}

/// Where a record went to a fresh page `n` after the pages `ids`, a chain of
/// the new pool, up to a link of zero, walks `ids` and then at most `n`.
proof fn lemma_follows(old: BufferPool, new: BufferPool, first: u32, ids: Seq<u32>, ids2: Seq<u32>, n: u32)
    requires
        chain(old, first, ids),
        ids.no_duplicates(),
        n == old.disk().len(),
        forall|j: int| 0 <= j < ids.len() ==> #[trigger] ids[j] != n,
        page_body(new, ids.last()) == linked(page_body(old, ids.last()), n),
        next_link(page_body(new, n)) == 0,
        forall|x: u32| x != n && x != ids.last() ==> #[trigger] new.content(x) == old.content(x),
        chain(new, first, ids2),
        forall|j: int| 1 <= j < ids2.len() ==> #[trigger] ids2[j] != 0,
    ensures
        ids2.len() <= ids.len() + 1,
        forall|j: int| 0 <= j < ids2.len() && j < ids.len() ==> #[trigger] ids2[j] == ids[j],
        ids2.len() == ids.len() + 1 ==> ids2.last() == n,
{
    lemma_auto_spec_u32_to_from_le_bytes();
    let k = ids.len() - 1;
    assert(linked(page_body(old, ids.last()), n).subrange(0, 4) =~= spec_u32_to_le_bytes(n));
    assert forall|j: int| 0 <= j < ids2.len() && j < ids.len() implies #[trigger] ids2[j] == ids[j] by {
        lemma_follows_at(old, new, first, ids, ids2, n, j);
    }
    if ids2.len() > ids.len() {
        lemma_follows_at(old, new, first, ids, ids2, n, k);
        assert(ids2[k + 1] == next_link(page_body(new, ids2[k])));
        assert(ids2[k + 1] == n);
        if ids2.len() > ids.len() + 1 {
            assert(ids2[k + 2] == next_link(page_body(new, ids2[k + 1])));
            assert(ids2[k + 2] == 0);
        }
    }
}

proof fn lemma_follows_at(old: BufferPool, new: BufferPool, first: u32, ids: Seq<u32>, ids2: Seq<u32>, n: u32, j: int)
    requires
        chain(old, first, ids),
        ids.no_duplicates(),
        forall|i: int| 0 <= i < ids.len() ==> #[trigger] ids[i] != n,
        forall|x: u32| x != n && x != ids.last() ==> #[trigger] new.content(x) == old.content(x),
        chain(new, first, ids2),
        0 <= j < ids2.len(),
        j < ids.len(),
    ensures
        ids2[j] == ids[j],
    decreases j,
{
    if j > 0 {
        lemma_follows_at(old, new, first, ids, ids2, n, j - 1);
        let x = ids[j - 1];
        assert(x != ids.last()) by {
            assert(ids[j - 1] != ids[ids.len() - 1]);
        }
        assert(page_body(new, x) == page_body(old, x));
        assert(ids2[j] == next_link(page_body(new, ids2[j - 1])));
        assert(ids[j] == next_link(page_body(old, ids[j - 1])));
    }
}

/// Two chains from one page: the shorter is the start of the longer.
pub(crate) proof fn lemma_chain_prefix(pool: BufferPool, first: u32, a: Seq<u32>, b: Seq<u32>, j: int)
    requires
        chain(pool, first, a),
        chain(pool, first, b),
        0 <= j < a.len(),
        j < b.len(),
    ensures
        a[j] == b[j],
    decreases j,
{
    if j > 0 {
        lemma_chain_prefix(pool, first, a, b, j - 1);
        assert(a[j] == next_link(page_body(pool, a[j - 1])));
        assert(b[j] == next_link(page_body(pool, b[j - 1])));
    }
}

/// A record found along some pages is found, the same, along more pages
/// after them.
pub(crate) proof fn lemma_scan_extend(pool: BufferPool, a: Seq<u32>, b: Seq<u32>, want: nat)
    requires
        a.len() <= b.len(),
        forall|j: int| 0 <= j < a.len() ==> #[trigger] a[j] == b[j],
        scan_pages(pool, a, want) is Found,
    ensures
        scan_pages(pool, b, want) == scan_pages(pool, a, want),
    decreases b.len(),
{
    if b.len() > a.len() {
        lemma_scan_extend(pool, a, b.drop_last(), want);
    } else {
        assert(a =~= b);
    }
}

/// A read gives one answer: where two walks along the chain from `first`
/// each find record number `want` and read it back as a row, the two rows
/// are the same.
pub proof fn lemma_read_unique(
    pool: BufferPool,
    first: u32,
    a: Seq<u32>,
    b: Seq<u32>,
    want: nat,
    v1: Seq<ValueModel>,
    v2: Seq<ValueModel>,
)
    requires
        chain(pool, first, a),
        chain(pool, first, b),
        found_row(scan_pages(pool, a, want), v1),
        found_row(scan_pages(pool, b, want), v2),
    ensures
        v1 == v2,
{
    if a.len() <= b.len() {
        assert forall|j: int| 0 <= j < a.len() implies #[trigger] a[j] == b[j] by {
            lemma_chain_prefix(pool, first, a, b, j);
        }
        lemma_scan_extend(pool, a, b, want);
    } else {
        assert forall|j: int| 0 <= j < b.len() implies #[trigger] b[j] == a[j] by {
            lemma_chain_prefix(pool, first, a, b, j);
        }
        lemma_scan_extend(pool, b, a, want);
    }
}

} // verus!
