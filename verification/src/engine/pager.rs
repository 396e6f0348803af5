use crate::codec::copy_range;
use crate::engine::page::{
    header_bytes, page_bytes, parse_page, stored_page, zero_body, Page, PageHeader, PageType,
    INITIAL_FREE_SPACE_OFFSET, PAGE_SIZE,
};
use crate::error::{DbError, ErrorKind};
use vstd::prelude::*;

verus! {

/// The bytes of the database file, cut into pages.
pub open spec fn split_pages(image: Seq<u8>) -> Seq<Seq<u8>> {
    Seq::new(
        (image.len() as int / PAGE_SIZE as int) as nat,
        |i: int| image.subrange(i * PAGE_SIZE, i * PAGE_SIZE + PAGE_SIZE),
    )
}

/// The database file: pages of [`PAGE_SIZE`] bytes, numbered from zero.
///
/// The file's bytes are held here; whoever owns the file loads them with
/// [`Pager::from_image`] and stores back what [`Pager::image`] gives.
#[derive(Debug)]
pub struct Pager {
    pages: Vec<Vec<u8>>,
}

impl View for Pager {
    type V = Seq<Seq<u8>>;

    closed spec fn view(&self) -> Seq<Seq<u8>> {
        self.pages@.map_values(|p: Vec<u8>| p@)
    }
}

impl Pager {
    /// Every page has [`PAGE_SIZE`] bytes and the count fits in a `u32`.
    pub open spec fn wf(&self) -> bool {
        &&& self@.len() <= u32::MAX
        &&& forall|i: int| 0 <= i < self@.len() ==> (#[trigger] self@[i]).len() == PAGE_SIZE
    }

    /// The page with the given id, as read back from its bytes.
    pub open spec fn page_at(&self, page_id: u32) -> Option<(PageHeader, Seq<u8>)> {
        parse_page(self@[page_id as int])
    }

    /// A pager over the bytes of a database file. A length that is not a
    /// multiple of the page size is corruption; more pages than a `u32` can
    /// number is an invalid operation.
    pub fn from_image(image: &[u8]) -> (r: Result<Self, DbError>)
        ensures
            r is Ok <==> (image@.len() as int % PAGE_SIZE as int == 0 && image@.len() as int / PAGE_SIZE as int
                <= u32::MAX),
            r matches Ok(p) ==> p.wf() && p@ == split_pages(image@),
            r matches Err(e) ==> (if image@.len() as int % PAGE_SIZE as int != 0 {
                e.kind() == ErrorKind::Corruption
            } else {
                e.kind() == ErrorKind::InvalidOperation
            }),
    {
        let len = image.len();
        if len % PAGE_SIZE != 0 {
            return Err(DbError::corruption("database file size is not a multiple of page size"));
        }
        let count = len / PAGE_SIZE;
        if count > u32::MAX as usize {
            return Err(DbError::invalid_operation("file too large"));
        }
        let mut pages: Vec<Vec<u8>> = Vec::new();
        let mut i: usize = 0;
        while i < count
            invariant
                len == image@.len(),
                count == image@.len() as int / PAGE_SIZE as int,
                image@.len() as int % PAGE_SIZE as int == 0,
                i <= count,
                pages@.len() == i,
                forall|k: int|
                    0 <= k < i ==> (#[trigger] pages@[k])@ == image@.subrange(
                        k * PAGE_SIZE,
                        k * PAGE_SIZE + PAGE_SIZE,
                    ),
            decreases count - i,
        {
            assert(i * PAGE_SIZE + PAGE_SIZE <= count * PAGE_SIZE) by (nonlinear_arith)
                requires
                    i < count,
            ;
            assert(count * PAGE_SIZE == image@.len()) by (nonlinear_arith)
                requires
                    count == image@.len() as int / PAGE_SIZE as int,
                    image@.len() as int % PAGE_SIZE as int == 0,
            ;
            assert(i * PAGE_SIZE + PAGE_SIZE <= image@.len());
            let start = i * PAGE_SIZE;
            pages.push(copy_range(image, start, start + PAGE_SIZE));
            i = i + 1;
        }
        let p = Pager { pages };
        assert(p@ =~= split_pages(image@));
        Ok(p)
    }

    /// The bytes of the whole file.
    pub fn image(&self) -> (r: Vec<u8>)
        ensures
            r@ == self@.flatten(),
    {
        let mut out: Vec<u8> = Vec::new();
        let mut i: usize = 0;
        while i < self.pages.len()
            invariant
                i <= self@.len(),
                self@.len() == self.pages@.len(),
                out@ == self@.subrange(0, i as int).flatten(),
            decreases self.pages@.len() - i,
        {
            proof {
                assert(self@.subrange(0, i + 1) =~= self@.subrange(0, i as int).push(self@[i as int]));
                self@.subrange(0, i as int).lemma_flatten_push(self@[i as int]);
                assert(self@[i as int] == self.pages@[i as int]@);
            }
            crate::codec::push_bytes(&mut out, self.pages[i].as_slice());
            i = i + 1;
        }
        assert(self@.subrange(0, i as int) =~= self@);
        out
    }

    /// How many pages the file holds.
    pub fn page_count(&self) -> (r: u32)
        requires
            self.wf(),
        ensures
            r == self@.len(),
    {
        self.pages.len() as u32
    }

    /// Reads a page. An id past the end is an invalid operation; bytes that
    /// do not describe a page are corruption.
    pub fn read_page(&self, page_id: u32) -> (r: Result<Page, DbError>)
        requires
            self.wf(),
        ensures
            r is Ok <==> (page_id < self@.len() && self.page_at(page_id) is Some),
            r matches Ok(p) ==> p.wf() && self.page_at(page_id) == Some((p.header, p.data@)),
            r matches Err(e) ==> (if page_id >= self@.len() {
                e.kind() == ErrorKind::InvalidOperation
            } else {
                e.kind() == ErrorKind::Corruption
            }),
    {
        if page_id as usize >= self.pages.len() {
            return Err(DbError::invalid_operation("page id out of bounds"));
        }
        proof {
            assert(self@[page_id as int] == self.pages@[page_id as int]@);
        }
        Page::from_bytes(self.pages[page_id as usize].as_slice())
    }

    /// Writes a page at the id in its header. An id past the end is an
    /// invalid operation.
    pub fn write_page(&mut self, page: &Page) -> (r: Result<(), DbError>)
        requires
            old(self).wf(),
            page.wf(),
        ensures
            final(self).wf(),
            r is Ok <==> page.header.page_id < old(self)@.len(),
            r is Ok ==> final(self)@ == old(self)@.update(page.header.page_id as int, page_bytes(*page)),
            r is Err ==> final(self)@ == old(self)@,
            r matches Err(e) ==> e.kind() == ErrorKind::InvalidOperation,
    {
        let id = page.header.page_id as usize;
        if id >= self.pages.len() {
            return Err(DbError::invalid_operation("page id out of bounds"));
        }
        let bytes = page.as_bytes();
        self.pages.set(id, bytes);
        proof {
            assert(self@ =~= old(self)@.update(id as int, page_bytes(*page)));
        }
        Ok(())
    }

    /// Appends a fresh page of the given type and returns its id. A file
    /// that already holds as many pages as a `u32` can number is an invalid
    /// operation.
    pub fn allocate_page(&mut self, page_type: PageType) -> (r: Result<u32, DbError>)
        requires
            old(self).wf(),
        ensures
            final(self).wf(),
            r is Ok <==> old(self)@.len() < u32::MAX,
            r matches Ok(id) ==> id == old(self)@.len() && final(self)@ == old(self)@.push(
                fresh_page_bytes(id, page_type),
            ),
            r is Err ==> final(self)@ == old(self)@,
            r matches Err(e) ==> e.kind() == ErrorKind::InvalidOperation,
    {
        let count = self.pages.len();
        if count >= u32::MAX as usize {
            return Err(DbError::invalid_operation("page count overflow"));
        }
        let id = count as u32;
        let page = Page::new(id, page_type);
        let bytes = page.as_bytes();
        self.pages.push(bytes);
        proof {
            assert(self@ =~= old(self)@.push(fresh_page_bytes(id, page_type)));
        }
        Ok(id)
    }

    /// Marks a page free: it is read, its type becomes the free-list type,
    /// its free space and cell count are reset, and it is written back at the
    /// id its header holds.
    pub fn free_page(&mut self, page_id: u32) -> (r: Result<(), DbError>)
        requires
            old(self).wf(),
        ensures
            final(self).wf(),
            r is Ok <==> (page_id < old(self)@.len() && old(self).page_at(page_id) is Some && (
            old(self).page_at(page_id)->0).0.page_id < old(self)@.len()),
            r is Ok ==> final(self)@ == old(self)@.update(
                (old(self).page_at(page_id)->0).0.page_id as int,
                freed_bytes(old(self).page_at(page_id)->0),
            ),
            r is Err ==> final(self)@ == old(self)@,
    {
        let mut page = self.read_page(page_id)?;
        page.header.page_type = PageType::Freelist;
        page.header.free_space_offset = INITIAL_FREE_SPACE_OFFSET;
        page.header.cell_count = 0;
        self.write_page(&page)
    }
}

/// The stored form of a fresh page of the given type.
pub open spec fn fresh_page_bytes(page_id: u32, page_type: PageType) -> Seq<u8> {
    stored_page(
        PageHeader {
            page_id,
            page_type,
            free_space_offset: INITIAL_FREE_SPACE_OFFSET,
            cell_count: 0,
            checksum: 0,
            flags: 0,
        },
        zero_body(),
    )
}

/// The stored form of a page marked free: the free-list type, free space and
/// cell count reset, all else kept.
pub open spec fn freed_bytes(page: (PageHeader, Seq<u8>)) -> Seq<u8> {
    stored_page(
        PageHeader {
            page_type: PageType::Freelist,
            free_space_offset: INITIAL_FREE_SPACE_OFFSET,
            cell_count: 0,
            ..page.0
        },
        page.1,
    )
}

} // verus!
