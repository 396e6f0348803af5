use crate::append_log::{crc32, crc32_spec};
use crate::codec::{push_u16, push_u32, push_u8, read_u16_at, read_u32_at};
use crate::error::{DbError, ErrorKind};
use vstd::bytes::*;
use vstd::prelude::*;

verus! {

pub const PAGE_SIZE: usize = 4096;
pub const PAGE_HEADER_SIZE: usize = 16;
pub const PAGE_BODY_SIZE: usize = PAGE_SIZE - PAGE_HEADER_SIZE;
pub const INITIAL_FREE_SPACE_OFFSET: u16 = 4096;
pub const META_PAGE_ID: u32 = 0;
pub const META_LSN_OFFSET: usize = 0;
pub const META_CATALOG_PAGE_OFFSET: usize = 8;
pub const META_LAST_CHECKPOINT_LSN_OFFSET: usize = 12;
pub const CATALOG_PAGE_HEADER_SIZE: usize = 8;
pub const CATALOG_CHUNK_SIZE: usize = PAGE_BODY_SIZE - CATALOG_PAGE_HEADER_SIZE;
pub const META_CATALOG_PAGE_COUNT_OFFSET: usize = 20;
pub const BTREE_NODE_HEADER_SIZE: usize = 7;
/// A data page starts with the id of the next page of the chain and the
/// number of row bytes it holds.
pub const DATA_PAGE_HEADER_SIZE: usize = 8;

/// What a page is used for.
#[derive(Debug, Clone, Copy, PartialEq, Eq, Structural)]
pub enum PageType {
    Meta,
    Freelist,
    TableMeta,
    Data,
    Index,
    Overflow,
}

impl PageType {
    /// The byte that stands for the page type on disk.
    pub open spec fn tag(self) -> u8 {
        match self {
            PageType::Meta => 0,
            PageType::Freelist => 1,
            PageType::TableMeta => 2,
            PageType::Data => 3,
            PageType::Index => 4,
            PageType::Overflow => 5,
        }
    }

    pub fn to_u8(self) -> (r: u8)
        ensures
            r == self.tag(),
    {
        match self {
            PageType::Meta => 0,
            PageType::Freelist => 1,
            PageType::TableMeta => 2,
            PageType::Data => 3,
            PageType::Index => 4,
            PageType::Overflow => 5,
        }
    }

    /// The page type with the given tag; any other byte is corruption.
    pub fn try_from_u8(value: u8) -> (r: Result<PageType, DbError>)
        ensures
            value < 6 <==> r is Ok,
            r matches Ok(t) ==> t.tag() == value,
            r matches Err(e) ==> e.kind() == ErrorKind::Corruption,
    {
        match value {
            0 => Ok(PageType::Meta),
            1 => Ok(PageType::Freelist),
            2 => Ok(PageType::TableMeta),
            3 => Ok(PageType::Data),
            4 => Ok(PageType::Index),
            5 => Ok(PageType::Overflow),
            _ => Err(DbError::corruption("invalid page type")),
        }
    }
}

/// The page type whose tag is `v`, if any.
pub open spec fn page_type_of(v: u8) -> Option<PageType> {
    if v == 0 {
        Some(PageType::Meta)
    } else if v == 1 {
        Some(PageType::Freelist)
    } else if v == 2 {
        Some(PageType::TableMeta)
    } else if v == 3 {
        Some(PageType::Data)
    } else if v == 4 {
        Some(PageType::Index)
    } else if v == 5 {
        Some(PageType::Overflow)
    } else {
        None
    }
}

/// The low three bytes of `x`, least significant first.
pub open spec fn u24_le_bytes(x: u32) -> Seq<u8> {
    seq![(x & 0xff) as u8, ((x >> 8) & 0xff) as u8, ((x >> 16) & 0xff) as u8]
}

/// The number whose low three bytes are `s[0..3]`, least significant first.
pub open spec fn u24_from_le_bytes(s: Seq<u8>) -> u32 {
    (s[0] as u32) | ((s[1] as u32) << 8u32) | ((s[2] as u32) << 16u32)
}

/// The fixed header at the start of every page.
#[derive(Debug, Clone, Copy, PartialEq, Eq, Structural)]
pub struct PageHeader {
    pub page_id: u32,
    pub page_type: PageType,
    pub free_space_offset: u16,
    pub cell_count: u16,
    /// The CRC-32 of the page body, filled in when a page is stored and
    /// checked when it is read; a page read back has zero here.
    pub checksum: u32,
    /// Only the low three bytes of the flags are stored.
    pub flags: u32,
}

/// The on-disk form of a header.
pub open spec fn header_bytes(h: PageHeader) -> Seq<u8> {
    spec_u32_to_le_bytes(h.page_id) + seq![h.page_type.tag()] + spec_u16_to_le_bytes(
        h.free_space_offset,
    ) + spec_u16_to_le_bytes(h.cell_count) + spec_u32_to_le_bytes(h.checksum) + u24_le_bytes(
        h.flags,
    )
}

/// The header that sixteen stored bytes describe, or `None` if the page type
/// byte is not a known tag.
pub open spec fn parse_header(s: Seq<u8>) -> Option<PageHeader> {
    match page_type_of(s[4]) {
        None => None,
        Some(t) => Some(
            PageHeader {
                page_id: spec_u32_from_le_bytes(s.subrange(0, 4)),
                page_type: t,
                free_space_offset: spec_u16_from_le_bytes(s.subrange(5, 7)),
                cell_count: spec_u16_from_le_bytes(s.subrange(7, 9)),
                checksum: spec_u32_from_le_bytes(s.subrange(9, 13)),
                flags: u24_from_le_bytes(s.subrange(13, 16)),
            },
        ),
    }
}

proof fn lemma_u24(x: u32)
    requires
        x < 0x100_0000,
    ensures
        u24_from_le_bytes(u24_le_bytes(x)) == x,
{
    let b0 = (x & 0xff) as u8;
    let b1 = ((x >> 8) & 0xff) as u8;
    let b2 = ((x >> 16) & 0xff) as u8;
    assert(((b0 as u32) | ((b1 as u32) << 8u32) | ((b2 as u32) << 16u32)) == x) by (bit_vector)
        requires
            x < 0x100_0000,
            b0 == (x & 0xff) as u8,
            b1 == ((x >> 8) & 0xff) as u8,
            b2 == ((x >> 16) & 0xff) as u8,
    ;
}

proof fn lemma_u24_back(s: Seq<u8>)
    requires
        s.len() == 3,
    ensures
        u24_le_bytes(u24_from_le_bytes(s)) == s,
        u24_from_le_bytes(s) < 0x100_0000,
{
    let b0 = s[0];
    let b1 = s[1];
    let b2 = s[2];
    let x = u24_from_le_bytes(s);
    assert(x == (b0 as u32) | ((b1 as u32) << 8u32) | ((b2 as u32) << 16u32));
    assert((x & 0xff) as u8 == b0 && ((x >> 8) & 0xff) as u8 == b1 && ((x >> 16) & 0xff) as u8
        == b2 && x < 0x100_0000) by (bit_vector)
        requires
            x == (b0 as u32) | ((b1 as u32) << 8u32) | ((b2 as u32) << 16u32),
    ;
    assert(u24_le_bytes(x) =~= s);
}

proof fn lemma_page_type_tag(t: PageType)
    ensures
        page_type_of(t.tag()) == Some(t),
{
}

impl PageHeader {
    /// A fresh header: free space starts at the end of the page, no cells.
    pub fn new(page_id: u32, page_type: PageType) -> (r: Self)
        ensures
            r == (PageHeader {
                page_id,
                page_type,
                free_space_offset: INITIAL_FREE_SPACE_OFFSET,
                cell_count: 0,
                checksum: 0,
                flags: 0,
            }),
    {
        PageHeader {
            page_id,
            page_type,
            free_space_offset: INITIAL_FREE_SPACE_OFFSET,
            cell_count: 0,
            checksum: 0,
            flags: 0,
        }
    }

    /// The sixteen bytes that store the header.
    pub fn to_bytes(&self) -> (r: Vec<u8>)
        ensures
            r@ == header_bytes(*self),
            r@.len() == PAGE_HEADER_SIZE,
    {
        let mut buf: Vec<u8> = Vec::new();
        push_u32(&mut buf, self.page_id);
        push_u8(&mut buf, self.page_type.to_u8());
        push_u16(&mut buf, self.free_space_offset);
        push_u16(&mut buf, self.cell_count);
        push_u32(&mut buf, self.checksum);
        let f = self.flags;
        push_u8(&mut buf, (f & 0xff) as u8);
        push_u8(&mut buf, ((f >> 8) & 0xff) as u8);
        push_u8(&mut buf, ((f >> 16) & 0xff) as u8);
        proof {
            lemma_auto_spec_u32_to_from_le_bytes();
            lemma_auto_spec_u16_to_from_le_bytes();
            assert(buf@ =~= header_bytes(*self));
        }
        buf
    }

    /// Reads a header from its sixteen bytes; an unknown page type byte is
    /// corruption.
    pub fn from_bytes(data: &[u8]) -> (r: Result<Self, DbError>)
        requires
            data@.len() == PAGE_HEADER_SIZE,
        ensures
            match parse_header(data@) {
                Some(h) => r == Ok::<PageHeader, DbError>(h),
                None => r matches Err(e) && e.kind() == ErrorKind::Corruption,
            },
    {
        let page_id = read_u32_at(data, 0);
        let page_type = PageType::try_from_u8(data[4])?;
        let free_space_offset = read_u16_at(data, 5);
        let cell_count = read_u16_at(data, 7);
        let checksum = read_u32_at(data, 9);
        let flags = (data[13] as u32) | ((data[14] as u32) << 8u32) | ((data[15] as u32) << 16u32);
        proof {
            assert(data@.subrange(13, 16)[0] == data@[13]);
            assert(data@.subrange(13, 16)[1] == data@[14]);
            assert(data@.subrange(13, 16)[2] == data@[15]);
        }
        Ok(PageHeader { page_id, page_type, free_space_offset, cell_count, checksum, flags })
    }
}

/// Reading back what a header wrote gives the header, when its flags fit in
/// the three stored bytes.
pub proof fn lemma_header_roundtrip(h: PageHeader)
    requires
        h.flags < 0x100_0000,
    ensures
        header_bytes(h).len() == PAGE_HEADER_SIZE,
        parse_header(header_bytes(h)) == Some(h),
{
    lemma_auto_spec_u32_to_from_le_bytes();
    lemma_auto_spec_u16_to_from_le_bytes();
    lemma_u24(h.flags);
    lemma_page_type_tag(h.page_type);
    let s = header_bytes(h);
    assert(s.subrange(0, 4) =~= spec_u32_to_le_bytes(h.page_id));
    assert(s.subrange(5, 7) =~= spec_u16_to_le_bytes(h.free_space_offset));
    assert(s.subrange(7, 9) =~= spec_u16_to_le_bytes(h.cell_count));
    assert(s.subrange(9, 13) =~= spec_u32_to_le_bytes(h.checksum));
    assert(s.subrange(13, 16) =~= u24_le_bytes(h.flags));
}

/// Writing back a header that was read gives the bytes it was read from.
pub proof fn lemma_header_bytes_roundtrip(s: Seq<u8>)
    requires
        s.len() == PAGE_HEADER_SIZE,
        parse_header(s) is Some,
    ensures
        header_bytes(parse_header(s)->0) == s,
{
    lemma_auto_spec_u32_to_from_le_bytes();
    lemma_auto_spec_u16_to_from_le_bytes();
    lemma_u24_back(s.subrange(13, 16));
    let h = parse_header(s)->0;
    assert(h.page_type.tag() == s[4]);
    assert(spec_u32_to_le_bytes(h.page_id) =~= s.subrange(0, 4));
    assert(spec_u16_to_le_bytes(h.free_space_offset) =~= s.subrange(5, 7));
    assert(spec_u16_to_le_bytes(h.cell_count) =~= s.subrange(7, 9));
    assert(spec_u32_to_le_bytes(h.checksum) =~= s.subrange(9, 13));
    assert(header_bytes(h) =~= s);
}


/// A page: its header and its body of [`PAGE_BODY_SIZE`] bytes.
#[derive(Debug, Clone)]
pub struct Page {
    pub header: PageHeader,
    pub data: Vec<u8>,
}

/// A header with the checksum of a body put in: the CRC-32 of the body.
pub open spec fn sealed(h: PageHeader, body: Seq<u8>) -> PageHeader {
    PageHeader { checksum: crc32_spec(body), ..h }
}

/// The stored bytes of a page with this header and body: the header, with
/// the checksum of the body in it, then the body.
pub open spec fn stored_page(h: PageHeader, body: Seq<u8>) -> Seq<u8> {
    header_bytes(sealed(h, body)) + body
}

/// The on-disk form of a page.
pub open spec fn page_bytes(p: Page) -> Seq<u8> {
    stored_page(p.header, p.data@)
}

/// A body of zero bytes.
pub open spec fn zero_body() -> Seq<u8> {
    Seq::new(PAGE_BODY_SIZE as nat, |i: int| 0u8)
}

/// The page that [`PAGE_SIZE`] stored bytes describe, or `None` if its
/// header is invalid or its checksum is not that of its body. The checksum
/// is checked here and reads as zero: it is an on-disk matter only.
pub open spec fn parse_page(s: Seq<u8>) -> Option<(PageHeader, Seq<u8>)> {
    match parse_header(s.subrange(0, PAGE_HEADER_SIZE as int)) {
        None => None,
        Some(h) => {
            let body = s.subrange(PAGE_HEADER_SIZE as int, s.len() as int);
            if h.checksum == crc32_spec(body) {
                Some((PageHeader { checksum: 0, ..h }, body))
            } else {
                None
            }
        },
    }
}

impl Page {
    /// The body has the size of a page body.
    pub open spec fn wf(&self) -> bool {
        self.data@.len() == PAGE_BODY_SIZE
    }

    /// A fresh page: a fresh header and a body of zeros.
    pub fn new(page_id: u32, page_type: PageType) -> (r: Self)
        ensures
            r.wf(),
            r.header == (PageHeader {
                page_id,
                page_type,
                free_space_offset: INITIAL_FREE_SPACE_OFFSET,
                cell_count: 0,
                checksum: 0,
                flags: 0,
            }),
            r.data@ == zero_body(),
    {
        let data = vec![0u8; PAGE_BODY_SIZE];
        assert(data@ =~= zero_body());
        Page { header: PageHeader::new(page_id, page_type), data }
    }

    /// The [`PAGE_SIZE`] bytes that store the page, with the checksum of
    /// its body in its header.
    pub fn as_bytes(&self) -> (r: Vec<u8>)
        requires
            self.wf(),
        ensures
            r@ == page_bytes(*self),
            r@.len() == PAGE_SIZE,
    {
        let mut header = self.header;
        header.checksum = crc32(self.data.as_slice());
        let mut buf = header.to_bytes();
        crate::codec::push_bytes(&mut buf, self.data.as_slice());
        buf
    }

    /// Reads a page from its stored bytes. Bytes of another length than
    /// [`PAGE_SIZE`], an invalid header, or a checksum that is not that of
    /// the body, are corruption.
    pub fn from_bytes(bytes: &[u8]) -> (r: Result<Self, DbError>)
        ensures
            (bytes@.len() == PAGE_SIZE && parse_page(bytes@) is Some) <==> r is Ok,
            r matches Ok(p) ==> p.wf() && parse_page(bytes@) == Some((p.header, p.data@)),
            r matches Err(e) ==> e.kind() == ErrorKind::Corruption,
    {
        if bytes.len() != PAGE_SIZE {
            return Err(DbError::corruption("invalid page size"));
        }
        let mut header = PageHeader::from_bytes(&bytes[0..PAGE_HEADER_SIZE])?;
        let data = crate::codec::copy_range(bytes, PAGE_HEADER_SIZE, PAGE_SIZE);
        if header.checksum != crc32(data.as_slice()) {
            return Err(DbError::corruption("page checksum mismatch"));
        }
        header.checksum = 0;
        Ok(Page { header, data })
    }

    /// A copy of the page.
    pub fn duplicate(&self) -> (r: Self)
        ensures
            r.header == self.header,
            r.data@ == self.data@,
    {
        Page { header: self.header, data: self.data.clone() }
    }
}

/// A parsed page has flags that fit in three bytes, a checksum of zero and
/// a body of the size of a page body, when read from a page's worth of
/// bytes.
pub proof fn lemma_parsed_page(s: Seq<u8>)
    requires
        parse_page(s) is Some,
        s.len() == PAGE_SIZE,
    ensures
        (parse_page(s)->0).0.flags < 0x100_0000,
        (parse_page(s)->0).0.checksum == 0,
        (parse_page(s)->0).1.len() == PAGE_BODY_SIZE,
{
    lemma_u24_back(s.subrange(0, PAGE_HEADER_SIZE as int).subrange(13, 16));
}

/// Reading back a stored header and body gives them back, when the body
/// has the size of a page body, the flags fit in the three stored bytes and
/// the checksum reads as zero.
pub proof fn lemma_parts_roundtrip(h: PageHeader, d: Seq<u8>)
    requires
        d.len() == PAGE_BODY_SIZE,
        h.flags < 0x100_0000,
        h.checksum == 0,
    ensures
        stored_page(h, d).len() == PAGE_SIZE,
        parse_page(stored_page(h, d)) == Some((h, d)),
{
    let sh = sealed(h, d);
    lemma_header_roundtrip(sh);
    let s = stored_page(h, d);
    assert(s.subrange(0, PAGE_HEADER_SIZE as int) =~= header_bytes(sh));
    assert(s.subrange(PAGE_HEADER_SIZE as int, s.len() as int) =~= d);
    assert(PageHeader { checksum: 0, ..sh } == h);
}

/// Reading back what a page wrote gives the page, when its header flags fit
/// in the three stored bytes and its checksum reads as zero.
pub proof fn lemma_page_roundtrip(p: Page)
    requires
        p.wf(),
        p.header.flags < 0x100_0000,
        p.header.checksum == 0,
    ensures
        page_bytes(p).len() == PAGE_SIZE,
        parse_page(page_bytes(p)) == Some((p.header, p.data@)),
{
    lemma_parts_roundtrip(p.header, p.data@);
}

/// Writing back a page that was read gives the bytes it was read from.
pub proof fn lemma_page_bytes_roundtrip(s: Seq<u8>)
    requires
        s.len() == PAGE_SIZE,
        parse_page(s) is Some,
    ensures
        stored_page((parse_page(s)->0).0, (parse_page(s)->0).1) == s,
{
    let hs = s.subrange(0, PAGE_HEADER_SIZE as int);
    lemma_header_bytes_roundtrip(hs);
    let h = parse_header(hs)->0;
    let (h0, body) = parse_page(s)->0;
    assert(sealed(h0, body) == h);
    assert(hs + s.subrange(PAGE_HEADER_SIZE as int, s.len() as int) =~= s);
}

} // verus!
