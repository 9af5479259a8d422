//! Decoding of the pages of the ESP-IDF non-volatile storage (NVS) flash
//! partition.
//!
//! A page is 4096 bytes: a 32 byte header, a 32 byte entry state bitmap, then
//! 126 entries of 32 bytes. The header holds the page state (4 bytes), its
//! sequence number (4), the format version (1), 19 unused bytes and a CRC32
//! (4). An entry holds its namespace (1 byte), type (1), span (1), chunk
//! index (1), a CRC32 (4), its key (16) and 8 bytes of data. Numbers are
//! little endian.
use vstd::prelude::*;
use vstd::utf8::{decode_utf8, valid_utf8};

verus! {

/// Size of a flash page, in bytes.
pub const PAGE_SIZE: usize = 4096;

/// Size of an entry, in bytes.
pub const ENTRY_SIZE: usize = 32;

/// Number of entries in a page.
pub const ENTRIES_PER_PAGE: usize = 126;

/// Where in a page the entries start.
pub const ENTRY_TABLE_OFFSET: usize = 64;

/// A name for what `String::from_utf8_lossy` makes of some bytes: their text
/// as UTF-8, each invalid sequence replaced by U+FFFD.
pub uninterp spec fn utf8_lossy(bytes: Seq<u8>) -> Seq<char>;

/// `String::from_utf8_lossy`, made an owned `String`: its text is the name
/// [`utf8_lossy`] applied to the bytes, and valid UTF-8 comes through as it
/// decodes.
#[verifier::external_body]
fn string_from_utf8_lossy(bytes: &[u8]) -> (text: String)
    ensures
        text@ == utf8_lossy(bytes@),
        valid_utf8(bytes@) ==> text@ == decode_utf8(bytes@),
{
    String::from_utf8_lossy(bytes).into_owned()
}

/// A little endian `u32` at `at`.
pub open spec fn le_u32(bytes: Seq<u8>, at: int) -> u32 {
    (bytes[at] + bytes[at + 1] * 0x100 + bytes[at + 2] * 0x1_0000 + bytes[at + 3] * 0x100_0000) as u32
}

fn read_le_u32(bytes: &[u8], at: usize) -> (value: u32)
    requires
        at + 4 <= bytes@.len(),
    ensures
        value == le_u32(bytes@, at as int),
{
    bytes[at] as u32 + bytes[at + 1] as u32 * 0x100 + bytes[at + 2] as u32 * 0x1_0000
        + bytes[at + 3] as u32 * 0x100_0000
}

/// One 32 byte entry of a page.
#[derive(Debug)]
pub struct PageEntry {
    pub ns: u8,
    pub typ: u8,
    pub span: u8,
    pub chunk_index: u8,
    pub crc32: u32,
    /// 16 bytes.
    pub key: String,
    pub data: [u8; 8],
}

/// The 32 byte header of a page.
#[derive(Debug)]
pub struct PageHeader {
    pub state: u32,
    pub sequence: u32,
    /// This is reversed so 0xFF is version 1, 0xFE is version 2, etc.
    pub version: u8,
    pub crc32: u32,
}

/// A decoded page: its header and its [`ENTRIES_PER_PAGE`] entries.
#[derive(Debug)]
pub struct Page {
    pub header: PageHeader,
    pub entries: Vec<PageEntry>,
}

/// Why a page could not be decoded.
#[derive(Debug, Clone, Copy, PartialEq, Eq, Structural)]
pub enum PageError {
    /// The bytes after the entry state bitmap do not make exactly
    /// [`ENTRIES_PER_PAGE`] whole entries.
    EntryCount,
}

/// `entry` is what the 32 bytes `bytes` decode to.
pub open spec fn entry_decodes(entry: PageEntry, bytes: Seq<u8>) -> bool {
    &&& entry.ns == bytes[0]
    &&& entry.typ == bytes[1]
    &&& entry.span == bytes[2]
    &&& entry.chunk_index == bytes[3]
    &&& entry.crc32 == le_u32(bytes, 4)
    &&& entry.key@ == utf8_lossy(bytes.subrange(8, 24))
    &&& entry.data@ == bytes.subrange(24, 32)
}

/// `header` is what the first bytes of a page decode to.
pub open spec fn header_decodes(header: PageHeader, bytes: Seq<u8>) -> bool {
    &&& header.state == le_u32(bytes, 0)
    &&& header.sequence == le_u32(bytes, 4)
    &&& header.version == bytes[8]
    &&& header.crc32 == le_u32(bytes, 28)
}

/// The bytes of entry `i` of a page.
pub open spec fn entry_bytes(page: Seq<u8>, i: int) -> Seq<u8> {
    page.subrange(ENTRY_TABLE_OFFSET + i * ENTRY_SIZE, ENTRY_TABLE_OFFSET + (i + 1) * ENTRY_SIZE)
}

/// `page` is what the bytes `bytes` decode to.
pub open spec fn page_decodes(page: Page, bytes: Seq<u8>) -> bool {
    &&& header_decodes(page.header, bytes)
    &&& page.entries@.len() == ENTRIES_PER_PAGE
    &&& forall|i: int| 0 <= i < ENTRIES_PER_PAGE ==> entry_decodes(#[trigger] page.entries@[i], entry_bytes(bytes, i))
}

/// Bytes of this length hold a header, the entry state bitmap and exactly
/// [`ENTRIES_PER_PAGE`] whole entries, with fewer than [`ENTRY_SIZE`] bytes left over.
pub open spec fn holds_one_page(len: int) -> bool {
    (len - ENTRY_TABLE_OFFSET) / (ENTRY_SIZE as int) == ENTRIES_PER_PAGE
}

impl PageEntry {
    /// Decodes an entry from its 32 bytes.
    pub fn from(value: &[u8]) -> (entry: Self)
        requires
            value@.len() == ENTRY_SIZE,
        ensures
            entry_decodes(entry, value@),
    {
        let key_bytes = vstd::slice::slice_subrange(value, 8, 24);
        let data: [u8; 8] = [value[24], value[25], value[26], value[27], value[28], value[29], value[30], value[31]];
        assert(data@ =~= value@.subrange(24, 32));
        PageEntry {
            ns: value[0],
            typ: value[1],
            span: value[2],
            chunk_index: value[3],
            crc32: read_le_u32(value, 4),
            key: string_from_utf8_lossy(key_bytes),
            data,
        }
    }
}

impl Page {
    /// Decodes a page: its header, then the entries that follow the entry
    /// state bitmap, which must come to exactly [`ENTRIES_PER_PAGE`] whole
    /// entries.
    pub fn try_from(value: &[u8]) -> (page: Result<Self, PageError>)
        requires
            value@.len() >= ENTRY_TABLE_OFFSET,
        ensures
            page is Ok <==> holds_one_page(value@.len() as int),
            page matches Ok(p) ==> page_decodes(p, value@),
            page matches Err(e) ==> e == PageError::EntryCount,
    {
        let header = PageHeader {
            state: read_le_u32(value, 0),
            sequence: read_le_u32(value, 4),
            version: value[8],
            crc32: read_le_u32(value, 28),
        };
        let count: usize = (value.len() - ENTRY_TABLE_OFFSET) / ENTRY_SIZE;
        if count != ENTRIES_PER_PAGE {
            return Err(PageError::EntryCount);
        }
        let mut entries: Vec<PageEntry> = Vec::new();
        let mut i: usize = 0;
        while i < ENTRIES_PER_PAGE
            invariant
                value@.len() >= ENTRY_TABLE_OFFSET + ENTRIES_PER_PAGE * ENTRY_SIZE,
                i <= ENTRIES_PER_PAGE,
                entries@.len() == i,
                forall|j: int| 0 <= j < i ==> entry_decodes(#[trigger] entries@[j], entry_bytes(value@, j)),
            decreases ENTRIES_PER_PAGE - i,
        {
            let start: usize = ENTRY_TABLE_OFFSET + i * ENTRY_SIZE;
            let chunk = vstd::slice::slice_subrange(value, start, start + ENTRY_SIZE);
            entries.push(PageEntry::from(chunk));
            i = i + 1;
        }
        Ok(Page { header, entries })
    }

    /// The indices of the entries whose data holds a non-zero byte.
    pub fn entries_with_data(&self) -> (indices: Vec<usize>)
        ensures
            forall|k: int| 0 <= k < indices@.len() ==> {
                &&& (#[trigger] indices@[k]) < self.entries@.len()
                &&& has_data(self.entries@[indices@[k] as int])
            },
            forall|i: int| 0 <= i < self.entries@.len() && has_data(#[trigger] self.entries@[i])
                ==> indices@.contains(i as usize),
            forall|a: int, b: int| 0 <= a < b < indices@.len() ==> indices@[a] < indices@[b],
    {
        let mut indices: Vec<usize> = Vec::new();
        let mut i: usize = 0;
        while i < self.entries.len()
            invariant
                i <= self.entries@.len(),
                forall|k: int| 0 <= k < indices@.len() ==> {
                    &&& (#[trigger] indices@[k]) < i
                    &&& has_data(self.entries@[indices@[k] as int])
                },
                forall|j: int| 0 <= j < i && has_data(#[trigger] self.entries@[j])
                    ==> indices@.contains(j as usize),
                forall|a: int, b: int| 0 <= a < b < indices@.len() ==> indices@[a] < indices@[b],
            decreases self.entries@.len() - i,
        {
            let ghost before = indices@;
            if entry_has_data(&self.entries[i]) {
                indices.push(i);
                assert(indices@[indices@.len() - 1] == i);
                assert forall|j: usize| #[trigger] before.contains(j) implies indices@.contains(j) by {
                    let k = choose|k: int| 0 <= k < before.len() && before[k] == j;
                    assert(indices@[k] == j);
                }
            }
            i = i + 1;
        }
        indices
    }
}

/// Some byte of the entry's data is not zero.
pub open spec fn has_data(entry: PageEntry) -> bool {
    exists|i: int| 0 <= i < 8 && entry.data@[i] != 0
}

/// Whether some byte of the entry's data is not zero.
pub fn entry_has_data(entry: &PageEntry) -> (used: bool)
    ensures
        used == has_data(*entry),
{
    let mut i: usize = 0;
    while i < 8
        invariant
            i <= 8,
            forall|j: int| 0 <= j < i ==> entry.data@[j] == 0,
        decreases 8 - i,
    {
        if entry.data[i] != 0 {
            return true;
        }
        i = i + 1;
    }
    false
}

/// The bytes of page `i` of a partition dump.
pub open spec fn page_bytes(data: Seq<u8>, i: int) -> Seq<u8> {
    data.subrange(i * PAGE_SIZE, (i + 1) * PAGE_SIZE)
}

/// Decodes every whole page of a partition dump; a trailing partial page is
/// ignored.
pub fn decode_pages(nvs_data: &[u8]) -> (pages: Vec<Page>)
    ensures
        pages@.len() == nvs_data@.len() as int / (PAGE_SIZE as int),
        forall|i: int| 0 <= i < pages@.len() ==> page_decodes(#[trigger] pages@[i], page_bytes(nvs_data@, i)),
        forall|i: int| 0 <= i < pages@.len() ==> page_decodes(
            #[trigger] pages@[i],
            nvs_data@.subrange(i * PAGE_SIZE, (i + 1) * PAGE_SIZE),
        ),
{
    let n: usize = nvs_data.len();
    let count: usize = n / PAGE_SIZE;
    let mut pages: Vec<Page> = Vec::new();
    let mut i: usize = 0;
    while i < count
        invariant
            n == nvs_data@.len(),
            count == nvs_data@.len() as int / (PAGE_SIZE as int),
            i <= count,
            pages@.len() == i,
            forall|j: int| 0 <= j < i ==> page_decodes(#[trigger] pages@[j], page_bytes(nvs_data@, j)),
        decreases count - i,
    {
        assert((i + 1) * PAGE_SIZE <= nvs_data@.len()) by (nonlinear_arith)
            requires
                i < count,
                count == nvs_data@.len() as int / (PAGE_SIZE as int),
        ;
        let start: usize = i * PAGE_SIZE;
        let chunk = vstd::slice::slice_subrange(nvs_data, start, start + PAGE_SIZE);
        match Page::try_from(chunk) {
            Ok(page) => {
                pages.push(page);
            },
            Err(_) => {
                assert(false);
            },
        }
        i = i + 1;
    }
    pages
}


/// Page `i` of a dump is its `i`-th run of [`PAGE_SIZE`] bytes, and entry `k`
/// of a page the `k`-th run of [`ENTRY_SIZE`] bytes after the entry state
/// bitmap: entry `k` of page `i` lies at bytes
/// `i * 4096 + 64 + 32 * k` to `i * 4096 + 96 + 32 * k` of the dump.
pub proof fn lemma_page_layout(data: Seq<u8>, i: int, k: int)
    requires
        0 <= i,
        (i + 1) * 4096 <= data.len(),
        0 <= k < ENTRIES_PER_PAGE,
    ensures
        page_bytes(data, i) == data.subrange(i * 4096, (i + 1) * 4096),
        page_bytes(data, i).len() == PAGE_SIZE,
        entry_bytes(page_bytes(data, i), k) == data.subrange(i * 4096 + 64 + 32 * k, i * 4096 + 96 + 32 * k),
        header_decodes_at(data, i),
{
    assert(entry_bytes(page_bytes(data, i), k) =~= data.subrange(i * 4096 + 64 + 32 * k, i * 4096 + 96 + 32 * k));
}

/// The header fields of page `i` of a dump, read straight off the dump: the
/// state at bytes 0..4 of the page, the sequence number at 4..8, the version
/// at 8 and the CRC32 at 28..32, little endian.
pub open spec fn header_decodes_at(data: Seq<u8>, i: int) -> bool {
    let p = i * 4096;
    let page = page_bytes(data, i);
    &&& le_u32(page, 0) == (data[p] + data[p + 1] * 256 + data[p + 2] * 65536 + data[p + 3] * 16777216) as u32
    &&& le_u32(page, 4) == (data[p + 4] + data[p + 5] * 256 + data[p + 6] * 65536 + data[p + 7] * 16777216) as u32
    &&& page[8] == data[p + 8]
    &&& le_u32(page, 28) == (data[p + 28] + data[p + 29] * 256 + data[p + 30] * 65536 + data[p + 31] * 16777216) as u32
}

} // verus!
