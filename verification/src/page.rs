use vstd::prelude::*;
use vstd::slice::slice_subrange;
use vstd::utf8::{valid_utf8, decode_utf8};
use crate::encoding::{be_at, read_u16, read_u32, decode_text, lemma_be_at_bytes};
use crate::error::ParseError;

verus! {

// ---------------------------------------------------------------------------
// B-tree pages
// ---------------------------------------------------------------------------

/// The header at the start of a B-tree page (after the database header on
/// the first page).
#[derive(Debug)]
pub struct BTreePageHeader {
    /// Type of B-tree page (values 2, 5, 10, or 13)
    pub page_type: BTreePageType,
    /// Offset to first freeblock (0 if none)
    pub first_freeblock: u16,
    /// Number of cells on page
    pub cell_count: u16,
    /// Start of cell content area
    pub cell_content_offset: u16,
    /// Number of fragmented free bytes
    pub fragmented_free_bytes: u8,
    /// Right-most pointer (only exists on interior pages)
    pub rightmost_pointer: Option<u32>,
}

/// The first byte of an interior page header: the page has a right-most
/// pointer.
pub open spec fn is_interior_byte(byte: u8) -> bool {
    byte == 0x02 || byte == 0x05
}

impl BTreePageHeader {
    /// The B-tree page header at the start of `s`: what `from_bytes`
    /// reads from it.
    pub open spec fn describes(&self, s: Seq<u8>) -> bool {
        &&& Some(self.page_type) == BTreePageType::spec_from_byte(s[0])
        &&& self.first_freeblock == be_at(s, 1, 2)
        &&& self.cell_count == be_at(s, 3, 2)
        &&& self.cell_content_offset == be_at(s, 5, 2)
        &&& self.fragmented_free_bytes == s[7]
        &&& self.rightmost_pointer == if is_interior_byte(s[0]) {
            Some(be_at(s, 8, 4) as u32)
        } else {
            None::<u32>
        }
    }

    /// Reads a B-tree page header: a page type byte, three big-endian `u16`
    /// fields, a byte of fragmented free bytes, and on interior pages a
    /// big-endian `u32` right-most pointer. A first byte that is no page
    /// type is rejected.
    pub fn from_bytes(bytes: &[u8]) -> (r: Result<Self, ParseError>)
        requires
            bytes@.len() >= 1,
            is_interior_byte(bytes@[0]) ==> bytes@.len() >= 12,
            BTreePageType::spec_from_byte(bytes@[0]) is Some ==> bytes@.len() >= 8,
        ensures
            r is Err <==> BTreePageType::spec_from_byte(bytes@[0]) is None,
            r matches Err(e) ==> e == ParseError::InvalidPageType,
            r matches Ok(h) ==> h.describes(bytes@),
            r matches Ok(h) ==> (h.rightmost_pointer is Some <==> h.page_type.is_interior()),
    {
        let rightmost_pointer = if bytes[0] == 0x02 || bytes[0] == 0x05 {
            Some(read_u32(bytes, 8))
        } else {
            None
        };
        let page_type = BTreePageType::from_byte(bytes[0])?;
        Ok(BTreePageHeader {
            page_type,
            first_freeblock: read_u16(bytes, 1),
            cell_count: read_u16(bytes, 3),
            cell_content_offset: read_u16(bytes, 5),
            fragmented_free_bytes: bytes[7],
            rightmost_pointer,
        })
    }
}

/// Where the B-tree page header of page `page_num` (counting from 1)
/// starts within the page: after the 100-byte database header on the first
/// page, at the start of every other page.
pub fn btree_header_offset(page_num: u32) -> (offset: usize)
    ensures
        offset == if page_num == 1 {
            100usize
        } else {
            0usize
        },
{
    if page_num == 1 {
        100
    } else {
        0
    }
}

/// The layout of a B-tree page header, byte by byte: byte 0 is the page
/// type (2, 5, 10 or 13), bytes 1-2, 3-4 and 5-6 hold the first freeblock,
/// the cell count and the start of the cell content area, most significant
/// byte first, byte 7 the fragmented free bytes, and on interior pages
/// bytes 8-11 the right-most pointer, most significant byte first.
pub proof fn lemma_btree_page_header_layout(h: BTreePageHeader, s: Seq<u8>)
    requires
        s.len() >= 8,
        is_interior_byte(s[0]) ==> s.len() >= 12,
        h.describes(s),
    ensures
        h.page_type == BTreePageType::TableInterior <==> s[0] == 5,
        h.page_type == BTreePageType::TableLeaf <==> s[0] == 13,
        h.page_type == BTreePageType::IndexInterior <==> s[0] == 2,
        h.page_type == BTreePageType::IndexLeaf <==> s[0] == 10,
        h.first_freeblock == s[1] * 0x100 + s[2],
        h.cell_count == s[3] * 0x100 + s[4],
        h.cell_content_offset == s[5] * 0x100 + s[6],
        h.fragmented_free_bytes == s[7],
        s[0] == 2 || s[0] == 5 ==> h.rightmost_pointer == Some(
            (s[8] * 0x100_0000 + s[9] * 0x1_0000 + s[10] * 0x100 + s[11]) as u32,
        ),
        !(s[0] == 2 || s[0] == 5) ==> h.rightmost_pointer is None,
{
    lemma_be_at_bytes(s, 1);
    lemma_be_at_bytes(s, 3);
    lemma_be_at_bytes(s, 5);
    lemma_be_at_bytes(s, 8);
}

/// The kind of a B-tree page.
#[derive(Debug, PartialEq)]
pub enum BTreePageType {
    /// Interior page of a table B-tree
    TableInterior,
    /// Leaf page of a table B-tree containing actual table content
    TableLeaf,
    /// Interior page of an index B-tree
    IndexInterior,
    /// Leaf page of an index B-tree containing indexed values
    IndexLeaf,
}

impl BTreePageType {
    /// The page type that a page header's first byte stands for.
    pub open spec fn spec_from_byte(byte: u8) -> Option<BTreePageType> {
        if byte == 0x05 {
            Some(BTreePageType::TableInterior)
        } else if byte == 0x0D {
            Some(BTreePageType::TableLeaf)
        } else if byte == 0x02 {
            Some(BTreePageType::IndexInterior)
        } else if byte == 0x0A {
            Some(BTreePageType::IndexLeaf)
        } else {
            None
        }
    }

    /// Pages of this type are interior pages.
    pub open spec fn is_interior(&self) -> bool {
        *self == BTreePageType::TableInterior || *self == BTreePageType::IndexInterior
    }

    /// Decodes the page type byte of a B-tree page header.
    pub fn from_byte(byte: u8) -> (r: Result<Self, ParseError>)
        ensures
            match r {
                Ok(t) => Self::spec_from_byte(byte) == Some(t),
                Err(e) => Self::spec_from_byte(byte) is None && e == ParseError::InvalidPageType,
            },
            byte == 0x05 <==> r matches Ok(BTreePageType::TableInterior),
            byte == 0x0D <==> r matches Ok(BTreePageType::TableLeaf),
            byte == 0x02 <==> r matches Ok(BTreePageType::IndexInterior),
            byte == 0x0A <==> r matches Ok(BTreePageType::IndexLeaf),
    {
        match byte {
            0x05 => Ok(BTreePageType::TableInterior),
            0x0D => Ok(BTreePageType::TableLeaf),
            0x02 => Ok(BTreePageType::IndexInterior),
            0x0A => Ok(BTreePageType::IndexLeaf),
            _ => Err(ParseError::InvalidPageType),
        }
    }
}

/// The kind of a freelist page.
#[derive(Debug, PartialEq)]
pub enum FreeListPageType {
    /// Freelist trunk page - contains pointers to freelist leaf pages
    Trunk,
    /// Freelist leaf page - contains actual freed pages
    Leaf,
}

impl FreeListPageType {
    /// The freelist page type that `byte` stands for.
    pub open spec fn spec_from_byte(byte: u8) -> Option<FreeListPageType> {
        if byte == 0x02 {
            Some(FreeListPageType::Trunk)
        } else if byte == 0x00 {
            Some(FreeListPageType::Leaf)
        } else {
            None
        }
    }

    /// Decodes a freelist page type byte: 2 for a trunk page, 0 for a leaf.
    pub fn from_byte(byte: u8) -> (r: Option<Self>)
        ensures
            r == Self::spec_from_byte(byte),
            byte == 0x02 <==> r == Some(FreeListPageType::Trunk),
            byte == 0x00 <==> r == Some(FreeListPageType::Leaf),
    {
        match byte {
            0x02 => Some(FreeListPageType::Trunk),
            0x00 => Some(FreeListPageType::Leaf),
            _ => None,
        }
    }
}

/// A table leaf page: its header and the bytes that follow it.
pub struct TableLeafPage {
    pub header: BTreePageHeader,
    pub payload: Vec<u8>,
}

/// The kinds of pages in a database file.
pub enum SqlitePageType {
    BTree(BTreePageType),
    FreeList(FreeListPageType),
    PayloadOverflowPage,
    PointerMapPage,
    LockBytePage,
}

// ---------------------------------------------------------------------------
// The database header
// ---------------------------------------------------------------------------

/// The 100-byte header at the start of a database file.
#[derive(Debug)]
pub struct DatabaseHeader {
    pub magic_header: String,
    pub page_size: u16,
    pub write_version: u8,
    pub read_version: u8,
    pub page_reserved_space: u8,
    pub max_payload_fraction: u8,
    pub min_payload_fraction: u8,
    pub leaf_payload_fraction: u8,
    pub change_counter: u32,
    pub database_size_pages: u32,
    pub first_freelist_trunk_page: u32,
    pub total_freelist_pages: u32,
    pub schema_cookie: u32,
    pub schema_format: u32,
    pub default_cache_size: u32,
    pub largest_root_btree_page: u32,
    pub text_encoding: u32,
    pub user_version: u32,
    pub incremental_vacuum: u32,
    pub application_id: u32,
    pub reserved: [u8; 20],
    pub version_valid: u32,
    pub sqlite_version: u32,
}

impl DatabaseHeader {
    /// The database header at the start of `s`: what `from` reads from it.
    /// The magic string is the text of the first 15 bytes; the numbers are
    /// big-endian at their offsets in the file format.
    pub open spec fn describes(&self, s: Seq<u8>) -> bool {
        &&& self.magic_header@ == decode_utf8(s.subrange(0, 15))
        &&& self.page_size == be_at(s, 16, 2)
        &&& self.write_version == s[18]
        &&& self.read_version == s[19]
        &&& self.page_reserved_space == s[20]
        &&& self.max_payload_fraction == s[21]
        &&& self.min_payload_fraction == s[22]
        &&& self.leaf_payload_fraction == s[23]
        &&& self.change_counter == be_at(s, 24, 4)
        &&& self.database_size_pages == be_at(s, 28, 4)
        &&& self.first_freelist_trunk_page == be_at(s, 32, 4)
        &&& self.total_freelist_pages == be_at(s, 36, 4)
        &&& self.schema_cookie == be_at(s, 40, 4)
        &&& self.schema_format == be_at(s, 44, 4)
        &&& self.default_cache_size == be_at(s, 48, 4)
        &&& self.largest_root_btree_page == be_at(s, 52, 4)
        &&& self.text_encoding == be_at(s, 56, 4)
        &&& self.user_version == be_at(s, 60, 4)
        &&& self.incremental_vacuum == be_at(s, 64, 4)
        &&& self.application_id == be_at(s, 68, 4)
        &&& self.reserved@ == s.subrange(72, 92)
        &&& self.version_valid == be_at(s, 92, 4)
        &&& self.sqlite_version == be_at(s, 96, 4)
    }

    /// The layout of the database header, byte by byte: the magic string
    /// in bytes 0-14, the page size in bytes 16-17, single-byte fields at
    /// 18 to 23, the 32-bit fields at 24, 28, ..., 68 and at 92 and 96, and
    /// the reserved bytes 72-91; each multi-byte field most significant
    /// byte first.
    pub proof fn lemma_layout(h: DatabaseHeader, s: Seq<u8>)
        requires
            s.len() >= 100,
            h.describes(s),
        ensures
            h.magic_header@ == decode_utf8(s.take(15)),
            h.page_size == s[16] * 0x100 + s[17],
            h.write_version == s[18],
            h.read_version == s[19],
            h.page_reserved_space == s[20],
            h.max_payload_fraction == s[21],
            h.min_payload_fraction == s[22],
            h.leaf_payload_fraction == s[23],
            h.change_counter == s[24] * 0x100_0000 + s[25] * 0x1_0000 + s[26] * 0x100 + s[27],
            h.database_size_pages == s[28] * 0x100_0000 + s[29] * 0x1_0000 + s[30] * 0x100 + s[31],
            h.first_freelist_trunk_page == s[32] * 0x100_0000 + s[33] * 0x1_0000 + s[34] * 0x100
                + s[35],
            h.total_freelist_pages == s[36] * 0x100_0000 + s[37] * 0x1_0000 + s[38] * 0x100 + s[39],
            h.schema_cookie == s[40] * 0x100_0000 + s[41] * 0x1_0000 + s[42] * 0x100 + s[43],
            h.schema_format == s[44] * 0x100_0000 + s[45] * 0x1_0000 + s[46] * 0x100 + s[47],
            h.default_cache_size == s[48] * 0x100_0000 + s[49] * 0x1_0000 + s[50] * 0x100 + s[51],
            h.largest_root_btree_page == s[52] * 0x100_0000 + s[53] * 0x1_0000 + s[54] * 0x100
                + s[55],
            h.text_encoding == s[56] * 0x100_0000 + s[57] * 0x1_0000 + s[58] * 0x100 + s[59],
            h.user_version == s[60] * 0x100_0000 + s[61] * 0x1_0000 + s[62] * 0x100 + s[63],
            h.incremental_vacuum == s[64] * 0x100_0000 + s[65] * 0x1_0000 + s[66] * 0x100 + s[67],
            h.application_id == s[68] * 0x100_0000 + s[69] * 0x1_0000 + s[70] * 0x100 + s[71],
            forall|i: int| 0 <= i < 20 ==> #[trigger] h.reserved@[i] == s[72 + i],
            h.version_valid == s[92] * 0x100_0000 + s[93] * 0x1_0000 + s[94] * 0x100 + s[95],
            h.sqlite_version == s[96] * 0x100_0000 + s[97] * 0x1_0000 + s[98] * 0x100 + s[99],
    {
        assert(s.subrange(0, 15) =~= s.take(15));
        lemma_be_at_bytes(s, 16);
        lemma_be_at_bytes(s, 24);
        lemma_be_at_bytes(s, 28);
        lemma_be_at_bytes(s, 32);
        lemma_be_at_bytes(s, 36);
        lemma_be_at_bytes(s, 40);
        lemma_be_at_bytes(s, 44);
        lemma_be_at_bytes(s, 48);
        lemma_be_at_bytes(s, 52);
        lemma_be_at_bytes(s, 56);
        lemma_be_at_bytes(s, 60);
        lemma_be_at_bytes(s, 64);
        lemma_be_at_bytes(s, 68);
        lemma_be_at_bytes(s, 92);
        lemma_be_at_bytes(s, 96);
    }

    /// Reads the database header from the first 100 bytes of `bytes`. A
    /// magic string (the first 15 bytes) that is not UTF-8 is rejected; its
    /// contents are not checked otherwise.
    pub fn from(bytes: &[u8]) -> (r: Result<Self, ParseError>)
        requires
            bytes@.len() >= 15,
            valid_utf8(bytes@.subrange(0, 15)) ==> bytes@.len() >= 100,
        ensures
            r is Err <==> !valid_utf8(bytes@.subrange(0, 15)),
            r matches Err(e) ==> e == ParseError::InvalidUtf8,
            r matches Ok(h) ==> h.describes(bytes@),
    {
        let magic = slice_subrange(bytes, 0, 15);
        let magic_str = match decode_text(magic) {
            Some(t) => t,
            None => return Err(ParseError::InvalidUtf8),
        };
        let reserved: [u8; 20] = [
            bytes[72], bytes[73], bytes[74], bytes[75], bytes[76],
            bytes[77], bytes[78], bytes[79], bytes[80], bytes[81],
            bytes[82], bytes[83], bytes[84], bytes[85], bytes[86],
            bytes[87], bytes[88], bytes[89], bytes[90], bytes[91],
        ];
        assert(reserved@ =~= bytes@.subrange(72, 92));
        Ok(DatabaseHeader {
            magic_header: magic_str,
            page_size: read_u16(bytes, 16),
            write_version: bytes[18],
            read_version: bytes[19],
            page_reserved_space: bytes[20],
            max_payload_fraction: bytes[21],
            min_payload_fraction: bytes[22],
            leaf_payload_fraction: bytes[23],
            change_counter: read_u32(bytes, 24),
            database_size_pages: read_u32(bytes, 28),
            first_freelist_trunk_page: read_u32(bytes, 32),
            total_freelist_pages: read_u32(bytes, 36),
            schema_cookie: read_u32(bytes, 40),
            schema_format: read_u32(bytes, 44),
            default_cache_size: read_u32(bytes, 48),
            largest_root_btree_page: read_u32(bytes, 52),
            text_encoding: read_u32(bytes, 56),
            user_version: read_u32(bytes, 60),
            incremental_vacuum: read_u32(bytes, 64),
            application_id: read_u32(bytes, 68),
            reserved,
            version_valid: read_u32(bytes, 92),
            sqlite_version: read_u32(bytes, 96),
        })
    }
}

} // verus!
