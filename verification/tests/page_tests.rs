use sqlite_from_scratch::error::ParseError;
use sqlite_from_scratch::page::{BTreePageHeader, BTreePageType, DatabaseHeader, FreeListPageType};

fn sample_database_header() -> Vec<u8> {
    let mut bytes = vec![0u8; 100];
    bytes[0..16].copy_from_slice(b"SQLite format 3\0");
    bytes[16..18].copy_from_slice(&4096u16.to_be_bytes());
    bytes[18] = 1;
    bytes[19] = 1;
    bytes[20] = 0;
    bytes[21] = 64;
    bytes[22] = 32;
    bytes[23] = 32;
    bytes[24..28].copy_from_slice(&5u32.to_be_bytes());
    bytes[28..32].copy_from_slice(&3u32.to_be_bytes());
    bytes[40..44].copy_from_slice(&2u32.to_be_bytes());
    bytes[44..48].copy_from_slice(&4u32.to_be_bytes());
    bytes[56..60].copy_from_slice(&1u32.to_be_bytes());
    bytes[68..72].copy_from_slice(&0x0102_0304u32.to_be_bytes());
    bytes[72] = 0xaa;
    bytes[91] = 0xbb;
    bytes[92..96].copy_from_slice(&5u32.to_be_bytes());
    bytes[96..100].copy_from_slice(&3049001u32.to_be_bytes());
    bytes
}

#[test]
fn database_header_fields_are_read() {
    let bytes = sample_database_header();
    let db_header = DatabaseHeader::from(&bytes).unwrap();
    assert_eq!("SQLite format 3", db_header.magic_header);
    assert_eq!(4096, db_header.page_size);
    assert_eq!(1, db_header.write_version);
    assert_eq!(1, db_header.read_version);
    assert_eq!(0, db_header.page_reserved_space);
    assert_eq!(64, db_header.max_payload_fraction);
    assert_eq!(32, db_header.min_payload_fraction);
    assert_eq!(32, db_header.leaf_payload_fraction);
    assert_eq!(5, db_header.change_counter);
    assert_eq!(3, db_header.database_size_pages);
    assert_eq!(0, db_header.first_freelist_trunk_page);
    assert_eq!(0, db_header.total_freelist_pages);
    assert_eq!(2, db_header.schema_cookie);
    assert_eq!(4, db_header.schema_format);
    assert_eq!(0, db_header.default_cache_size);
    assert_eq!(0, db_header.largest_root_btree_page);
    assert_eq!(1, db_header.text_encoding);
    assert_eq!(0, db_header.user_version);
    assert_eq!(0, db_header.incremental_vacuum);
    assert_eq!(0x0102_0304, db_header.application_id);
    let mut reserved = [0u8; 20];
    reserved[0] = 0xaa;
    reserved[19] = 0xbb;
    assert_eq!(reserved, db_header.reserved);
    assert_eq!(5, db_header.version_valid);
    assert_eq!(3, db_header.sqlite_version / 1_000_000);
}

#[test]
fn database_header_with_a_non_utf8_magic_is_rejected() {
    let mut bytes = sample_database_header();
    bytes[3] = 0xff;
    assert!(matches!(DatabaseHeader::from(&bytes), Err(ParseError::InvalidUtf8)));
    assert!(matches!(DatabaseHeader::from(&bytes[..20]), Err(ParseError::InvalidUtf8)));
}

#[test]
fn table_leaf_page_header_has_no_rightmost_pointer() {
    let bytes = [0x0D, 0x00, 0x00, 0x00, 0x02, 0x0F, 0x4F, 0x00];
    let btree_page_header = BTreePageHeader::from_bytes(&bytes).unwrap();
    assert_eq!(btree_page_header.page_type, BTreePageType::TableLeaf);
    assert_eq!(btree_page_header.first_freeblock, 0);
    assert_eq!(btree_page_header.cell_count, 2);
    assert_eq!(btree_page_header.cell_content_offset, 3919);
    assert_eq!(btree_page_header.fragmented_free_bytes, 0);
    assert_eq!(btree_page_header.rightmost_pointer, None);
}

#[test]
fn interior_page_headers_have_a_rightmost_pointer() {
    let bytes = [0x05, 0x01, 0x02, 0x00, 0x03, 0x0F, 0x00, 0x07, 0x00, 0x00, 0x01, 0x02];
    let header = BTreePageHeader::from_bytes(&bytes).unwrap();
    assert_eq!(header.page_type, BTreePageType::TableInterior);
    assert_eq!(header.first_freeblock, 0x0102);
    assert_eq!(header.cell_count, 3);
    assert_eq!(header.cell_content_offset, 0x0F00);
    assert_eq!(header.fragmented_free_bytes, 7);
    assert_eq!(header.rightmost_pointer, Some(258));

    let mut index = bytes;
    index[0] = 0x02;
    let header = BTreePageHeader::from_bytes(&index).unwrap();
    assert_eq!(header.page_type, BTreePageType::IndexInterior);
    assert_eq!(header.rightmost_pointer, Some(258));

    let mut leaf = bytes;
    leaf[0] = 0x0A;
    let header = BTreePageHeader::from_bytes(&leaf).unwrap();
    assert_eq!(header.page_type, BTreePageType::IndexLeaf);
    assert_eq!(header.rightmost_pointer, None);
}

#[test]
fn page_header_with_an_unknown_type_is_rejected() {
    assert!(matches!(BTreePageHeader::from_bytes(&[0x07]), Err(ParseError::InvalidPageType)));
    assert!(matches!(BTreePageHeader::from_bytes(&[0x00; 12]), Err(ParseError::InvalidPageType)));
}

#[test]
fn btree_page_type_bytes() {
    assert_eq!(BTreePageType::from_byte(0x05).unwrap(), BTreePageType::TableInterior);
    assert_eq!(BTreePageType::from_byte(0x0D).unwrap(), BTreePageType::TableLeaf);
    assert_eq!(BTreePageType::from_byte(0x02).unwrap(), BTreePageType::IndexInterior);
    assert_eq!(BTreePageType::from_byte(0x0A).unwrap(), BTreePageType::IndexLeaf);
    for byte in 0..=255u8 {
        if ![0x02, 0x05, 0x0A, 0x0D].contains(&byte) {
            assert!(matches!(BTreePageType::from_byte(byte), Err(ParseError::InvalidPageType)));
        }
    }
}

#[test]
fn freelist_page_type_bytes() {
    assert_eq!(FreeListPageType::from_byte(0x02), Some(FreeListPageType::Trunk));
    assert_eq!(FreeListPageType::from_byte(0x00), Some(FreeListPageType::Leaf));
    assert_eq!(FreeListPageType::from_byte(0x01), None);
    assert_eq!(FreeListPageType::from_byte(0x0D), None);
}

#[test]
fn btree_header_follows_the_database_header_on_page_one() {
    assert_eq!(sqlite_from_scratch::page::btree_header_offset(1), 100);
    assert_eq!(sqlite_from_scratch::page::btree_header_offset(2), 0);
    assert_eq!(sqlite_from_scratch::page::btree_header_offset(7), 0);
}
