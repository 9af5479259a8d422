use alarm_clock::nvs::{decode_pages, entry_has_data, Page, PageEntry, PageError, PAGE_SIZE};

fn sample_page() -> Vec<u8> {
    let mut page = vec![0xffu8; PAGE_SIZE];
    page[0..4].copy_from_slice(&0xffff_fffeu32.to_le_bytes());
    page[4..8].copy_from_slice(&7u32.to_le_bytes());
    page[8] = 0xfe;
    page[28..32].copy_from_slice(&0x1234_5678u32.to_le_bytes());
    let entry = &mut page[64..96];
    entry[0] = 1;
    entry[1] = 0x42;
    entry[2] = 2;
    entry[3] = 0xff;
    entry[4..8].copy_from_slice(&0xdead_beefu32.to_le_bytes());
    entry[8..24].copy_from_slice(b"alarms\0\0\0\0\0\0\0\0\0\0");
    entry[24..32].copy_from_slice(&[0, 0, 0, 0, 0, 0, 0, 0]);
    let second = &mut page[96..128];
    second[24..32].copy_from_slice(&[0, 0, 0, 9, 0, 0, 0, 0]);
    page
}

#[test]
fn entry_fields() {
    let page = sample_page();
    let entry = PageEntry::from(&page[64..96]);
    assert_eq!(entry.ns, 1);
    assert_eq!(entry.typ, 0x42);
    assert_eq!(entry.span, 2);
    assert_eq!(entry.chunk_index, 0xff);
    assert_eq!(entry.crc32, 0xdead_beef);
    assert_eq!(entry.key, "alarms\0\0\0\0\0\0\0\0\0\0");
    assert_eq!(entry.data, [0; 8]);
    assert!(!entry_has_data(&entry));
}

#[test]
fn invalid_key_bytes_are_replaced() {
    let mut bytes = [0u8; 32];
    bytes[8] = 0xff;
    bytes[9] = b'k';
    let entry = PageEntry::from(&bytes);
    assert!(entry.key.starts_with("\u{fffd}k"));
}

#[test]
fn page_header_and_entries() {
    let page = Page::try_from(&sample_page()).unwrap();
    assert_eq!(page.header.state, 0xffff_fffe);
    assert_eq!(page.header.sequence, 7);
    assert_eq!(page.header.version, 0xfe);
    assert_eq!(page.header.crc32, 0x1234_5678);
    assert_eq!(page.entries.len(), 126);
    assert_eq!(page.entries[1].data, [0, 0, 0, 9, 0, 0, 0, 0]);
    // Erased entries are all 0xff, the first has no data, the second has.
    let used = page.entries_with_data();
    assert_eq!(used[0], 1);
    assert_eq!(used.len(), 125);
}

#[test]
fn page_needs_exactly_126_entries() {
    let page = sample_page();
    assert!(Page::try_from(&page[..PAGE_SIZE]).is_ok());
    assert!(matches!(Page::try_from(&page[..PAGE_SIZE - 1]), Err(PageError::EntryCount)));
    assert!(matches!(Page::try_from(&page[..64]), Err(PageError::EntryCount)));
    let mut longer = page.clone();
    longer.extend_from_slice(&[0; 31]);
    assert!(Page::try_from(&longer).is_ok());
    longer.push(0);
    assert!(matches!(Page::try_from(&longer), Err(PageError::EntryCount)));
}

#[test]
fn dump_decodes_whole_pages() {
    let mut dump = sample_page();
    dump.extend_from_slice(&sample_page());
    dump.extend_from_slice(&[0u8; 100]);
    let pages = decode_pages(&dump);
    assert_eq!(pages.len(), 2);
    assert_eq!(pages[1].header.sequence, 7);
    assert!(decode_pages(&dump[..PAGE_SIZE - 1]).is_empty());
}
