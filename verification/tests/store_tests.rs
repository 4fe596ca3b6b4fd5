use pagedstore::error::StoreError;
use pagedstore::memfile::MemFile;
use pagedstore::offset::Offset;
use pagedstore::page::{Page, PAGE_PAYLOAD_SIZE, PAGE_SIZE};
use pagedstore::pagedfile::{FileOps, PagedFile, PagedFileIterator, RandomWritePagedFile};

fn page_filled_with(byte: u8) -> Page {
    let mut page = Page::new();
    let payload: Vec<u8> = vec![byte; PAGE_PAYLOAD_SIZE];
    page.write(0, &payload);
    page
}

#[test]
fn empty_store_has_length_zero() {
    let store = MemFile::new();
    assert_eq!(store.len().unwrap(), 0);
}

#[test]
fn append_extends_by_one_page() {
    let mut store = MemFile::new();
    store.append_page(Page::new()).unwrap();
    assert_eq!(store.len().unwrap(), PAGE_SIZE as u64);
    store.append_page(Page::new()).unwrap();
    assert_eq!(store.len().unwrap(), 2 * PAGE_SIZE as u64);
}

#[test]
fn read_page_returns_what_was_appended() {
    let mut store = MemFile::new();
    let page = page_filled_with(0x5a);
    let expected = page_filled_with(0x5a).into_buf();
    store.append_page(page).unwrap();
    let read = store.read_page(Offset::from(0)).unwrap().unwrap();
    assert_eq!(read.into_buf(), expected);
}

#[test]
fn read_page_at_or_beyond_length_is_none() {
    let mut store = MemFile::new();
    assert!(store.read_page(Offset::from(0)).unwrap().is_none());
    store.append_page(page_filled_with(1)).unwrap();
    assert!(store.read_page(Offset::from(PAGE_SIZE as u64)).unwrap().is_none());
    assert!(store.read_page(Offset::from(PAGE_SIZE as u64 + 500)).unwrap().is_none());
    assert!(store.read_page(Offset::from(123)).unwrap().is_some());
}

#[test]
fn truncate_then_read_page_is_none() {
    let mut store = MemFile::new();
    store.append_page(page_filled_with(1)).unwrap();
    store.append_page(page_filled_with(2)).unwrap();
    store.truncate(PAGE_SIZE as u64).unwrap();
    assert_eq!(store.len().unwrap(), PAGE_SIZE as u64);
    assert!(store.read_page(Offset::from(PAGE_SIZE as u64)).unwrap().is_none());
    assert!(store.read_page(Offset::from(0)).unwrap().is_some());
}

#[test]
fn truncate_grows_with_zero_bytes() {
    let mut store = MemFile::new();
    store.append_page(page_filled_with(3)).unwrap();
    store.truncate(2 * PAGE_SIZE as u64).unwrap();
    let grown = store.read_page(Offset::from(PAGE_SIZE as u64)).unwrap().unwrap();
    assert!(grown.into_buf().iter().all(|&b| b == 0));
}

#[test]
fn truncate_beyond_address_space_fails_unchanged() {
    let mut store = MemFile::new();
    store.append_page(page_filled_with(4)).unwrap();
    let result = store.truncate(1u64 << 60);
    assert_eq!(result, Err(StoreError::Io));
    assert_eq!(store.len().unwrap(), PAGE_SIZE as u64);
}

#[test]
fn flush_sync_shutdown_keep_contents() {
    let mut store = MemFile::new();
    store.append_page(page_filled_with(5)).unwrap();
    store.flush().unwrap();
    store.sync().unwrap();
    store.shutdown();
    assert_eq!(store.len().unwrap(), PAGE_SIZE as u64);
}

#[test]
fn write_page_overwrites_in_place() {
    let mut store = MemFile::new();
    store.append_page(page_filled_with(1)).unwrap();
    store.append_page(page_filled_with(2)).unwrap();
    let mut replacement = page_filled_with(9);
    replacement.write_offset(PAGE_PAYLOAD_SIZE, Offset::from(PAGE_SIZE as u64));
    let pos = store.write_page(replacement).unwrap();
    assert_eq!(pos, PAGE_SIZE as u64);
    let untouched = store.read_page(Offset::from(0)).unwrap().unwrap();
    assert_eq!(untouched.into_buf()[0], 1);
    let rewritten = store.read_page(Offset::from(PAGE_SIZE as u64)).unwrap().unwrap();
    let buf = rewritten.into_buf();
    assert_eq!(buf[0], 9);
    assert_eq!(buf[PAGE_PAYLOAD_SIZE - 1], 9);
}

#[test]
fn appended_pages_iterate_in_order_then_stop() {
    let mut store = MemFile::new();
    for byte in 1..=3u8 {
        store.append_page(page_filled_with(byte)).unwrap();
    }
    let mut iter = PagedFileIterator::new(&store, Offset::from(0));
    for byte in 1..=3u8 {
        let page = iter.next().expect("a page was appended here");
        assert_eq!(page.into_buf()[0], byte);
    }
    assert!(iter.next().is_none());
    assert!(iter.next().is_none());
}

#[test]
fn iteration_from_mid_store_starts_there() {
    let mut store = MemFile::new();
    for byte in 1..=3u8 {
        store.append_page(page_filled_with(byte)).unwrap();
    }
    let mut iter = PagedFileIterator::new(&store, Offset::from(PAGE_SIZE as u64));
    assert_eq!(iter.next().unwrap().into_buf()[0], 2);
    assert_eq!(iter.next().unwrap().into_buf()[0], 3);
    assert!(iter.next().is_none());
}

#[test]
fn byte_stream_spans_the_page_boundary_without_trailers() {
    let mut store = MemFile::new();
    let mut first = page_filled_with(0xaa);
    first.write_offset(PAGE_PAYLOAD_SIZE, Offset::from(0x111111));
    let mut second = page_filled_with(0xbb);
    second.write_offset(PAGE_PAYLOAD_SIZE, Offset::from(0x222222));
    store.append_page(first).unwrap();
    store.append_page(second).unwrap();
    let mut iter = PagedFileIterator::new(&store, Offset::from(0));
    let mut buf: Vec<u8> = vec![0; PAGE_PAYLOAD_SIZE + 10];
    let n = iter.read(&mut buf).unwrap();
    assert_eq!(n, PAGE_PAYLOAD_SIZE + 10);
    assert!(buf[..PAGE_PAYLOAD_SIZE].iter().all(|&b| b == 0xaa));
    assert!(buf[PAGE_PAYLOAD_SIZE..].iter().all(|&b| b == 0xbb));
}

#[test]
fn byte_stream_short_read_is_not_an_error() {
    let mut store = MemFile::new();
    store.append_page(page_filled_with(7)).unwrap();
    let mut iter = PagedFileIterator::new(&store, Offset::from(0));
    let mut buf: Vec<u8> = vec![0; 2 * PAGE_PAYLOAD_SIZE];
    let n = iter.read(&mut buf).unwrap();
    assert_eq!(n, PAGE_PAYLOAD_SIZE);
    assert!(buf[..n].iter().all(|&b| b == 7));
    assert!(buf[n..].iter().all(|&b| b == 0));
}

#[test]
fn byte_stream_on_empty_store_reads_nothing() {
    let store = MemFile::new();
    let mut iter = PagedFileIterator::new(&store, Offset::from(0));
    let mut buf: Vec<u8> = vec![1; 16];
    assert_eq!(iter.read(&mut buf).unwrap(), 0);
    assert!(buf.iter().all(|&b| b == 1));
}

#[test]
fn position_advances_with_the_byte_stream() {
    let mut store = MemFile::new();
    store.append_page(page_filled_with(1)).unwrap();
    store.append_page(page_filled_with(2)).unwrap();
    let mut iter = PagedFileIterator::new(&store, Offset::from(0));
    assert_eq!(iter.position().as_u64(), 0);
    let mut buf: Vec<u8> = vec![0; 100];
    iter.read(&mut buf).unwrap();
    assert_eq!(iter.position().as_u64(), 100);
    let mut rest: Vec<u8> = vec![0; PAGE_PAYLOAD_SIZE - 100 + 5];
    iter.read(&mut rest).unwrap();
    assert_eq!(iter.position().as_u64(), PAGE_SIZE as u64 + 5);
}

#[test]
fn position_reflects_the_starting_address() {
    let store = MemFile::new();
    let iter = PagedFileIterator::new(&store, Offset::from(PAGE_SIZE as u64 + 10));
    assert_eq!(iter.position().as_u64(), PAGE_SIZE as u64 + 10);
}
