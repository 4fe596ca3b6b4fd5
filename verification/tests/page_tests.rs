use pagedstore::offset::Offset;
use pagedstore::page::{Page, PAGE_PAYLOAD_SIZE, PAGE_SIZE};

#[test]
fn new_page_is_zero() {
    let page = Page::new();
    let buf = page.into_buf();
    assert_eq!(buf.len(), PAGE_SIZE);
    assert!(buf.iter().all(|&b| b == 0));
}

#[test]
fn from_buf_is_verbatim() {
    let mut raw: Vec<u8> = Vec::new();
    for i in 0..PAGE_SIZE {
        raw.push((i % 251) as u8);
    }
    let expected = raw.clone();
    let page = Page::from_buf(raw);
    assert_eq!(page.into_buf(), expected);
}

#[test]
fn write_read_round_trip() {
    let mut page = Page::new();
    let data: Vec<u8> = vec![7, 9, 13, 255, 0, 42];
    page.write(100, &data);
    let mut out: Vec<u8> = vec![0; 6];
    page.read(100, &mut out);
    assert_eq!(out, data);
}

#[test]
fn write_read_round_trip_at_page_end() {
    let mut page = Page::new();
    let data: Vec<u8> = vec![1, 2, 3, 4];
    page.write(PAGE_SIZE - 4, &data);
    let mut out: Vec<u8> = vec![0; 4];
    page.read(PAGE_SIZE - 4, &mut out);
    assert_eq!(out, data);
}

#[test]
fn write_does_not_touch_neighbours() {
    let mut page = Page::new();
    let data: Vec<u8> = vec![9, 9];
    page.write(10, &data);
    let buf = page.into_buf();
    assert_eq!(buf[9], 0);
    assert_eq!(buf[10], 9);
    assert_eq!(buf[11], 9);
    assert_eq!(buf[12], 0);
}

#[test]
fn u64_round_trip() {
    let mut page = Page::new();
    page.write_u64(8, 0xdead_beef_1234_5678);
    assert_eq!(page.read_u64(8), 0xdead_beef_1234_5678);
}

#[test]
fn u64_round_trip_extremes_and_unaligned() {
    let mut page = Page::new();
    page.write_u64(3, u64::MAX);
    assert_eq!(page.read_u64(3), u64::MAX);
    page.write_u64(3, 0);
    assert_eq!(page.read_u64(3), 0);
    page.write_u64(PAGE_SIZE - 8, 1);
    assert_eq!(page.read_u64(PAGE_SIZE - 8), 1);
}

#[test]
fn u64_is_big_endian() {
    let mut page = Page::new();
    page.write_u64(0, 0x0102_0304_0506_0708);
    let buf = page.into_buf();
    assert_eq!(&buf[0..8], &[1, 2, 3, 4, 5, 6, 7, 8]);
}

#[test]
fn read_u64_exact_value() {
    let mut raw: Vec<u8> = vec![0; PAGE_SIZE];
    raw[16] = 0xab;
    raw[23] = 0xcd;
    let page = Page::from_buf(raw);
    assert_eq!(page.read_u64(16), 0xab00_0000_0000_00cd);
}

#[test]
fn offset_round_trip() {
    let mut page = Page::new();
    page.write_offset(50, Offset::from(123_456_789));
    assert_eq!(page.read_offset(50).as_u64(), 123_456_789);
}

#[test]
fn offset_round_trip_largest_48_bit_value() {
    let mut page = Page::new();
    let value = (1u64 << 48) - 1;
    page.write_offset(0, Offset::from(value));
    assert_eq!(page.read_offset(0).as_u64(), value);
}

#[test]
fn offset_occupies_six_big_endian_bytes() {
    let mut page = Page::new();
    page.write_offset(0, Offset::from(0x0102_0304_0506));
    let buf = page.into_buf();
    assert_eq!(&buf[0..6], &[1, 2, 3, 4, 5, 6]);
    assert_eq!(buf[6], 0);
}

#[test]
fn own_offset_is_the_trailer() {
    let mut page = Page::new();
    page.write_offset(PAGE_PAYLOAD_SIZE, Offset::from(8192));
    assert_eq!(page.offset().as_u64(), 8192);
}

#[test]
fn offset_decomposition() {
    let offset = Offset::from(5 * PAGE_SIZE as u64 + 123);
    assert_eq!(offset.as_u64(), 5 * PAGE_SIZE as u64 + 123);
    assert_eq!(offset.page_number(), 5);
    assert_eq!(offset.in_page_pos(), 123);
}

#[test]
fn offset_zero_decomposition() {
    let offset = Offset::from(0);
    assert_eq!(offset.page_number(), 0);
    assert_eq!(offset.in_page_pos(), 0);
}
