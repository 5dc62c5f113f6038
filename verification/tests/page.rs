use inefficax::bytes::{read_be_u64, write_be_u64};
use inefficax::page::Page;
use inefficax::page_layout::{FromByte, ToByte, PAGE_SIZE, PTR_SIZE, UNDERFLOW_SPACE};
use inefficax::pager::read_be_usize;
use inefficax::Error;

#[test]
fn page_size_and_thresholds() {
    assert_eq!(PAGE_SIZE, 8192);
    assert_eq!(PTR_SIZE, 8);
    assert_eq!(UNDERFLOW_SPACE, 2730);
}

#[test]
fn empty_page_is_zeros() {
    let page = Page::new_empty();
    assert!(page.get_data().iter().all(|b| *b == 0));
    assert_eq!(page.get_usize_from_offset(0).unwrap(), 0);
}

#[test]
fn page_new_keeps_the_bytes() {
    let mut data = [0u8; PAGE_SIZE];
    data[0] = 0xab;
    data[PAGE_SIZE - 1] = 0xcd;
    let page = Page::new(data);
    assert_eq!(page.get_data()[0], 0xab);
    assert_eq!(page.get_data()[PAGE_SIZE - 1], 0xcd);
    let same = Page::from(data);
    assert_eq!(same.get_data()[..], page.get_data()[..]);
}

#[test]
fn usize_is_read_most_significant_byte_first() {
    let mut data = [0u8; PAGE_SIZE];
    data[16..24].copy_from_slice(&[0x01, 0x02, 0x03, 0x04, 0x05, 0x06, 0x07, 0x08]);
    let page = Page::new(data);
    assert_eq!(
        page.get_usize_from_offset(16).unwrap(),
        0x0102030405060708usize
    );
    assert_eq!(page.get_u64_from_offset(16).unwrap(), 0x0102030405060708u64);
    assert_eq!(page.get_usize_from_offset(17).unwrap(), 0x0203040506070800);
}

#[test]
fn usize_at_the_end_of_the_page() {
    let mut page = Page::new_empty();
    page.set_u64_at_offset(PAGE_SIZE - 8, 513).unwrap();
    assert_eq!(page.get_usize_from_offset(PAGE_SIZE - 8).unwrap(), 513);
    assert_eq!(page.get_data()[PAGE_SIZE - 1], 1);
    assert_eq!(page.get_data()[PAGE_SIZE - 2], 2);
    assert!(matches!(
        page.get_usize_from_offset(PAGE_SIZE - 7),
        Err(Error::UnexpectedError(_))
    ));
    assert!(matches!(
        page.get_usize_from_offset(PAGE_SIZE),
        Err(Error::UnexpectedError(_))
    ));
    assert!(matches!(
        page.set_u64_at_offset(PAGE_SIZE - 7, 1),
        Err(Error::UnexpectedError(_))
    ));
}

#[test]
fn bytes_and_slices_of_a_page() {
    let mut page = Page::new_empty();
    page.set_byte(5, 0x7f).unwrap();
    assert_eq!(page.get_byte(5).unwrap(), 0x7f);
    assert!(matches!(page.get_byte(PAGE_SIZE), Err(Error::UnexpectedError(_))));
    assert!(matches!(
        page.set_byte(PAGE_SIZE, 1),
        Err(Error::UnexpectedError(_))
    ));
    page.set_slice(10, &[1, 2, 3, 4]).unwrap();
    assert_eq!(page.get_slice(9, 6).unwrap(), vec![0, 1, 2, 3, 4, 0]);
    assert_eq!(page.get_slice(PAGE_SIZE, 0).unwrap(), Vec::<u8>::new());
    assert!(matches!(
        page.get_slice(PAGE_SIZE - 1, 2),
        Err(Error::UnexpectedError(_))
    ));
    assert!(matches!(
        page.set_slice(PAGE_SIZE - 1, &[1, 2]),
        Err(Error::UnexpectedError(_))
    ));
    assert_eq!(page.get_byte(PAGE_SIZE - 1).unwrap(), 0);
}

#[test]
fn big_endian_words() {
    let mut data = [0u8; PAGE_SIZE];
    write_be_u64(&mut data, 3, 0x1122334455667788);
    assert_eq!(
        &data[3..11],
        &[0x11, 0x22, 0x33, 0x44, 0x55, 0x66, 0x77, 0x88]
    );
    assert_eq!(data[2], 0);
    assert_eq!(data[11], 0);
    assert_eq!(read_be_u64(&data, 3), 0x1122334455667788);
    assert_eq!(read_be_u64(&[0, 0, 0, 0, 0, 0, 1, 0], 0), 256);
}

#[test]
fn read_be_usize_moves_past_the_word() {
    let bytes = [0u8, 0, 0, 0, 0, 0, 0x20, 0x00, 9, 8, 7];
    let mut input: &[u8] = &bytes;
    assert_eq!(read_be_usize(&mut input), 8192);
    assert_eq!(input, &[9, 8, 7]);
}

#[test]
fn flags_and_bytes() {
    assert!(1u8.from_byte());
    assert!(!0u8.from_byte());
    assert!(!2u8.from_byte());
    assert!(!255u8.from_byte());
    assert_eq!(true.to_byte(), 1);
    assert_eq!(false.to_byte(), 0);
}
