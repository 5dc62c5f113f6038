use inefficax::page::Page;
use inefficax::page_layout::PAGE_SIZE;
use inefficax::pager::{Config, FreeQueue, ObjectAddress, Offset, Pager};
use inefficax::Error;

fn page_of(byte: u8) -> Page {
    Page::new([byte; PAGE_SIZE])
}

fn pager_with_pages(n: usize) -> Pager {
    let mut pager = Pager::open(&[]).unwrap();
    for i in 0..n {
        let o = pager.write_page(&page_of(i as u8 + 1)).unwrap();
        assert_eq!(o, Offset((i + 1) * PAGE_SIZE));
    }
    pager
}

fn free_list_of(pager: &Pager) -> Vec<usize> {
    let mut list = vec![];
    let mut next = pager.config.first_free_page.map(|o| o.0).unwrap_or(0);
    while next != 0 {
        list.push(next);
        next = pager
            .get_page(&Offset(next))
            .unwrap()
            .get_usize_from_offset(0)
            .unwrap();
        assert!(list.len() <= pager.pages.len());
    }
    list
}

#[test]
fn offsets_compare_by_their_number() {
    assert_eq!(Offset::from(5), Offset(5));
    assert!(Offset(1) < Offset(2));
    assert_eq!(ObjectAddress(3), ObjectAddress(3));
}

#[test]
fn config_default_names_nothing() {
    let config = Config::default();
    assert_eq!(config.root_page, None);
    assert_eq!(config.first_free_page, None);
}

#[test]
fn config_page_layout() {
    let config = Config {
        root_page: Some(Offset(8192)),
        first_free_page: Some(Offset(0x010203)),
    };
    let data = config.to_page().get_data();
    assert_eq!(&data[0..8], &[0, 0, 0, 0, 0, 0, 0x20, 0]);
    assert_eq!(&data[8..16], &[0, 0, 0, 0, 0, 1, 2, 3]);
    assert!(data[16..].iter().all(|b| *b == 0));
    let read = Config::try_from(Page::new(data)).unwrap();
    assert_eq!(read.root_page, Some(Offset(8192)));
    assert_eq!(read.first_free_page, Some(Offset(0x010203)));
    let none = Config::try_from(Page::new_empty()).unwrap();
    assert_eq!(none.root_page, None);
    assert_eq!(none.first_free_page, None);
}

#[test]
fn open_empty_storage_writes_page_zero() {
    let pager = Pager::open(&[]).unwrap();
    assert_eq!(pager.pages.len(), 1);
    assert_eq!(pager.curser, PAGE_SIZE);
    assert_eq!(pager.pages_allocated, 0);
    assert_eq!(pager.get_file_size().unwrap(), 8192);
    assert!(pager.image().iter().all(|b| *b == 0));
}

#[test]
fn open_refuses_half_a_page() {
    assert!(matches!(
        Pager::open(&[0u8; 100]),
        Err(Error::UnexpectedError(_))
    ));
    assert!(matches!(
        Pager::open(&vec![0u8; PAGE_SIZE + 1]),
        Err(Error::UnexpectedError(_))
    ));
}

#[test]
fn image_and_open_agree() {
    let mut pager = pager_with_pages(3);
    pager.set_root_page(Offset(2 * PAGE_SIZE)).unwrap();
    pager.free_page(&Offset(PAGE_SIZE)).unwrap();
    let image = pager.image();
    assert_eq!(image.len(), 4 * PAGE_SIZE);
    assert_eq!(image[3 * PAGE_SIZE + 17], 3);
    let again = Pager::open(&image).unwrap();
    assert_eq!(again.config.root_page, Some(Offset(2 * PAGE_SIZE)));
    assert_eq!(again.config.first_free_page, Some(Offset(PAGE_SIZE)));
    assert_eq!(again.curser, 4 * PAGE_SIZE);
    assert_eq!(again.pages_allocated, 4);
    assert_eq!(again.image(), image);
}

#[test]
fn pages_are_read_where_they_start() {
    let pager = pager_with_pages(2);
    assert_eq!(pager.get_page(&Offset(PAGE_SIZE)).unwrap().get_data()[0], 1);
    assert_eq!(
        pager.get_page(&Offset(2 * PAGE_SIZE)).unwrap().get_data()[5],
        2
    );
    assert!(matches!(
        pager.get_page(&Offset(3 * PAGE_SIZE)),
        Err(Error::FileSystemError(_))
    ));
    assert!(matches!(
        pager.get_page(&Offset(PAGE_SIZE + 1)),
        Err(Error::UnexpectedError(_))
    ));
    assert_eq!(
        pager.get_page_partial(&Offset(PAGE_SIZE), 3).unwrap(),
        vec![1, 1, 1]
    );
    assert!(pager
        .get_page_partial(&Offset(PAGE_SIZE), PAGE_SIZE + 1)
        .is_err());
}

#[test]
fn write_at_offset_writes_over_or_at_the_end() {
    let mut pager = pager_with_pages(1);
    pager
        .write_page_at_offset(&Offset(PAGE_SIZE), &page_of(9))
        .unwrap();
    assert_eq!(pager.get_page(&Offset(PAGE_SIZE)).unwrap().get_data()[0], 9);
    pager
        .write_page_at_offset(&Offset(2 * PAGE_SIZE), &page_of(8))
        .unwrap();
    assert_eq!(pager.pages.len(), 3);
    assert!(matches!(
        pager.write_page_at_offset(&Offset(5 * PAGE_SIZE), &page_of(7)),
        Err(Error::FileSystemError(_))
    ));
    assert!(matches!(
        pager.write_page_at_offset(&Offset(17), &page_of(7)),
        Err(Error::UnexpectedError(_))
    ));
    assert_eq!(pager.pages.len(), 3);
}

#[test]
fn free_into_an_empty_list() {
    let mut pager = pager_with_pages(3);
    pager.free_page(&Offset(2 * PAGE_SIZE)).unwrap();
    assert_eq!(free_list_of(&pager), vec![2 * PAGE_SIZE]);
    // The page is zeroed and page zero names it.
    assert!(pager
        .get_page(&Offset(2 * PAGE_SIZE))
        .unwrap()
        .get_data()
        .iter()
        .all(|b| *b == 0));
    assert_eq!(
        pager.get_page(&Offset(0)).unwrap().get_usize_from_offset(8).unwrap(),
        2 * PAGE_SIZE
    );
}

#[test]
fn free_before_the_head() {
    let mut pager = pager_with_pages(3);
    pager.free_page(&Offset(3 * PAGE_SIZE)).unwrap();
    pager.free_page(&Offset(PAGE_SIZE)).unwrap();
    assert_eq!(free_list_of(&pager), vec![PAGE_SIZE, 3 * PAGE_SIZE]);
    let data = pager.get_page(&Offset(PAGE_SIZE)).unwrap().get_data();
    assert_eq!(&data[0..8], &[0, 0, 0, 0, 0, 0, 0x60, 0]);
    assert_eq!(&data[8..16], &[0; 8]);
    // What lies after the first sixteen bytes stays.
    assert_eq!(data[16], 1);
}

#[test]
fn free_after_the_last() {
    let mut pager = pager_with_pages(3);
    pager.free_page(&Offset(PAGE_SIZE)).unwrap();
    pager.free_page(&Offset(3 * PAGE_SIZE)).unwrap();
    assert_eq!(free_list_of(&pager), vec![PAGE_SIZE, 3 * PAGE_SIZE]);
    assert!(pager
        .get_page(&Offset(3 * PAGE_SIZE))
        .unwrap()
        .get_data()
        .iter()
        .all(|b| *b == 0));
}

#[test]
fn free_between_two() {
    let mut pager = pager_with_pages(5);
    pager.free_page(&Offset(PAGE_SIZE)).unwrap();
    pager.free_page(&Offset(5 * PAGE_SIZE)).unwrap();
    pager.free_page(&Offset(3 * PAGE_SIZE)).unwrap();
    assert_eq!(
        free_list_of(&pager),
        vec![PAGE_SIZE, 3 * PAGE_SIZE, 5 * PAGE_SIZE]
    );
    pager.free_page(&Offset(4 * PAGE_SIZE)).unwrap();
    pager.free_page(&Offset(2 * PAGE_SIZE)).unwrap();
    assert_eq!(
        free_list_of(&pager),
        vec![
            PAGE_SIZE,
            2 * PAGE_SIZE,
            3 * PAGE_SIZE,
            4 * PAGE_SIZE,
            5 * PAGE_SIZE
        ]
    );
    let data = pager.get_page(&Offset(3 * PAGE_SIZE)).unwrap().get_data();
    assert_eq!(data[8], 3);
}

#[test]
fn free_list_stays_ascending_whatever_the_order() {
    let mut pager = pager_with_pages(20);
    let order = [7usize, 3, 19, 1, 12, 20, 5, 14, 2, 9, 16, 11];
    for (i, n) in order.iter().enumerate() {
        pager.free_page(&Offset(n * PAGE_SIZE)).unwrap();
        let list = free_list_of(&pager);
        assert_eq!(list.len(), i + 1);
        assert!(list.windows(2).all(|w| w[0] < w[1]));
    }
    let mut sorted: Vec<usize> = order.iter().map(|n| n * PAGE_SIZE).collect();
    sorted.sort();
    assert_eq!(free_list_of(&pager), sorted);
}

#[test]
fn freeing_what_cannot_be_freed_is_refused() {
    let mut pager = pager_with_pages(3);
    assert!(matches!(
        pager.free_page(&Offset(0)),
        Err(Error::UnexpectedError(_))
    ));
    assert!(matches!(
        pager.free_page(&Offset(100)),
        Err(Error::UnexpectedError(_))
    ));
    assert!(matches!(
        pager.free_page(&Offset(9 * PAGE_SIZE)),
        Err(Error::UnexpectedError(_))
    ));
    pager.free_page(&Offset(PAGE_SIZE)).unwrap();
    pager.free_page(&Offset(3 * PAGE_SIZE)).unwrap();
    assert!(matches!(
        pager.free_page(&Offset(PAGE_SIZE)),
        Err(Error::UnexpectedError(_))
    ));
    assert!(matches!(
        pager.free_page(&Offset(3 * PAGE_SIZE)),
        Err(Error::UnexpectedError(_))
    ));
    assert_eq!(free_list_of(&pager), vec![PAGE_SIZE, 3 * PAGE_SIZE]);
}

#[test]
fn write_page_takes_the_head_of_the_free_list_first() {
    let mut pager = pager_with_pages(4);
    pager.free_page(&Offset(3 * PAGE_SIZE)).unwrap();
    pager.free_page(&Offset(2 * PAGE_SIZE)).unwrap();
    assert_eq!(pager.write_page(&page_of(0x55)).unwrap(), Offset(2 * PAGE_SIZE));
    assert_eq!(free_list_of(&pager), vec![3 * PAGE_SIZE]);
    assert_eq!(pager.write_page(&page_of(0x66)).unwrap(), Offset(3 * PAGE_SIZE));
    assert_eq!(free_list_of(&pager), Vec::<usize>::new());
    assert_eq!(pager.write_page(&page_of(0x77)).unwrap(), Offset(5 * PAGE_SIZE));
    assert_eq!(pager.pages.len(), 6);
    assert_eq!(
        pager.get_page(&Offset(2 * PAGE_SIZE)).unwrap().get_data()[100],
        0x55
    );
    assert_eq!(pager.curser, 6 * PAGE_SIZE);
}

#[test]
fn free_pages_frees_the_queue() {
    let mut pager = pager_with_pages(6);
    let mut fq = FreeQueue::new();
    fq.add(Offset(4 * PAGE_SIZE));
    fq.add(Offset(2 * PAGE_SIZE));
    fq.add(Offset(6 * PAGE_SIZE));
    fq.add(Offset(2 * PAGE_SIZE));
    pager.free_pages(fq).unwrap();
    assert_eq!(
        free_list_of(&pager),
        vec![2 * PAGE_SIZE, 4 * PAGE_SIZE, 6 * PAGE_SIZE]
    );
    let mut bad = FreeQueue::new();
    bad.add(Offset(PAGE_SIZE));
    bad.add(Offset(4 * PAGE_SIZE));
    bad.add(Offset(5 * PAGE_SIZE));
    assert!(matches!(
        pager.free_pages(bad),
        Err(Error::UnexpectedError(_))
    ));
    assert_eq!(
        free_list_of(&pager),
        vec![PAGE_SIZE, 2 * PAGE_SIZE, 4 * PAGE_SIZE, 6 * PAGE_SIZE]
    );
}

#[test]
fn set_root_page_writes_page_zero() {
    let mut pager = pager_with_pages(2);
    pager.set_root_page(Offset(2 * PAGE_SIZE)).unwrap();
    assert_eq!(pager.config.root_page, Some(Offset(2 * PAGE_SIZE)));
    let zero = pager.get_page(&Offset(0)).unwrap();
    assert_eq!(zero.get_usize_from_offset(0).unwrap(), 2 * PAGE_SIZE);
    assert_eq!(zero.get_usize_from_offset(8).unwrap(), 0);
    pager.config.root_page = Some(Offset(PAGE_SIZE));
    pager.write_config().unwrap();
    assert_eq!(
        pager.get_page(&Offset(0)).unwrap().get_usize_from_offset(0).unwrap(),
        PAGE_SIZE
    );
}

#[test]
fn objects_are_stored_with_their_length() {
    let mut pager = pager_with_pages(1);
    let object = b"Key value:         42".to_vec();
    let o = pager.write_object(&object).unwrap();
    assert_eq!(o, Offset(2 * PAGE_SIZE));
    let data = pager.get_page(&o).unwrap().get_data();
    assert_eq!(&data[0..8], &[0, 0, 0, 0, 0, 0, 0, 21]);
    assert_eq!(&data[8..29], &object[..]);
    assert!(data[29..].iter().all(|b| *b == 0));
    assert_eq!(pager.get_object(&o).unwrap(), object);
    let empty = pager.write_object(&vec![]).unwrap();
    assert_eq!(pager.get_object(&empty).unwrap(), Vec::<u8>::new());
    let largest = vec![0xee; PAGE_SIZE - 8];
    let big = pager.write_object(&largest).unwrap();
    assert_eq!(pager.get_object(&big).unwrap(), largest);
    pager.free_object(o).unwrap();
    assert_eq!(free_list_of(&pager), vec![2 * PAGE_SIZE]);
}

#[test]
fn object_larger_than_a_page_is_refused() {
    let mut pager = pager_with_pages(1);
    let before = pager.image();
    assert!(matches!(
        pager.write_object(&vec![1; PAGE_SIZE - 7]),
        Err(Error::UnexpectedError(_))
    ));
    assert_eq!(pager.image(), before);
    // A page whose first eight bytes spell more than a page holds.
    assert!(pager.get_object(&Offset(PAGE_SIZE)).is_err());
    assert!(pager.get_object(&Offset(7 * PAGE_SIZE)).is_err());
}
