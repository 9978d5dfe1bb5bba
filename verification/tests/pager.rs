use comet::error::Error;
use comet::file::{IoError, PageFile};
use comet::page::{Page, PageError};
use comet::pager::Pager;

fn pattern(len: usize) -> Vec<u8> {
    (0..len).map(|i| (i * 7 + i / 251) as u8).collect()
}

#[test]
fn new_page_is_empty() {
    let page = Page::new();
    assert_eq!(page.occupied(), 2);
    assert_eq!(page.free(), 4094);
    assert!(page.empty());
    assert!(!page.is_full());
    assert!(!page.is_dirty());
    assert_eq!(&page.buffer()[..4], [2, 0, 0, 0]);
    assert_eq!(page.buffer().len(), 4096);
}

#[test]
fn page_write_appends_and_sets_the_header() {
    let mut page = Page::new();
    assert_eq!(page.write(&[1, 2, 3]), 3);
    assert_eq!(page.occupied(), 5);
    assert!(page.is_dirty());
    assert_eq!(&page.buffer()[..6], [5, 0, 1, 2, 3, 0]);
    assert_eq!(page.write_at(&[9, 9], 3), Ok(2));
    assert_eq!(page.occupied(), 7);
    assert_eq!(&page.buffer()[..8], [7, 0, 1, 2, 3, 9, 9, 0]);
    assert_eq!(page.write_at(&[4], 100), Ok(1));
    assert_eq!(page.occupied(), 101);
    assert_eq!(page.buffer()[100], 4);
    assert_eq!(page.buffer()[99], 0);
    page.flush();
    assert!(!page.is_dirty());
}

#[test]
fn page_write_stops_at_the_end_of_the_frame() {
    let mut page = Page::new();
    assert_eq!(page.write_at(&pattern(10), 4090), Ok(6));
    assert_eq!(page.occupied(), 4096);
    assert!(page.is_full());
    assert_eq!(page.free(), 0);
    assert_eq!(&page.buffer()[..2], [0, 16]);
    assert_eq!(page.write(&[1]), 0);
    assert_eq!(page.write_at(&[1], 4096), Ok(0));
    assert_eq!(page.write_at(&[1], 4097), Err(PageError::OutOfBounds));
}

#[test]
fn page_replace_moves_the_count_of_used_bytes() {
    let mut page = Page::new();
    page.write(&pattern(100));
    assert_eq!(page.replace_at(&[7, 7, 7], 10), Ok(3));
    assert_eq!(page.occupied(), 13);
    assert_eq!(&page.buffer()[10..13], [7, 7, 7]);
    assert_eq!(page.buffer()[13], pattern(100)[11]);
    assert_eq!(page.replace_at(&[1], 1), Err(PageError::OutOfBounds));
    assert_eq!(page.replace_at(&[1], 4097), Err(PageError::OutOfBounds));
}

#[test]
fn page_erase_zeroes_and_keeps_the_count() {
    let mut page = Page::new();
    page.write(&pattern(100));
    page.flush();
    assert_eq!(page.erase_at(10, 20), Ok(10));
    assert_eq!(page.occupied(), 102);
    assert!(page.is_dirty());
    assert_eq!(&page.buffer()[20..30], [0; 10]);
    assert_eq!(page.buffer()[19], pattern(100)[17]);
    assert_eq!(page.buffer()[30], pattern(100)[28]);
    assert_eq!(page.erase_at(100, 4090), Ok(6));
    assert_eq!(page.erase_at(1, 0), Err(PageError::OutOfBounds));
}

#[test]
fn page_read_copies_out() {
    let mut page = Page::new();
    page.write(&[1, 2, 3, 4]);
    assert_eq!(page.read_at(3, 3), Ok(vec![2, 3, 4]));
    assert_eq!(page.read(2), vec![1, 2]);
    assert_eq!(page.read_at(10, 4094), Ok(vec![0, 0]));
    assert_eq!(page.read_at(1, 4097), Err(PageError::OutOfBounds));
}

#[test]
fn page_from_buffer_reads_the_header() {
    let mut frame = vec![0u8; 4096];
    frame[0] = 10;
    frame[5] = 42;
    let page = Page::from_buffer(&frame);
    assert_eq!(page.occupied(), 10);
    assert_eq!(page.buffer()[5], 42);
    let blank = Page::from_buffer(&[]);
    assert_eq!(blank.occupied(), 2);
    assert_eq!(&blank.buffer()[..2], [2, 0]);
    let mut wild = vec![255u8; 4096];
    wild[1] = 255;
    assert_eq!(Page::from_buffer(&wild).occupied(), 4096);
}

#[test]
fn file_gives_blank_pages_where_none_was_stored() {
    let mut file = PageFile::new(8);
    assert_eq!(file.occupied(), (0, 2));
    assert_eq!(file.load_page(5).occupied(), 2);
    let mut page = Page::new();
    page.write(&[1, 2, 3]);
    assert_eq!(file.flush_page(3, page), Ok(()));
    assert_eq!(file.page_count(), 4);
    assert_eq!(file.occupied(), (3, 5));
    assert!(!file.load_page(3).is_dirty());
    assert_eq!(file.load_page(1).occupied(), 2);
    assert_eq!(file.flush_page(8, Page::new()), Err(IoError::WriteFailed));
    assert_eq!(file.limit(), 8);
}

#[test]
fn pager_reads_back_what_was_written_across_pages() {
    for len in [0usize, 1, 4093, 4094, 4095, 8188, 8189, 100_000] {
        let mut pager = Pager::new(PageFile::new(64));
        let data = pattern(len);
        assert_eq!(pager.write(&data), Ok(len));
        assert_eq!(pager.read_at(len, (0, 2)), Ok(data));
    }
}

#[test]
fn pager_appends_writes_one_behind_the_other() {
    let mut pager = Pager::new(PageFile::new(64));
    let mut all = Vec::new();
    for len in [10usize, 4000, 200, 9000, 1, 4094] {
        let data = pattern(len);
        assert_eq!(pager.write(&data), Ok(len));
        all.extend_from_slice(&data);
    }
    assert_eq!(pager.read_at(all.len(), (0, 2)), Ok(all.clone()));
    assert_eq!(pager.last_free_page(), (all.len() as u64 - 1) / 4094);
    assert_eq!(pager.read_at(5, (1, 2)), Ok(all[4094..4099].to_vec()));
}

#[test]
fn pager_replace_and_erase_span_pages() {
    let mut pager = Pager::new(PageFile::new(64));
    pager.write(&pattern(10_000)).unwrap();
    assert_eq!(pager.replace_at(&[9; 100], (0, 4050)), Ok(100));
    assert_eq!(pager.read_at(100, (0, 4050)), Ok(vec![9; 100]));
    assert_eq!(pager.read_at(2, (1, 56)), Ok(pattern(10_000)[4148..4150].to_vec()));
    assert_eq!(pager.erase_at(50, (0, 4090)), Ok(50));
    assert_eq!(pager.read_at(50, (0, 4090)), Ok(vec![0; 50]));
    assert_eq!(pager.read_at(1, (0, 4089)), Ok(vec![9]));
    assert_eq!(
        pager.replace_at(&[1], (0, 1)),
        Err(Error::Page(PageError::OutOfBounds))
    );
    assert_eq!(
        pager.read_at(1, (0, 4097)),
        Err(Error::Page(PageError::OutOfBounds))
    );
}

#[test]
fn pager_stops_at_the_limit_of_the_file() {
    let mut pager = Pager::new(PageFile::new(2));
    assert_eq!(
        pager.write(&pattern(3 * 4094)),
        Err(Error::Io(IoError::WriteFailed))
    );
    assert_eq!(pager.read_at(4094, (1, 2)), Ok(pattern(3 * 4094)[4094..8188].to_vec()));
    assert_eq!(pager.buffer(0).len(), 4096);
    assert_eq!(pager.occupied(), (1, 4096));
}
