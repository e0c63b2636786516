use btrs::errors::ErrorKind;
use btrs::page::Page;
use btrs::page_store::StoreLayout;
use btrs::units::PageSize;
use btrs::wabl::{checkpoint_plan, locate_page, PageSource};
use btrs::wal::WalState;

fn write_at(file: &mut Vec<u8>, off: u64, bytes: &[u8]) {
    let off = off as usize;
    if file.len() < off + bytes.len() {
        file.resize(off + bytes.len(), 0);
    }
    file[off..off + bytes.len()].copy_from_slice(bytes);
}

fn read_at(file: &[u8], off: u64, n: usize) -> Vec<u8> {
    let off = (off as usize).min(file.len());
    let end = (off + n).min(file.len());
    file[off..end].to_vec()
}

fn open_wal(file: &mut Vec<u8>, ps: PageSize) -> Result<WalState, ErrorKind> {
    let stored = read_at(file, 0, 20);
    let (w, header) = WalState::open(ps, &stored)?;
    if let Some(h) = header {
        write_at(file, 0, &h);
    }
    Ok(w)
}

fn scan(w: &mut WalState, file: &[u8]) {
    let header = read_at(file, 0, 20);
    w.begin_scan(&header).unwrap();
    while let Some(off) = w.next_scan_offset(file.len() as u64) {
        let b = read_at(file, off, 16);
        if !w.scan_frame(&b) {
            break;
        }
    }
    w.end_scan();
}

fn write_page(w: &mut WalState, file: &mut Vec<u8>, n: u32, page: &Page) {
    let (off, bytes) = w.write_page(n, page).unwrap();
    write_at(file, off, &bytes);
}

fn commit(w: &mut WalState, file: &mut Vec<u8>) {
    if let Some((off, b)) = w.commit_write() {
        write_at(file, off, &b);
    }
    w.commit();
}

fn read_wal(w: &WalState, file: &[u8], n: u32) -> Option<Vec<u8>> {
    let ps = w.page_size().to_u32() as usize;
    w.read_offset(n).map(|off| read_at(file, off, ps))
}

fn page_with(ps: PageSize, b0: u8) -> Page {
    let mut p = Page::new(ps);
    p.buf_mut()[0] = b0;
    p
}

fn ps512() -> PageSize {
    PageSize::new(512)
}

/// A fresh log with page 0 written and committed.
fn log_with_page_zero(file: &mut Vec<u8>) -> WalState {
    let ps = ps512();
    let mut w = open_wal(file, ps).unwrap();
    scan(&mut w, file);
    scan(&mut w, file);
    write_page(&mut w, file, 0, &page_with(ps, 1));
    commit(&mut w, file);
    w
}

/// A fresh log with pages 1 and 2 written in one transaction, then page 2
/// again in another.
fn log_with_pages_one_and_two(file: &mut Vec<u8>) -> WalState {
    let ps = ps512();
    let mut w = open_wal(file, ps).unwrap();
    scan(&mut w, file);
    write_page(&mut w, file, 1, &page_with(ps, 1));
    write_page(&mut w, file, 2, &page_with(ps, 1));
    commit(&mut w, file);
    scan(&mut w, file);
    write_page(&mut w, file, 2, &page_with(ps, 2));
    commit(&mut w, file);
    w
}

#[test]
fn fresh_write_read() {
    let mut file = Vec::new();
    let mut w = log_with_page_zero(&mut file);
    scan(&mut w, &file);
    let page = read_wal(&w, &file, 0).unwrap();
    assert_eq!(page.len(), 512);
    assert_eq!(page[0], 1);
}

#[test]
fn overwrite_then_commit() {
    let mut file = Vec::new();
    let mut w = log_with_page_zero(&mut file);
    scan(&mut w, &file);
    write_page(&mut w, &mut file, 0, &page_with(ps512(), 2));
    commit(&mut w, &mut file);
    scan(&mut w, &file);
    assert_eq!(read_wal(&w, &file, 0).unwrap()[0], 2);
}

#[test]
fn two_pages_single_txn() {
    let mut file = Vec::new();
    let mut w = log_with_pages_one_and_two(&mut file);
    scan(&mut w, &file);
    assert_eq!(read_wal(&w, &file, 2).unwrap()[0], 2);
    assert_eq!(read_wal(&w, &file, 1).unwrap()[0], 1);
    assert_eq!(w.num_frames(), 3);
}

#[test]
fn checkpoint_clears_log() {
    let ps = ps512();
    let mut file = Vec::new();
    let mut w = log_with_pages_one_and_two(&mut file);
    let mut store_file = Vec::new();
    let (store, header) = StoreLayout::open(ps, &[]).unwrap();
    write_at(&mut store_file, 0, &header.unwrap());

    scan(&mut w, &file);
    let pages = w.pages();
    assert!(pages.contains(&1) && pages.contains(&2));
    for step in checkpoint_plan(&w, &store) {
        let page = read_at(&file, step.wal_offset, 512);
        write_at(&mut store_file, step.store_offset, &page);
    }
    let header = w.next_epoch_header().unwrap();
    write_at(&mut file, 0, &header);

    let mut w2 = open_wal(&mut file, ps).unwrap();
    scan(&mut w2, &file);
    assert_eq!(w2.epoch(), 1);
    assert_eq!(w2.num_frames(), 0);
    assert!(w2.pages().is_empty());
    assert_eq!(w2.read_offset(1), None);
    match locate_page(&w2, &store, 1) {
        PageSource::Store(off) => assert_eq!(read_at(&store_file, off, 512)[0], 1),
        PageSource::Wal(_) => panic!("page 1 should come from the store"),
    }
}

#[test]
fn uncommitted_write_ignored() {
    let ps = ps512();
    let mut file = Vec::new();
    let mut w = open_wal(&mut file, ps).unwrap();
    scan(&mut w, &file);
    write_page(&mut w, &mut file, 5, &page_with(ps, 9));
    w.rollback();
    let mut w2 = open_wal(&mut file, ps).unwrap();
    scan(&mut w2, &file);
    assert_eq!(w2.read_offset(5), None);
}

#[test]
fn rejected_open() {
    let mut file = Vec::new();
    open_wal(&mut file, ps512()).unwrap();
    let r = open_wal(&mut file, PageSize::new(1024));
    assert!(matches!(r, Err(ErrorKind::PageSizeMismatch)));
}

#[test]
fn commit_survives_reopen() {
    let ps = ps512();
    let mut file = Vec::new();
    let mut w = open_wal(&mut file, ps).unwrap();
    scan(&mut w, &file);
    let mut page = Page::new(ps);
    for (i, b) in page.buf_mut().iter_mut().enumerate() {
        *b = (i % 251) as u8;
    }
    let expected = page.buf().to_vec();
    write_page(&mut w, &mut file, 7, &page);
    commit(&mut w, &mut file);
    drop(w);
    let mut w2 = open_wal(&mut file, ps).unwrap();
    scan(&mut w2, &file);
    assert_eq!(read_wal(&w2, &file, 7).unwrap(), expected);
}

#[test]
fn rollback_restores_previous_commit() {
    let ps = ps512();
    let mut file = Vec::new();
    let mut w = log_with_page_zero(&mut file);
    scan(&mut w, &file);
    write_page(&mut w, &mut file, 0, &page_with(ps, 7));
    assert_eq!(read_wal(&w, &file, 0).unwrap()[0], 7);
    w.rollback();
    assert_eq!(read_wal(&w, &file, 0).unwrap()[0], 1);
    scan(&mut w, &file);
    assert_eq!(read_wal(&w, &file, 0).unwrap()[0], 1);
}

#[test]
fn crash_before_commit_ignored_on_open() {
    let ps = ps512();
    let mut file = Vec::new();
    let mut w = log_with_page_zero(&mut file);
    scan(&mut w, &file);
    write_page(&mut w, &mut file, 0, &page_with(ps, 3));
    write_page(&mut w, &mut file, 4, &page_with(ps, 3));
    drop(w);
    let mut w2 = open_wal(&mut file, ps).unwrap();
    scan(&mut w2, &file);
    assert_eq!(w2.num_frames(), 1);
    assert_eq!(read_wal(&w2, &file, 0).unwrap()[0], 1);
    assert_eq!(w2.read_offset(4), None);
}

#[test]
fn last_committed_copy_stays_until_next_epoch() {
    let ps = ps512();
    let mut file = Vec::new();
    let mut w = log_with_page_zero(&mut file);
    for n in 1..4u32 {
        scan(&mut w, &file);
        write_page(&mut w, &mut file, n, &page_with(ps, n as u8));
        commit(&mut w, &mut file);
    }
    scan(&mut w, &file);
    assert_eq!(read_wal(&w, &file, 0).unwrap()[0], 1);
    assert_eq!(read_wal(&w, &file, 3).unwrap()[0], 3);
}

#[test]
fn reopening_twice_gives_the_same_index() {
    let ps = ps512();
    let mut file = Vec::new();
    let mut w = log_with_pages_one_and_two(&mut file);
    scan(&mut w, &file);
    let mut a = open_wal(&mut file, ps).unwrap();
    scan(&mut a, &file);
    let mut b = open_wal(&mut file, ps).unwrap();
    scan(&mut b, &file);
    assert_eq!(a.epoch(), b.epoch());
    assert_eq!(a.num_frames(), b.num_frames());
    assert_eq!(a.pages(), b.pages());
    for n in 0..4u32 {
        assert_eq!(a.read_offset(n), b.read_offset(n));
    }
    scan(&mut a, &file);
    assert_eq!(a.pages(), b.pages());
    assert_eq!(a.num_frames(), 3);
}

#[test]
fn largest_page_size_works() {
    let ps = PageSize::new(0x100000);
    let mut file = Vec::new();
    let mut w = open_wal(&mut file, ps).unwrap();
    scan(&mut w, &file);
    write_page(&mut w, &mut file, 3, &page_with(ps, 42));
    commit(&mut w, &mut file);
    let mut w2 = open_wal(&mut file, ps).unwrap();
    scan(&mut w2, &file);
    let page = read_wal(&w2, &file, 3).unwrap();
    assert_eq!(page.len(), 0x100000);
    assert_eq!(page[0], 42);
    assert_eq!(w2.read_offset(3), Some(512 + 16));
}

#[test]
fn empty_commit_is_a_no_op() {
    let ps = ps512();
    let mut file = Vec::new();
    let mut w = log_with_page_zero(&mut file);
    scan(&mut w, &file);
    let before = file.clone();
    assert!(w.commit_write().is_none());
    commit(&mut w, &mut file);
    assert_eq!(file, before);
    assert_eq!(w.num_frames(), 1);
    let mut fresh_file = Vec::new();
    let mut fresh = open_wal(&mut fresh_file, ps).unwrap();
    scan(&mut fresh, &fresh_file);
    assert!(fresh.commit_write().is_none());
}

#[test]
fn unwritten_page_is_absent() {
    let mut file = Vec::new();
    let mut w = log_with_pages_one_and_two(&mut file);
    scan(&mut w, &file);
    assert_eq!(w.read_offset(0), None);
    assert_eq!(w.read_offset(99), None);
}

#[test]
fn frame_offsets_follow_the_layout() {
    let ps = ps512();
    let mut file = Vec::new();
    let mut w = open_wal(&mut file, ps).unwrap();
    assert_eq!(file.len(), 512);
    scan(&mut w, &file);
    assert_eq!(w.frame_offset(0), 512);
    assert_eq!(w.frame_offset(2), 512 + 2 * 528);
    let (off, bytes) = w.write_page(9, &page_with(ps, 5)).unwrap();
    assert_eq!(off, 512);
    assert_eq!(bytes.len(), 528);
    assert_eq!(&bytes[0..4], &[9, 0, 0, 0]);
    assert_eq!(&bytes[4..8], &[0, 0, 0, 0]);
    assert_eq!(&bytes[8..16], &[0; 8]);
    assert_eq!(bytes[16], 5);
    write_at(&mut file, off, &bytes);
    let (coff, flag) = w.commit_write().unwrap();
    assert_eq!(coff, 516);
    assert_eq!(flag, vec![1, 0, 0, 0]);
}

#[test]
fn new_epoch_resets_a_running_view() {
    let ps = ps512();
    let mut file = Vec::new();
    let mut w = log_with_pages_one_and_two(&mut file);
    scan(&mut w, &file);
    let header = w.next_epoch_header().unwrap();
    write_at(&mut file, 0, &header);
    scan(&mut w, &file);
    assert_eq!(w.epoch(), 1);
    assert_eq!(w.num_frames(), 0);
    assert_eq!(w.read_offset(2), None);
    write_page(&mut w, &mut file, 8, &page_with(ps, 8));
    commit(&mut w, &mut file);
    let mut w2 = open_wal(&mut file, ps).unwrap();
    scan(&mut w2, &file);
    assert_eq!(w2.pages(), vec![8]);
    assert_eq!(read_wal(&w2, &file, 8).unwrap()[0], 8);
}

#[test]
fn bad_header_stops_a_rebuild() {
    let ps = ps512();
    let mut file = Vec::new();
    let mut w = open_wal(&mut file, ps).unwrap();
    assert_eq!(w.begin_scan(&[1, 2, 3]), Err(ErrorKind::ShortRead));
    let mut other = file.clone();
    other[0] ^= 0xff;
    assert_eq!(w.begin_scan(&other[..20]), Err(ErrorKind::BadMagic));
    let mut big = Vec::new();
    open_wal(&mut big, PageSize::new(4096)).unwrap();
    assert_eq!(w.begin_scan(&big[..20]), Err(ErrorKind::PageSizeMismatch));
}

#[test]
fn wrong_magic_gets_fresh_header() {
    let ps = ps512();
    let mut file = vec![0xaau8; 40];
    let w = open_wal(&mut file, ps).unwrap();
    assert_eq!(w.epoch(), 0);
    assert_eq!(&file[0..8], &[0xb4, 0xcd, 0x60, 0x47, 0x3d, 0xb2, 0xa8, 0x11]);
    assert!(matches!(WalState::open(ps, &[1, 2]), Err(ErrorKind::ShortRead)));
}

#[test]
fn epoch_counter_exhausted() {
    let ps = ps512();
    let mut header = btrs::frame::WalHeader { magic: btrs::frame::WAL_MAGIC, page_size: 512, epoch: u64::MAX }.encode();
    header.truncate(20);
    let (w, rewrite) = WalState::open(ps, &header).unwrap();
    assert!(rewrite.is_none());
    assert_eq!(w.epoch(), u64::MAX);
    assert_eq!(w.next_epoch_header(), Err(ErrorKind::LogicError));
}
