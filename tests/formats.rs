use btrs::errors::ErrorKind;
use btrs::frame::{encode_commit_flag, encode_frame, FrameHeader, WalHeader, WAL_MAGIC};
use btrs::page::Page;
use btrs::page_store::{StoreHeader, StoreLayout, STORE_MAGIC};
use btrs::units::PageSize;
use btrs::wabl::{locate_page, PageSource};
use btrs::wal::WalState;
use btrs::wal_index::{index_stamp, INDEX_MAGIC, INDEX_SIZE};

#[test]
fn page_size_bounds() {
    assert_eq!(PageSize::try_new(512).map(|p| p.to_u32()), Some(512));
    assert_eq!(PageSize::try_new(0x100000).map(|p| p.to_u32()), Some(0x100000));
    assert_eq!(PageSize::try_new(4096).map(|p| p.to_u32()), Some(4096));
    assert!(PageSize::try_new(256).is_none());
    assert!(PageSize::try_new(0x200000).is_none());
    assert!(PageSize::try_new(513).is_none());
    assert!(PageSize::try_new(768).is_none());
    assert!(PageSize::try_new(0).is_none());
    assert_eq!(PageSize::new(1024).to_u32(), 1024);
}

#[test]
fn new_page_is_zeroed() {
    let p = Page::new(PageSize::new(512));
    assert_eq!(p.buf().len(), 512);
    assert!(p.buf().iter().all(|b| *b == 0));
    let mut q = Page::new(PageSize::new(1024));
    q.buf_mut()[1023] = 7;
    assert_eq!(q.buf()[1023], 7);
    assert_eq!(q.buf().len(), 1024);
}

#[test]
fn wal_header_round_trip() {
    let h = WalHeader { magic: WAL_MAGIC, page_size: 4096, epoch: 0x0102_0304_0506_0708 };
    let bytes = h.encode();
    assert_eq!(bytes.len(), 512);
    assert_eq!(&bytes[0..8], &[0xb4, 0xcd, 0x60, 0x47, 0x3d, 0xb2, 0xa8, 0x11]);
    assert_eq!(&bytes[8..12], &[0x00, 0x10, 0x00, 0x00]);
    assert_eq!(&bytes[12..20], &[8, 7, 6, 5, 4, 3, 2, 1]);
    assert!(bytes[20..].iter().all(|b| *b == 0));
    assert_eq!(WalHeader::decode(&bytes), Some(h));
    assert_eq!(WalHeader::decode(&bytes[..20]), Some(h));
    assert_eq!(WalHeader::decode(&bytes[..19]), None);
}

#[test]
fn frame_header_decode() {
    let bytes = [1, 2, 0, 0, 1, 0, 0, 0, 9, 0, 0, 0, 0, 0, 0, 0x80];
    assert_eq!(
        FrameHeader::decode(&bytes),
        Some(FrameHeader { page_num: 0x0201, commit_flag: 1, epoch: 0x8000_0000_0000_0009 })
    );
    assert_eq!(FrameHeader::decode(&bytes[..15]), None);
}

#[test]
fn frame_encoding() {
    let ps = PageSize::new(512);
    let mut page = Page::new(ps);
    page.buf_mut()[0] = 0xab;
    page.buf_mut()[511] = 0xcd;
    let bytes = encode_frame(0x0a0b_0c0d, 3, &page);
    assert_eq!(bytes.len(), 528);
    assert_eq!(
        FrameHeader::decode(&bytes),
        Some(FrameHeader { page_num: 0x0a0b_0c0d, commit_flag: 0, epoch: 3 })
    );
    assert_eq!(&bytes[0..4], &[0x0d, 0x0c, 0x0b, 0x0a]);
    assert_eq!(&bytes[16..], page.buf());
    assert_eq!(encode_commit_flag(), vec![1, 0, 0, 0]);
}

#[test]
fn store_header_round_trip() {
    let h = StoreHeader { magic: STORE_MAGIC, page_size: 512 };
    let bytes = h.encode();
    assert_eq!(bytes.len(), 100);
    assert_eq!(&bytes[0..8], &[0xc8, 0x53, 0xf1, 0x2f, 0xc6, 0x85, 0x2e, 0xee]);
    assert_eq!(&bytes[8..12], &[0x00, 0x02, 0x00, 0x00]);
    assert_eq!(StoreHeader::decode(&bytes), Some(h));
    assert_eq!(StoreHeader::decode(&bytes[..11]), None);
}

#[test]
fn store_open_decisions() {
    let ps = PageSize::new(512);
    let (layout, header) = StoreLayout::open(ps, &[]).unwrap();
    let header = header.unwrap();
    assert_eq!(StoreHeader::decode(&header), Some(StoreHeader { magic: STORE_MAGIC, page_size: 512 }));
    assert_eq!(layout.page_size().to_u32(), 512);
    let (_, again) = StoreLayout::open(ps, &header).unwrap();
    assert!(again.is_none());
    let mut bad = header.clone();
    bad[3] ^= 1;
    assert!(matches!(StoreLayout::open(ps, &bad), Err(ErrorKind::BadMagic)));
    assert!(matches!(StoreLayout::open(ps, &header[..5]), Err(ErrorKind::ShortRead)));
}

#[test]
fn store_offsets() {
    let (layout, _) = StoreLayout::open(PageSize::new(1024), &[]).unwrap();
    assert_eq!(layout.page_offset(0), 100);
    assert_eq!(layout.page_offset(3), 100 + 3 * 1024);
    assert_eq!(layout.min_len(4), 100 + 5 * 1024);
    assert_eq!(layout.min_len(0), 100 + 1024);
    assert_eq!(layout.page_offset(u32::MAX), 100 + (u32::MAX as u64) * 1024);
}

#[test]
fn index_stamping() {
    let stamp = index_stamp(&[0u8; 16]).unwrap();
    assert_eq!(stamp, INDEX_MAGIC.to_le_bytes().to_vec());
    assert_eq!(stamp, vec![0xee, 0xfd, 0x8a, 0xb2, 0xa4, 0x6c, 0xab, 0x7d]);
    let mut stamped = vec![0u8; 16];
    stamped[..8].copy_from_slice(&stamp);
    assert_eq!(index_stamp(&stamped), None);
    assert!(index_stamp(&stamped[..7]).is_some());
    assert_eq!(INDEX_SIZE, 32768);
}

#[test]
fn reads_prefer_the_log() {
    let ps = PageSize::new(512);
    let (store, _) = StoreLayout::open(ps, &[]).unwrap();
    let (mut w, _) = WalState::open(ps, &[]).unwrap();
    assert_eq!(locate_page(&w, &store, 2), PageSource::Store(100 + 2 * 512));
    w.write_page(2, &Page::new(ps)).unwrap();
    assert_eq!(locate_page(&w, &store, 2), PageSource::Wal(512 + 16));
    w.write_page(2, &Page::new(ps)).unwrap();
    w.commit();
    assert_eq!(locate_page(&w, &store, 2), PageSource::Wal(512 + 528 + 16));
    assert_eq!(locate_page(&w, &store, 3), PageSource::Store(100 + 3 * 512));
}

#[test]
fn checkpoint_plan_lists_committed_pages_in_order() {
    let ps = PageSize::new(512);
    let (store, _) = StoreLayout::open(ps, &[]).unwrap();
    let (mut w, _) = WalState::open(ps, &[]).unwrap();
    for n in [9u32, 4, 9, 0] {
        w.write_page(n, &Page::new(ps)).unwrap();
    }
    w.commit();
    w.write_page(7, &Page::new(ps)).unwrap();
    let plan = btrs::wabl::checkpoint_plan(&w, &store);
    let pages: Vec<u32> = plan.iter().map(|s| s.page_num).collect();
    assert_eq!(pages, vec![0, 4, 9]);
    assert_eq!(plan[2].wal_offset, 512 + 2 * 528 + 16);
    assert_eq!(plan[2].store_offset, 100 + 9 * 512);
    assert_eq!(plan[0].wal_offset, 512 + 3 * 528 + 16);
    assert_eq!(w.pages(), vec![0, 4, 9]);
    assert_eq!(w.committed_frame(9), Some(2));
    assert_eq!(w.committed_frame(7), None);
}
