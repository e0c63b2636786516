//! The decisions of the write-ahead log: opening it, rebuilding its index
//! from the frames on disk, and the read, write and checkpoint transactions.
//!
//! A `WalState` holds no file. Each operation takes what was read from the
//! log file and says what to write to it and where; the caller does the
//! reading, writing, locking and syncing.

use vstd::prelude::*;
use crate::errors::ErrorKind;
use crate::frame::{
    WalHeader, FrameHeader, WAL_MAGIC, WAL_HEADER_SIZE, WAL_HEADER_FIELDS, FRAME_HEADER_SIZE,
    COMMIT_FLAG_OFFSET,
    wal_header_bytes, parse_wal_header, parse_frame_header, frame_bytes, commit_flag_bytes,
    encode_frame, encode_commit_flag, lemma_wal_header_round_trip,
};
use crate::frame_map::{FrameMap, merge};
use crate::le::lemma_le_round_trip;
use crate::page::Page;
use crate::units::{PageSize, valid_page_size};

verus! {

/// A page number: an index into the logical pages.
pub type PageNum = u32;

/// A frame number: the index of a frame slot in the log file.
pub type FrameNum = u32;

/// Where frame `f` starts in a log of pages of `page_size` bytes.
pub open spec fn frame_offset_spec(page_size: nat, f: nat) -> nat {
    (WAL_HEADER_SIZE + f * (page_size + FRAME_HEADER_SIZE)) as nat
}

/// The header of a log freshly made for pages of `page_size` bytes.
pub open spec fn fresh_header(page_size: u32) -> WalHeader {
    WalHeader { magic: WAL_MAGIC, page_size, epoch: 0 }
}

/// What opening the log decides from the bytes `stored` read from the start
/// of the file (none if the file is empty): the epoch to adopt, and whether a
/// fresh header must be written; or why the log cannot be opened.
pub open spec fn open_decision(page_size: u32, stored: Seq<u8>) -> Result<(u64, bool), ErrorKind> {
    if stored.len() == 0 {
        Ok((0, true))
    } else {
        match parse_wal_header(stored) {
            None => Err(ErrorKind::ShortRead),
            Some(h) => if h.magic != WAL_MAGIC {
                Ok((0, true))
            } else if h.page_size != page_size {
                Err(ErrorKind::PageSizeMismatch)
            } else {
                Ok((h.epoch, false))
            },
        }
    }
}

/// What a rebuild decides from the log's header bytes: the header, or why
/// it is not a header of this log.
pub open spec fn header_check(page_size: u32, stored: Seq<u8>) -> Result<WalHeader, ErrorKind> {
    match parse_wal_header(stored) {
        None => Err(ErrorKind::ShortRead),
        Some(h) => if h.magic != WAL_MAGIC {
            Err(ErrorKind::BadMagic)
        } else if h.page_size != page_size {
            Err(ErrorKind::PageSizeMismatch)
        } else {
            Ok(h)
        },
    }
}

/// The state of one process's view of the log: its page size, the epoch it
/// has seen, and its frame index.
pub struct WalState {
    page_size: PageSize,
    epoch: u64,
    frames: FrameMap,
}

impl WalState {
    pub closed spec fn page_size_spec(&self) -> u32 {
        self.page_size.spec_value()
    }

    pub closed spec fn epoch_spec(&self) -> u64 {
        self.epoch
    }

    pub closed spec fn frame_map(&self) -> FrameMap {
        self.frames
    }

    pub open spec fn wf(&self) -> bool {
        &&& valid_page_size(self.page_size_spec())
        &&& self.frame_map().wf()
    }

    /// Where frame `f` starts in the log file.
    pub open spec fn offset_of(&self, f: nat) -> nat {
        frame_offset_spec(self.page_size_spec() as nat, f)
    }

    /// The frame the next write goes to.
    pub open spec fn next_frame_spec(&self) -> nat {
        self.frame_map().num() + self.frame_map().pending().len()
    }

    pub fn page_size(&self) -> (r: PageSize)
        ensures
            r.spec_value() == self.page_size_spec(),
    {
        self.page_size
    }

    pub fn epoch(&self) -> (r: u64)
        ensures
            r == self.epoch_spec(),
    {
        self.epoch
    }

    pub fn num_frames(&self) -> (r: u32)
        ensures
            r == self.frame_map().num(),
    {
        self.frames.num_frames()
    }

    /// Where frame `f` starts in the log file.
    pub fn frame_offset(&self, f: FrameNum) -> (r: u64)
        requires
            self.wf(),
        ensures
            r == self.offset_of(f as nat),
            r <= 0x20_0000_0000_0000,
    {
        let ps = self.page_size.to_u32() as u64;
        assert(f * (ps + 16) <= 0xffff_ffff * (0x100000 + 16)) by (nonlinear_arith)
            requires
                f <= 0xffff_ffff,
                ps <= 0x100000,
        ;
        WAL_HEADER_SIZE as u64 + f as u64 * (ps + FRAME_HEADER_SIZE as u64)
    }

    /// Opens the log for pages of `page_size` bytes, given the bytes read
    /// from the start of its file (none if the file is empty). An empty file
    /// or one whose magic is wrong gets a fresh header, returned here to be
    /// written at offset zero; a header with the right magic is adopted if it
    /// names the same page size.
    pub fn open(page_size: PageSize, stored: &[u8]) -> (r: Result<(WalState, Option<Vec<u8>>), ErrorKind>)
        ensures
            match (r, open_decision(page_size.spec_value(), stored@)) {
                (Ok((w, header)), Ok((epoch, rewrite))) => {
                    &&& w.wf()
                    &&& w.page_size_spec() == page_size.spec_value()
                    &&& w.epoch_spec() == epoch
                    &&& w.frame_map().committed() == Map::<u32, u32>::empty()
                    &&& w.frame_map().num() == 0
                    &&& w.frame_map().pending() == Seq::<u32>::empty()
                    &&& rewrite == header is Some
                    &&& header matches Some(b) ==> b@ == wal_header_bytes(fresh_header(page_size.spec_value()))
                },
                (Err(e), Err(e2)) => e == e2,
                _ => false,
            },
    {
        let ps = page_size.to_u32();
        let fresh = WalHeader { magic: WAL_MAGIC, page_size: ps, epoch: 0 };
        let (epoch, header) = if stored.len() == 0 {
            (0u64, Some(fresh.encode()))
        } else {
            match WalHeader::decode(stored) {
                None => return Err(ErrorKind::ShortRead),
                Some(h) => {
                    if h.magic != WAL_MAGIC {
                        (0u64, Some(fresh.encode()))
                    } else if h.page_size != ps {
                        return Err(ErrorKind::PageSizeMismatch);
                    } else {
                        (h.epoch, None)
                    }
                },
            }
        };
        Ok((WalState { page_size, epoch, frames: FrameMap::new() }, header))
    }

    /// Starts rebuilding the index, given the log's header bytes: a header
    /// of another epoch than the one seen last empties the index and is
    /// adopted. Uncommitted frames are dropped either way.
    pub fn begin_scan(&mut self, stored: &[u8]) -> (r: Result<(), ErrorKind>)
        requires
            old(self).wf(),
        ensures
            final(self).wf(),
            final(self).page_size_spec() == old(self).page_size_spec(),
            match (r, header_check(old(self).page_size_spec(), stored@)) {
                (Ok(()), Ok(h)) => {
                    &&& final(self).epoch_spec() == h.epoch
                    &&& final(self).frame_map().pending() == Seq::<u32>::empty()
                    &&& h.epoch == old(self).epoch_spec() ==> {
                        &&& final(self).frame_map().committed() == old(self).frame_map().committed()
                        &&& final(self).frame_map().num() == old(self).frame_map().num()
                    }
                    &&& h.epoch != old(self).epoch_spec() ==> {
                        &&& final(self).frame_map().committed() == Map::<u32, u32>::empty()
                        &&& final(self).frame_map().num() == 0
                    }
                },
                (Err(e), Err(e2)) => e == e2 && *final(self) == *old(self),
                _ => false,
            },
    {
        let ps = self.page_size.to_u32();
        match WalHeader::decode(stored) {
            None => Err(ErrorKind::ShortRead),
            Some(h) => {
                if h.magic != WAL_MAGIC {
                    Err(ErrorKind::BadMagic)
                } else if h.page_size != ps {
                    Err(ErrorKind::PageSizeMismatch)
                } else {
                    if h.epoch != self.epoch {
                        self.frames.clear();
                        self.epoch = h.epoch;
                    } else {
                        self.frames.discard_pending();
                    }
                    Ok(())
                }
            },
        }
    }

    /// The offset of the next frame header that the rebuild reads, in a log
    /// file of `file_len` bytes; none when that frame does not fit in the
    /// file (or the frame space is used up), which ends the rebuild.
    pub fn next_scan_offset(&self, file_len: u64) -> (r: Option<u64>)
        requires
            self.wf(),
        ensures
            r == (if self.next_frame_spec() < u32::MAX && self.offset_of(self.next_frame_spec() + 1) <= file_len {
                Some(self.offset_of(self.next_frame_spec()) as u64)
            } else {
                None
            }),
    {
        let f = self.frames.next_frame();
        if f == u32::MAX {
            return None;
        }
        let end = self.frame_offset(f + 1);
        if end <= file_len {
            Some(self.frame_offset(f))
        } else {
            None
        }
    }

    /// Feeds the rebuild the bytes read at the offset that
    /// `next_scan_offset` gave. Returns whether the rebuild goes on; when it
    /// does not, the uncommitted frames are dropped.
    pub fn scan_frame(&mut self, header: &[u8]) -> (more: bool)
        requires
            old(self).wf(),
        ensures
            final(self).wf(),
            final(self).page_size_spec() == old(self).page_size_spec(),
            final(self).epoch_spec() == old(self).epoch_spec(),
            match parse_frame_header(header@) {
                Some(h) if old(self).next_frame_spec() < u32::MAX && h.epoch == old(self).epoch_spec() => {
                    &&& more
                    &&& h.commit_flag == 0 ==> {
                        &&& final(self).frame_map().committed() == old(self).frame_map().committed()
                        &&& final(self).frame_map().num() == old(self).frame_map().num()
                        &&& final(self).frame_map().pending() == old(self).frame_map().pending().push(h.page_num)
                    }
                    &&& h.commit_flag != 0 ==> {
                        &&& final(self).frame_map().committed() == merge(
                            old(self).frame_map().committed(),
                            old(self).frame_map().num(),
                            old(self).frame_map().pending().push(h.page_num),
                        )
                        &&& final(self).frame_map().num() == old(self).next_frame_spec() + 1
                        &&& final(self).frame_map().pending() == Seq::<u32>::empty()
                    }
                },
                _ => {
                    &&& !more
                    &&& final(self).frame_map().committed() == old(self).frame_map().committed()
                    &&& final(self).frame_map().num() == old(self).frame_map().num()
                    &&& final(self).frame_map().pending() == Seq::<u32>::empty()
                },
            },
    {
        let f = self.frames.next_frame();
        match FrameHeader::decode(header) {
            Some(h) => {
                if f == u32::MAX {
                    self.frames.discard_pending();
                    false
                } else {
                    self.frames.scan_frame(self.epoch, h)
                }
            },
            None => {
                self.frames.discard_pending();
                false
            },
        }
    }

    /// Ends a rebuild: frames that no commit frame followed are dropped.
    pub fn end_scan(&mut self)
        requires
            old(self).wf(),
        ensures
            final(self).wf(),
            final(self).page_size_spec() == old(self).page_size_spec(),
            final(self).epoch_spec() == old(self).epoch_spec(),
            final(self).frame_map().committed() == old(self).frame_map().committed(),
            final(self).frame_map().num() == old(self).frame_map().num(),
            final(self).frame_map().pending() == Seq::<u32>::empty(),
    {
        self.frames.discard_pending();
    }

    /// Where the latest copy of page `n` that this view sees starts in the
    /// log file (the frame's page, past its header); none if the log holds no
    /// copy, and the page is to be read from the main store.
    pub fn read_offset(&self, n: PageNum) -> (r: Option<u64>)
        requires
            self.wf(),
        ensures
            r == (if self.frame_map().visible().contains_key(n) {
                Some((self.offset_of(self.frame_map().visible()[n] as nat) + FRAME_HEADER_SIZE) as u64)
            } else {
                None
            }),
    {
        match self.frames.lookup(n) {
            None => None,
            Some(f) => {
                Some(self.frame_offset(f) + FRAME_HEADER_SIZE as u64)
            },
        }
    }

    /// Writes page `n` in the open transaction: returns the offset and the
    /// bytes of the new frame, which goes after every frame of the log that
    /// is committed or written by this transaction. The frame counts as
    /// written from here on; it is committed by `commit`.
    pub fn write_page(&mut self, n: PageNum, page: &Page) -> (r: Result<(u64, Vec<u8>), ErrorKind>)
        requires
            old(self).wf(),
            page@.len() == old(self).page_size_spec(),
        ensures
            final(self).wf(),
            final(self).page_size_spec() == old(self).page_size_spec(),
            final(self).epoch_spec() == old(self).epoch_spec(),
            final(self).frame_map().committed() == old(self).frame_map().committed(),
            final(self).frame_map().num() == old(self).frame_map().num(),
            old(self).next_frame_spec() < u32::MAX ==> {
                &&& r matches Ok((offset, bytes)) && {
                    &&& offset == old(self).offset_of(old(self).next_frame_spec())
                    &&& bytes@ == frame_bytes(n, old(self).epoch_spec(), page@)
                }
                &&& final(self).frame_map().pending() == old(self).frame_map().pending().push(n)
            },
            old(self).next_frame_spec() >= u32::MAX ==> {
                &&& r == Err::<(u64, Vec<u8>), ErrorKind>(ErrorKind::LogicError)
                &&& final(self).frame_map().pending() == old(self).frame_map().pending()
            },
    {
        let f = self.frames.next_frame();
        if f == u32::MAX {
            return Err(ErrorKind::LogicError);
        }
        let offset = self.frame_offset(f);
        let bytes = encode_frame(n, self.epoch, page);
        self.frames.push_pending(n);
        Ok((offset, bytes))
    }

    /// What committing the open transaction writes: the commit flag of its
    /// last frame, as an offset and bytes; none if it wrote nothing, and
    /// committing it is a no-op.
    pub fn commit_write(&self) -> (r: Option<(u64, Vec<u8>)>)
        requires
            self.wf(),
        ensures
            self.frame_map().pending().len() == 0 ==> r is None,
            self.frame_map().pending().len() > 0 ==> (r matches Some((offset, bytes)) && {
                &&& offset == self.offset_of((self.next_frame_spec() - 1) as nat) + COMMIT_FLAG_OFFSET
                &&& bytes@ == commit_flag_bytes()
            }),
    {
        let f = self.frames.next_frame();
        if f == self.frames.num_frames() {
            return None;
        }
        Some((self.frame_offset(f - 1) + COMMIT_FLAG_OFFSET, encode_commit_flag()))
    }

    /// Marks the open transaction committed, once its commit flag is written:
    /// its frames join the committed ones, later frames winning.
    pub fn commit(&mut self)
        requires
            old(self).wf(),
        ensures
            final(self).wf(),
            final(self).page_size_spec() == old(self).page_size_spec(),
            final(self).epoch_spec() == old(self).epoch_spec(),
            final(self).frame_map().committed() == merge(
                old(self).frame_map().committed(),
                old(self).frame_map().num(),
                old(self).frame_map().pending(),
            ),
            final(self).frame_map().num() == old(self).next_frame_spec(),
            final(self).frame_map().pending() == Seq::<u32>::empty(),
    {
        self.frames.commit_pending();
    }

    /// Drops the open transaction's frames: reads see the committed pages
    /// again, and the next write reuses the first of its frame slots.
    pub fn rollback(&mut self)
        requires
            old(self).wf(),
        ensures
            final(self).wf(),
            final(self).page_size_spec() == old(self).page_size_spec(),
            final(self).epoch_spec() == old(self).epoch_spec(),
            final(self).frame_map().committed() == old(self).frame_map().committed(),
            final(self).frame_map().num() == old(self).frame_map().num(),
            final(self).frame_map().pending() == Seq::<u32>::empty(),
    {
        self.frames.discard_pending();
    }

    /// The pages that the log holds committed copies of, in increasing order.
    pub fn pages(&self) -> (r: Vec<PageNum>)
        requires
            self.wf(),
        ensures
            r@.to_set() == self.frame_map().committed().dom(),
            forall|i: int, j: int| 0 <= i < j < r@.len() ==> r@[i] < r@[j],
    {
        self.frames.page_nums()
    }

    /// The header that ends a checkpoint: the same log with the next epoch,
    /// which leaves every frame now in the log behind.
    pub fn next_epoch_header(&self) -> (r: Result<Vec<u8>, ErrorKind>)
        ensures
            self.epoch_spec() < u64::MAX ==> (r matches Ok(b) && b@ == wal_header_bytes(
                WalHeader { magic: WAL_MAGIC, page_size: self.page_size_spec(), epoch: (self.epoch_spec() + 1) as u64 },
            )),
            self.epoch_spec() == u64::MAX ==> r == Err::<Vec<u8>, ErrorKind>(ErrorKind::LogicError),
    {
        if self.epoch == u64::MAX {
            return Err(ErrorKind::LogicError);
        }
        let h = WalHeader { magic: WAL_MAGIC, page_size: self.page_size.to_u32(), epoch: self.epoch + 1 };
        Ok(h.encode())
    }

    /// The frame of page `n`'s latest committed copy, if the log holds one.
    pub fn committed_frame(&self, n: PageNum) -> (r: Option<FrameNum>)
        ensures
            r == (if self.frame_map().committed().contains_key(n) {
                Some(self.frame_map().committed()[n])
            } else {
                None
            }),
    {
        self.frames.committed_frame(n)
    }
}

/// The header a checkpoint ends with passes a rebuild's check as a header
/// of the same log under the next epoch, so the rebuild that reads it starts
/// from an empty index.
pub proof fn lemma_next_epoch_header_checks(page_size: u32, epoch: u64)
    requires
        epoch < u64::MAX,
    ensures
        header_check(page_size, wal_header_bytes(WalHeader { magic: WAL_MAGIC, page_size, epoch: (epoch + 1) as u64 }))
            == Ok::<WalHeader, ErrorKind>(WalHeader { magic: WAL_MAGIC, page_size, epoch: (epoch + 1) as u64 }),
{
    lemma_wal_header_round_trip(WalHeader { magic: WAL_MAGIC, page_size, epoch: (epoch + 1) as u64 });
}

/// Opening a log again adopts the header the previous open or checkpoint
/// left in it, read whole or as its first fields: the same epoch, and no
/// header to write.
pub proof fn lemma_reopen_adopts_header(page_size: u32, epoch: u64, n: int)
    requires
        WAL_HEADER_FIELDS <= n <= WAL_HEADER_SIZE,
    ensures
        open_decision(
            page_size,
            wal_header_bytes(WalHeader { magic: WAL_MAGIC, page_size, epoch }).take(n),
        ) == Ok::<(u64, bool), ErrorKind>((epoch, false)),
{
    let h = WalHeader { magic: WAL_MAGIC, page_size, epoch };
    let s = wal_header_bytes(h);
    lemma_le_round_trip();
    lemma_wal_header_round_trip(h);
    assert(s.take(n).subrange(0, 8) =~= s.subrange(0, 8));
    assert(s.take(n).subrange(8, 12) =~= s.subrange(8, 12));
    assert(s.take(n).subrange(12, 20) =~= s.subrange(12, 20));
}

} // verus!
