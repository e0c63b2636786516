//! The on-disk layout of the log: its file header and its frames.

use vstd::prelude::*;
use vstd::bytes::*;
use crate::le::{put, read_u32_le, read_u64_le, write_u32_le, write_u64_le, zeros, append_bytes, lemma_le_round_trip};
use crate::page::Page;

verus! {

/// Marks a file as a log.
pub const WAL_MAGIC: u64 = 0x11a8b23d4760cdb4;

/// Bytes taken by the log's file header; frames start right after it.
pub const WAL_HEADER_SIZE: u32 = 512;

/// Bytes of the log's file header that carry fields; the rest is zero.
pub const WAL_HEADER_FIELDS: usize = 20;

/// Bytes of a frame's header; the page follows it.
pub const FRAME_HEADER_SIZE: u32 = 16;

/// Where the commit flag sits inside a frame.
pub const COMMIT_FLAG_OFFSET: u64 = 4;

/// The fields of the log's file header.
#[derive(Clone, Copy, Debug, PartialEq, Eq, Structural)]
pub struct WalHeader {
    pub magic: u64,
    pub page_size: u32,
    pub epoch: u64,
}

/// The fields of a frame's header.
#[derive(Clone, Copy, Debug, PartialEq, Eq, Structural)]
pub struct FrameHeader {
    pub page_num: u32,
    pub commit_flag: u32,
    pub epoch: u64,
}

/// The bytes of a log file header: its fields, then zeros up to its size.
pub open spec fn wal_header_bytes(h: WalHeader) -> Seq<u8> {
    spec_u64_to_le_bytes(h.magic) + spec_u32_to_le_bytes(h.page_size) + spec_u64_to_le_bytes(
        h.epoch,
    ) + Seq::new((WAL_HEADER_SIZE - WAL_HEADER_FIELDS) as nat, |_i: int| 0u8)
}

/// The header that the bytes `s` read from the start of a log hold, if they
/// are long enough to hold one.
pub open spec fn parse_wal_header(s: Seq<u8>) -> Option<WalHeader> {
    if s.len() < WAL_HEADER_FIELDS {
        None
    } else {
        Some(
            WalHeader {
                magic: spec_u64_from_le_bytes(s.subrange(0, 8)),
                page_size: spec_u32_from_le_bytes(s.subrange(8, 12)),
                epoch: spec_u64_from_le_bytes(s.subrange(12, 20)),
            },
        )
    }
}

/// The bytes of a frame header.
pub open spec fn frame_header_bytes(h: FrameHeader) -> Seq<u8> {
    spec_u32_to_le_bytes(h.page_num) + spec_u32_to_le_bytes(h.commit_flag)
        + spec_u64_to_le_bytes(h.epoch)
}

/// The frame header that the bytes `s` hold, if they are long enough.
pub open spec fn parse_frame_header(s: Seq<u8>) -> Option<FrameHeader> {
    if s.len() < FRAME_HEADER_SIZE {
        None
    } else {
        Some(
            FrameHeader {
                page_num: spec_u32_from_le_bytes(s.subrange(0, 4)),
                commit_flag: spec_u32_from_le_bytes(s.subrange(4, 8)),
                epoch: spec_u64_from_le_bytes(s.subrange(8, 16)),
            },
        )
    }
}

/// The bytes of a frame that is not (yet) a commit frame.
pub open spec fn frame_bytes(page_num: u32, epoch: u64, page: Seq<u8>) -> Seq<u8> {
    frame_header_bytes(FrameHeader { page_num, commit_flag: 0, epoch }) + page
}

/// The bytes stored over a frame's commit flag to make it a commit frame.
pub open spec fn commit_flag_bytes() -> Seq<u8> {
    spec_u32_to_le_bytes(1)
}

impl WalHeader {
    /// The bytes of this header, padded to the header's size.
    pub fn encode(&self) -> (r: Vec<u8>)
        ensures
            r@ == wal_header_bytes(*self),
    {
        proof {
            lemma_le_round_trip();
        }
        let mut b = zeros(WAL_HEADER_SIZE as usize);
        write_u64_le(&mut b, 0, self.magic);
        write_u32_le(&mut b, 8, self.page_size);
        write_u64_le(&mut b, 12, self.epoch);
        assert(b@ =~= wal_header_bytes(*self));
        b
    }

    /// Reads a header from the first bytes of a log file.
    pub fn decode(b: &[u8]) -> (r: Option<WalHeader>)
        ensures
            r == parse_wal_header(b@),
    {
        if b.len() < WAL_HEADER_FIELDS {
            None
        } else {
            Some(
                WalHeader {
                    magic: read_u64_le(b, 0),
                    page_size: read_u32_le(b, 8),
                    epoch: read_u64_le(b, 12),
                },
            )
        }
    }
}

impl FrameHeader {
    /// Reads a frame header from the bytes at a frame's start.
    pub fn decode(b: &[u8]) -> (r: Option<FrameHeader>)
        ensures
            r == parse_frame_header(b@),
    {
        if b.len() < FRAME_HEADER_SIZE as usize {
            None
        } else {
            Some(
                FrameHeader {
                    page_num: read_u32_le(b, 0),
                    commit_flag: read_u32_le(b, 4),
                    epoch: read_u64_le(b, 8),
                },
            )
        }
    }
}

/// The bytes of a new frame holding `page` as page `page_num`, written in
/// `epoch`, not yet committed.
pub fn encode_frame(page_num: u32, epoch: u64, page: &Page) -> (r: Vec<u8>)
    ensures
        r@ == frame_bytes(page_num, epoch, page@),
{
    proof {
        lemma_le_round_trip();
    }
    let mut b = zeros(FRAME_HEADER_SIZE as usize);
    write_u32_le(&mut b, 0, page_num);
    write_u32_le(&mut b, 4, 0);
    write_u64_le(&mut b, 8, epoch);
    assert(b@ =~= frame_header_bytes(FrameHeader { page_num, commit_flag: 0, epoch }));
    append_bytes(&mut b, page.buf());
    b
}

/// The bytes that turn a frame into a commit frame.
pub fn encode_commit_flag() -> (r: Vec<u8>)
    ensures
        r@ == commit_flag_bytes(),
{
    proof {
        lemma_le_round_trip();
    }
    let mut b = zeros(4);
    write_u32_le(&mut b, 0, 1);
    assert(b@ =~= commit_flag_bytes());
    b
}

/// A log file header reads back as the header it was written from.
pub proof fn lemma_wal_header_round_trip(h: WalHeader)
    ensures
        parse_wal_header(wal_header_bytes(h)) == Some(h),
{
    lemma_le_round_trip();
    let s = wal_header_bytes(h);
    assert(s.subrange(0, 8) =~= spec_u64_to_le_bytes(h.magic));
    assert(s.subrange(8, 12) =~= spec_u32_to_le_bytes(h.page_size));
    assert(s.subrange(12, 20) =~= spec_u64_to_le_bytes(h.epoch));
}

/// A frame reads back as the header it was written with, followed by its
/// page; storing the commit flag over it makes it a commit frame and leaves
/// the rest as it was.
pub proof fn lemma_frame_round_trip(page_num: u32, epoch: u64, page: Seq<u8>)
    ensures
        parse_frame_header(frame_bytes(page_num, epoch, page)) == Some(
            FrameHeader { page_num, commit_flag: 0, epoch },
        ),
        frame_bytes(page_num, epoch, page).skip(FRAME_HEADER_SIZE as int) == page,
        parse_frame_header(
            put(frame_bytes(page_num, epoch, page), COMMIT_FLAG_OFFSET as int, commit_flag_bytes()),
        ) == Some(FrameHeader { page_num, commit_flag: 1, epoch }),
        put(frame_bytes(page_num, epoch, page), COMMIT_FLAG_OFFSET as int, commit_flag_bytes()).skip(
            FRAME_HEADER_SIZE as int,
        ) == page,
{
    lemma_le_round_trip();
    let s = frame_bytes(page_num, epoch, page);
    assert(s.subrange(0, 4) =~= spec_u32_to_le_bytes(page_num));
    assert(s.subrange(4, 8) =~= spec_u32_to_le_bytes(0));
    assert(s.subrange(8, 16) =~= spec_u64_to_le_bytes(epoch));
    assert(s.skip(16) =~= page);
    let c = put(s, 4, commit_flag_bytes());
    assert(c.subrange(0, 4) =~= spec_u32_to_le_bytes(page_num));
    assert(c.subrange(4, 8) =~= spec_u32_to_le_bytes(1));
    assert(c.subrange(8, 16) =~= spec_u64_to_le_bytes(epoch));
    assert(c.skip(16) =~= page);
}

/// The file `file` after `bytes` are written at offset `at`; a write that
/// starts past the end leaves zeros in the gap.
pub open spec fn write_file(file: Seq<u8>, at: nat, bytes: Seq<u8>) -> Seq<u8> {
    let base = if at <= file.len() {
        file
    } else {
        file + Seq::new((at - file.len()) as nat, |_i: int| 0u8)
    };
    if at + bytes.len() <= base.len() {
        put(base, at as int, bytes)
    } else {
        base.take(at as int) + bytes
    }
}

/// A write puts its bytes where it was asked to and leaves the file at
/// least that long.
pub proof fn lemma_write_file(file: Seq<u8>, at: nat, bytes: Seq<u8>)
    ensures
        write_file(file, at, bytes).len() >= at + bytes.len(),
        write_file(file, at, bytes).subrange(at as int, (at + bytes.len()) as int) == bytes,
        at + bytes.len() <= file.len() ==> write_file(file, at, bytes) == put(file, at as int, bytes),
{
    let w = write_file(file, at, bytes);
    assert(w.subrange(at as int, (at + bytes.len()) as int) =~= bytes);
}

/// A page written as a new frame at offset `at` of a log file, and then
/// committed by storing the commit flag over that frame, reads back from the
/// frame's page offset byte for byte, under a header that marks it a commit
/// frame of that page and epoch.
pub proof fn lemma_committed_page_round_trip(file: Seq<u8>, at: nat, page_num: u32, epoch: u64, page: Seq<u8>)
    ensures
        ({
            let written = write_file(
                write_file(file, at, frame_bytes(page_num, epoch, page)),
                (at + COMMIT_FLAG_OFFSET) as nat,
                commit_flag_bytes(),
            );
            &&& written.subrange(at + FRAME_HEADER_SIZE, at + FRAME_HEADER_SIZE + page.len()) == page
            &&& parse_frame_header(written.subrange(at as int, at + FRAME_HEADER_SIZE)) == Some(
                FrameHeader { page_num, commit_flag: 1, epoch },
            )
        }),
{
    lemma_le_round_trip();
    lemma_frame_round_trip(page_num, epoch, page);
    let fb = frame_bytes(page_num, epoch, page);
    let cf = commit_flag_bytes();
    let f1 = write_file(file, at, fb);
    lemma_write_file(file, at, fb);
    lemma_write_file(f1, (at + 4) as nat, cf);
    let f2 = write_file(f1, (at + 4) as nat, cf);
    assert(f2 == put(f1, (at + 4) as int, cf));
    let framed = put(fb, 4, cf);
    assert(f2.subrange(at as int, (at + fb.len()) as int) =~= framed) by {
        assert forall|i: int| 0 <= i < fb.len() implies #[trigger] f2[at + i] == framed[i] by {
            assert(f1[at + i] == fb[i]);
        }
    }
    assert(f2.subrange(at as int + 16, at as int + 16 + page.len()) =~= framed.skip(16));
    assert(f2.subrange(at as int, at as int + 16) =~= framed.take(16));
    assert(framed.take(16).subrange(0, 4) =~= framed.subrange(0, 4));
    assert(framed.take(16).subrange(4, 8) =~= framed.subrange(4, 8));
    assert(framed.take(16).subrange(8, 16) =~= framed.subrange(8, 16));
}

} // verus!
