//! The log file as bytes: which frame headers a rebuild finds in it, and
//! how the writes of a transaction change them.

use vstd::prelude::*;
use vstd::bytes::*;
use crate::frame::{
    FrameHeader, FRAME_HEADER_SIZE, WAL_HEADER_SIZE, COMMIT_FLAG_OFFSET, parse_frame_header,
    frame_bytes, commit_flag_bytes, write_file, lemma_write_file, lemma_frame_round_trip,
    WalHeader, WAL_MAGIC, WAL_HEADER_FIELDS, wal_header_bytes, lemma_wal_header_round_trip,
};
use crate::frame_map::{
    overwrite, scan, merge, no_commit_from, committed_frames, lemma_committed_frames_visible,
    lemma_uncommitted_frames_ignored, lemma_scan_prefix, lemma_merge_unwritten_tail,
    lemma_scan_bounded, lemma_scan_frames_committed, lemma_new_epoch_empty,
};
use crate::le::{put, lemma_le_round_trip};
use crate::wal::{frame_offset_spec, header_check};
use crate::errors::ErrorKind;

verus! {

/// The number of frames that fit whole in a log file of `len` bytes.
pub open spec fn frame_count(len: nat, page_size: nat) -> nat {
    if len < WAL_HEADER_SIZE {
        0
    } else {
        ((len - WAL_HEADER_SIZE) as nat / (page_size + FRAME_HEADER_SIZE) as nat) as nat
    }
}

/// The headers of the frames that fit whole in the log file `file`, frame
/// zero first: the log that a rebuild walks.
pub open spec fn frames_of(file: Seq<u8>, page_size: nat) -> Seq<FrameHeader> {
    Seq::new(
        frame_count(file.len(), page_size),
        |f: int|
            parse_frame_header(
                file.subrange(
                    frame_offset_spec(page_size, f as nat) as int,
                    frame_offset_spec(page_size, f as nat) + FRAME_HEADER_SIZE,
                ),
            )->Some_0,
    )
}

/// A rebuild over the log file `file` reads the frames of `frames_of(file)`:
/// frame `f` fits whole in the file exactly when it is one of them, and the
/// header bytes at its offset are its entry.
pub proof fn lemma_rebuild_reads_frames_of(file: Seq<u8>, page_size: nat, f: nat)
    ensures
        (frame_offset_spec(page_size, f + 1) <= file.len()) == (f < frames_of(file, page_size).len()),
        f < frames_of(file, page_size).len() ==> parse_frame_header(
            file.subrange(
                frame_offset_spec(page_size, f) as int,
                frame_offset_spec(page_size, f) + FRAME_HEADER_SIZE,
            ),
        ) == Some(frames_of(file, page_size)[f as int]),
{
    let d = page_size + 16;
    let len = file.len();
    assert(frame_offset_spec(page_size, f + 1) == 512 + (f + 1) * d);
    assert(frame_offset_spec(page_size, f) + d == frame_offset_spec(page_size, f + 1)) by (nonlinear_arith)
        requires
            frame_offset_spec(page_size, f + 1) == 512 + (f + 1) * d,
            frame_offset_spec(page_size, f) == 512 + f * d,
    ;
    if len >= 512 {
        let l = (len - 512) as nat;
        assert(((f + 1) * d <= l) == (f < l / d)) by (nonlinear_arith)
            requires
                d > 0,
        ;
    } else {
        assert((f + 1) * d >= 0) by (nonlinear_arith);
    }
}

/// Frames lie `page_size + 16` bytes apart, one after the other.
proof fn lemma_offsets(page_size: nat, g: nat, f: nat)
    ensures
        frame_offset_spec(page_size, f + 1) == frame_offset_spec(page_size, f) + page_size + FRAME_HEADER_SIZE,
        g < f ==> frame_offset_spec(page_size, g + 1) <= frame_offset_spec(page_size, f),
        frame_offset_spec(page_size, f) >= WAL_HEADER_SIZE,
{
    let d = page_size + 16;
    assert(WAL_HEADER_SIZE + (f + 1) * d == WAL_HEADER_SIZE + f * d + d) by (nonlinear_arith);
    assert(g < f ==> (g + 1) * d <= f * d) by (nonlinear_arith);
    assert(f * d >= 0) by (nonlinear_arith);
}

/// A frame starting at or before the end of the file is at most one past
/// the frames that fit in it.
proof fn lemma_offset_within(file: Seq<u8>, page_size: nat, f: nat)
    requires
        frame_offset_spec(page_size, f) <= file.len(),
    ensures
        f <= frames_of(file, page_size).len(),
{
    if f > 0 {
        lemma_rebuild_reads_frames_of(file, page_size, (f - 1) as nat);
    }
}

/// Parsing a frame header reads only its first sixteen bytes.
proof fn lemma_parse_prefix(s: Seq<u8>)
    requires
        s.len() >= FRAME_HEADER_SIZE,
    ensures
        parse_frame_header(s.take(FRAME_HEADER_SIZE as int)) == parse_frame_header(s),
{
    assert(s.take(16).subrange(0, 4) =~= s.subrange(0, 4));
    assert(s.take(16).subrange(4, 8) =~= s.subrange(4, 8));
    assert(s.take(16).subrange(8, 16) =~= s.subrange(8, 16));
}

/// Writing a new frame at frame `f`, at or before the end of the file,
/// puts its header at `f` in the log a rebuild walks and changes no other
/// frame.
pub proof fn lemma_frame_write(file: Seq<u8>, page_size: nat, f: nat, page_num: u32, epoch: u64, page: Seq<u8>)
    requires
        page.len() == page_size,
        frame_offset_spec(page_size, f) <= file.len(),
    ensures
        frames_of(write_file(file, frame_offset_spec(page_size, f), frame_bytes(page_num, epoch, page)), page_size)
            == overwrite(frames_of(file, page_size), f, seq![FrameHeader { page_num, commit_flag: 0, epoch }]),
{
    lemma_le_round_trip();
    let off = frame_offset_spec(page_size, f);
    let d = page_size + 16;
    let fb = frame_bytes(page_num, epoch, page);
    let h = FrameHeader { page_num, commit_flag: 0, epoch };
    assert(fb.len() == d);
    let w = write_file(file, off, fb);
    lemma_write_file(file, off, fb);
    lemma_frame_round_trip(page_num, epoch, page);
    lemma_parse_prefix(fb);
    lemma_offsets(page_size, 0, f);
    let old = frames_of(file, page_size);
    let new = frames_of(w, page_size);
    let expect = overwrite(old, f, seq![h]);
    lemma_offset_within(file, page_size, f);
    lemma_rebuild_reads_frames_of(file, page_size, f);
    lemma_rebuild_reads_frames_of(w, page_size, f);
    let in_place = off + d <= file.len();
    if in_place {
        assert(w =~= put(file, off as int, fb));
        assert(w.len() == file.len());
    } else {
        assert(w =~= file.take(off as int) + fb);
        assert(w.len() == off + d);
    }
    assert(new.len() == expect.len()) by {
        if new.len() > f + 1 {
            lemma_rebuild_reads_frames_of(w, page_size, f + 1);
            lemma_offsets(page_size, f, f + 1);
        }
        if !in_place && old.len() > f {
            lemma_rebuild_reads_frames_of(file, page_size, f);
        }
        if in_place {
            assert(frame_count(w.len(), page_size) == frame_count(file.len(), page_size));
        }
    }
    assert forall|g: int| 0 <= g < new.len() implies #[trigger] new[g] == expect[g] by {
        let og = frame_offset_spec(page_size, g as nat) as int;
        lemma_rebuild_reads_frames_of(w, page_size, g as nat);
        if g == f {
            assert(w.subrange(og, og + 16) =~= fb.take(16));
        } else if g < f {
            lemma_offsets(page_size, g as nat, f);
            lemma_offsets(page_size, 0, g as nat);
            lemma_rebuild_reads_frames_of(file, page_size, g as nat);
            assert(w.subrange(og, og + 16) =~= file.subrange(og, og + 16));
        } else {
            lemma_offsets(page_size, f, g as nat);
            lemma_offsets(page_size, 0, g as nat);
            lemma_rebuild_reads_frames_of(file, page_size, g as nat);
            assert(w.subrange(og, og + 16) =~= file.subrange(og, og + 16));
        }
    }
    assert(new =~= expect);
}

/// Storing the commit flag over frame `f`, a frame that fits in the file,
/// makes it a commit frame in the log a rebuild walks and changes nothing
/// else.
pub proof fn lemma_commit_flag_write(file: Seq<u8>, page_size: nat, f: nat)
    requires
        f < frames_of(file, page_size).len(),
    ensures
        frames_of(write_file(file, (frame_offset_spec(page_size, f) + COMMIT_FLAG_OFFSET) as nat, commit_flag_bytes()), page_size)
            == frames_of(file, page_size).update(
            f as int,
            FrameHeader { commit_flag: 1, ..frames_of(file, page_size)[f as int] },
        ),
{
    lemma_le_round_trip();
    let off = frame_offset_spec(page_size, f) as int;
    let cf = commit_flag_bytes();
    let at = (off + 4) as nat;
    let w = write_file(file, at, cf);
    lemma_rebuild_reads_frames_of(file, page_size, f);
    lemma_offsets(page_size, 0, f);
    lemma_write_file(file, at, cf);
    assert(w == put(file, at as int, cf));
    let old = frames_of(file, page_size);
    let new = frames_of(w, page_size);
    let expect = old.update(f as int, FrameHeader { commit_flag: 1, ..old[f as int] });
    assert(new.len() == expect.len());
    assert forall|g: int| 0 <= g < new.len() implies #[trigger] new[g] == expect[g] by {
        let og = frame_offset_spec(page_size, g as nat) as int;
        lemma_rebuild_reads_frames_of(w, page_size, g as nat);
        lemma_rebuild_reads_frames_of(file, page_size, g as nat);
        lemma_offsets(page_size, 0, g as nat);
        if g == f {
            let x = file.subrange(og, og + 16);
            let y = w.subrange(og, og + 16);
            assert(y.subrange(0, 4) =~= x.subrange(0, 4));
            assert(y.subrange(4, 8) =~= cf);
            assert(y.subrange(8, 16) =~= x.subrange(8, 16));
        } else if g < f {
            lemma_offsets(page_size, g as nat, f);
            assert(w.subrange(og, og + 16) =~= file.subrange(og, og + 16));
        } else {
            lemma_offsets(page_size, f, g as nat);
            assert(w.subrange(og, og + 16) =~= file.subrange(og, og + 16));
        }
    }
    assert(new =~= expect);
}

/// The frames of a transaction that wrote the pages `pages` in `epoch`,
/// before it committed.
pub open spec fn uncommitted_frames(pages: Seq<u32>, epoch: u64) -> Seq<FrameHeader> {
    Seq::new(pages.len(), |i: int| FrameHeader { page_num: pages[i], commit_flag: 0, epoch })
}

/// The log file after a transaction in `epoch` wrote page `pages[i]`, with
/// the bytes `bodies[i]`, as frame `start + i`, one frame after the other.
pub open spec fn write_frames(
    file: Seq<u8>,
    page_size: nat,
    epoch: u64,
    start: nat,
    pages: Seq<u32>,
    bodies: Seq<Seq<u8>>,
) -> Seq<u8>
    decreases pages.len(),
{
    if pages.len() == 0 || bodies.len() != pages.len() {
        file
    } else {
        let k = (pages.len() - 1) as nat;
        write_file(
            write_frames(file, page_size, epoch, start, pages.drop_last(), bodies.drop_last()),
            frame_offset_spec(page_size, start + k),
            frame_bytes(pages[k as int], epoch, bodies[k as int]),
        )
    }
}

/// The log file after that transaction also stored the commit flag over its
/// last frame.
pub open spec fn commit_frames(
    file: Seq<u8>,
    page_size: nat,
    epoch: u64,
    start: nat,
    pages: Seq<u32>,
    bodies: Seq<Seq<u8>>,
) -> Seq<u8> {
    write_file(
        write_frames(file, page_size, epoch, start, pages, bodies),
        (frame_offset_spec(page_size, (start + pages.len() - 1) as nat) + COMMIT_FLAG_OFFSET) as nat,
        commit_flag_bytes(),
    )
}

/// Two overwrites one after the other are one overwrite with both.
proof fn lemma_overwrite_append(log: Seq<FrameHeader>, at: nat, a: Seq<FrameHeader>, b: Seq<FrameHeader>)
    requires
        at <= log.len(),
    ensures
        overwrite(overwrite(log, at, a), at + a.len(), b) == overwrite(log, at, a + b),
{
    let l1 = overwrite(log, at, a);
    let l2 = overwrite(l1, at + a.len(), b);
    let l3 = overwrite(log, at, a + b);
    assert(l2.len() == l3.len());
    assert forall|i: int| 0 <= i < l2.len() implies #[trigger] l2[i] == l3[i] by {
        if i < at + a.len() {
            assert(l2[i] == l1[i]);
        }
    }
    assert(l2 =~= l3);
}

/// Writing a transaction's frames one after the other, from a frame at or
/// before the end of the file, puts their headers in the log a rebuild walks
/// in their place, and leaves the file long enough to reach the next frame.
pub proof fn lemma_write_frames(
    file: Seq<u8>,
    page_size: nat,
    epoch: u64,
    start: nat,
    pages: Seq<u32>,
    bodies: Seq<Seq<u8>>,
)
    requires
        frame_offset_spec(page_size, start) <= file.len(),
        bodies.len() == pages.len(),
        forall|i: int| 0 <= i < bodies.len() ==> (#[trigger] bodies[i]).len() == page_size,
    ensures
        frames_of(write_frames(file, page_size, epoch, start, pages, bodies), page_size) == overwrite(
            frames_of(file, page_size),
            start,
            uncommitted_frames(pages, epoch),
        ),
        write_frames(file, page_size, epoch, start, pages, bodies).len() >= frame_offset_spec(
            page_size,
            start + pages.len(),
        ),
    decreases pages.len(),
{
    let log = frames_of(file, page_size);
    lemma_offset_within(file, page_size, start);
    if pages.len() == 0 {
        assert(overwrite(log, start, uncommitted_frames(pages, epoch)) =~= log);
    } else {
        let k = (pages.len() - 1) as nat;
        let prev = write_frames(file, page_size, epoch, start, pages.drop_last(), bodies.drop_last());
        lemma_write_frames(file, page_size, epoch, start, pages.drop_last(), bodies.drop_last());
        let h = FrameHeader { page_num: pages[k as int], commit_flag: 0, epoch };
        lemma_frame_write(prev, page_size, start + k, pages[k as int], epoch, bodies[k as int]);
        let off = frame_offset_spec(page_size, start + k);
        let fb = frame_bytes(pages[k as int], epoch, bodies[k as int]);
        lemma_le_round_trip();
        assert(bodies[k as int].len() == page_size);
        assert(fb.len() == page_size + 16);
        lemma_write_file(prev, off, fb);
        lemma_offsets(page_size, 0, start + k);
        assert(start + k + 1 == start + pages.len());
        let u = uncommitted_frames(pages.drop_last(), epoch);
        lemma_overwrite_append(log, start, u, seq![h]);
        assert(u + seq![h] =~= uncommitted_frames(pages, epoch));
    }
}

/// A transaction that wrote its frames after the committed ones and
/// stored the commit flag over the last of them is what a rebuild of the log
/// file finds: each page it wrote at the last frame that wrote it, and every
/// frame of it committed.
pub proof fn lemma_commit_visible_in_file(
    file: Seq<u8>,
    page_size: nat,
    epoch: u64,
    committed: Map<u32, u32>,
    num: nat,
    pages: Seq<u32>,
    bodies: Seq<Seq<u8>>,
)
    requires
        frame_offset_spec(page_size, num) <= file.len(),
        no_commit_from(frames_of(file, page_size), epoch, num),
        pages.len() > 0,
        num + pages.len() <= u32::MAX,
        bodies.len() == pages.len(),
        forall|i: int| 0 <= i < bodies.len() ==> (#[trigger] bodies[i]).len() == page_size,
    ensures
        scan(frames_of(commit_frames(file, page_size, epoch, num, pages, bodies), page_size), epoch, committed, num, Seq::empty())
            == (merge(committed, num, pages), num + pages.len()),
        frames_of(commit_frames(file, page_size, epoch, num, pages, bodies), page_size) == overwrite(
            frames_of(file, page_size),
            num,
            committed_frames(pages, epoch),
        ),
{
    let log = frames_of(file, page_size);
    let k = pages.len();
    let written = write_frames(file, page_size, epoch, num, pages, bodies);
    lemma_write_frames(file, page_size, epoch, num, pages, bodies);
    lemma_offset_within(file, page_size, num);
    let last = (num + k - 1) as nat;
    lemma_rebuild_reads_frames_of(written, page_size, last);
    lemma_commit_flag_write(written, page_size, last);
    let l2 = frames_of(written, page_size);
    let l3 = frames_of(commit_frames(file, page_size, epoch, num, pages, bodies), page_size);
    assert(l3 =~= overwrite(log, num, committed_frames(pages, epoch)));
    lemma_committed_frames_visible(log, epoch, committed, num, pages);
}

/// A transaction that wrote its frames after the committed ones and never
/// stored a commit flag (it rolled back, or its process died first) leaves a
/// log file whose rebuild finds what was committed before it.
pub proof fn lemma_uncommitted_ignored_in_file(
    file: Seq<u8>,
    page_size: nat,
    epoch: u64,
    committed: Map<u32, u32>,
    num: nat,
    pages: Seq<u32>,
    bodies: Seq<Seq<u8>>,
)
    requires
        frame_offset_spec(page_size, num) <= file.len(),
        no_commit_from(frames_of(file, page_size), epoch, num),
        num <= u32::MAX,
        bodies.len() == pages.len(),
        forall|i: int| 0 <= i < bodies.len() ==> (#[trigger] bodies[i]).len() == page_size,
    ensures
        scan(frames_of(write_frames(file, page_size, epoch, num, pages, bodies), page_size), epoch, committed, num, Seq::empty())
            == (committed, num),
{
    lemma_write_frames(file, page_size, epoch, num, pages, bodies);
    lemma_offset_within(file, page_size, num);
    lemma_uncommitted_frames_ignored(frames_of(file, page_size), epoch, committed, num, uncommitted_frames(pages, epoch));
}

/// The index of the last entry of `s` that is `n` (`s` holds `n`).
pub open spec fn last_write(s: Seq<u32>, n: u32) -> int
    decreases s.len(),
{
    if s.len() == 0 {
        -1
    } else if s.last() == n {
        s.len() - 1
    } else {
        last_write(s.drop_last(), n)
    }
}

/// Laying a transaction's frames over a map gives each page it wrote the
/// last frame that wrote it.
proof fn lemma_merge_last_write(pages: Map<u32, u32>, base: nat, s: Seq<u32>, n: u32)
    requires
        s.contains(n),
    ensures
        0 <= last_write(s, n) < s.len(),
        s[last_write(s, n)] == n,
        merge(pages, base, s).contains_key(n),
        merge(pages, base, s)[n] == (base + last_write(s, n)) as u32,
    decreases s.len(),
{
    if s.last() != n {
        let i = choose|i: int| 0 <= i < s.len() && s[i] == n;
        assert(s.drop_last()[i] == n);
        lemma_merge_last_write(pages, base, s.drop_last(), n);
    }
}

/// Each frame a transaction writes keeps its page bytes through the frames
/// written after it.
proof fn lemma_write_frames_bodies(
    file: Seq<u8>,
    page_size: nat,
    epoch: u64,
    start: nat,
    pages: Seq<u32>,
    bodies: Seq<Seq<u8>>,
    i: int,
)
    requires
        frame_offset_spec(page_size, start) <= file.len(),
        bodies.len() == pages.len(),
        forall|j: int| 0 <= j < bodies.len() ==> (#[trigger] bodies[j]).len() == page_size,
        0 <= i < pages.len(),
    ensures
        write_frames(file, page_size, epoch, start, pages, bodies).subrange(
            frame_offset_spec(page_size, (start + i) as nat) + FRAME_HEADER_SIZE,
            frame_offset_spec(page_size, (start + i) as nat) + FRAME_HEADER_SIZE + page_size,
        ) == bodies[i],
    decreases pages.len(),
{
    lemma_le_round_trip();
    let k = (pages.len() - 1) as nat;
    let prev = write_frames(file, page_size, epoch, start, pages.drop_last(), bodies.drop_last());
    let off = frame_offset_spec(page_size, start + k);
    let fb = frame_bytes(pages[k as int], epoch, bodies[k as int]);
    assert(bodies[k as int].len() == page_size);
    lemma_write_frames(file, page_size, epoch, start, pages.drop_last(), bodies.drop_last());
    lemma_write_file(prev, off, fb);
    lemma_frame_round_trip(pages[k as int], epoch, bodies[k as int]);
    let w = write_file(prev, off, fb);
    let oi = frame_offset_spec(page_size, (start + i) as nat) as int;
    if i == k {
        assert(w.subrange(oi + 16, oi + 16 + page_size) =~= fb.skip(16));
    } else {
        lemma_write_frames_bodies(file, page_size, epoch, start, pages.drop_last(), bodies.drop_last(), i);
        lemma_offsets(page_size, (start + i) as nat, start + k);
        lemma_offsets(page_size, 0, (start + i) as nat);
        assert(w.subrange(oi + 16, oi + 16 + page_size) =~= prev.subrange(oi + 16, oi + 16 + page_size));
    }
}

/// A page that a committed transaction wrote reads back byte for byte from
/// where a rebuild of the log file finds it: the page bytes of the last
/// frame of the transaction that wrote it.
pub proof fn lemma_committed_page_reads_back(
    file: Seq<u8>,
    page_size: nat,
    epoch: u64,
    committed: Map<u32, u32>,
    num: nat,
    pages: Seq<u32>,
    bodies: Seq<Seq<u8>>,
    n: u32,
)
    requires
        frame_offset_spec(page_size, num) <= file.len(),
        no_commit_from(frames_of(file, page_size), epoch, num),
        num + pages.len() <= u32::MAX,
        bodies.len() == pages.len(),
        forall|i: int| 0 <= i < bodies.len() ==> (#[trigger] bodies[i]).len() == page_size,
        pages.contains(n),
    ensures
        ({
            let after = commit_frames(file, page_size, epoch, num, pages, bodies);
            let found = scan(frames_of(after, page_size), epoch, committed, num, Seq::empty()).0;
            &&& found.contains_key(n)
            &&& found[n] == num + last_write(pages, n)
            &&& after.subrange(
                frame_offset_spec(page_size, found[n] as nat) + FRAME_HEADER_SIZE,
                frame_offset_spec(page_size, found[n] as nat) + FRAME_HEADER_SIZE + page_size,
            ) == bodies[last_write(pages, n)]
        }),
{
    lemma_le_round_trip();
    lemma_commit_visible_in_file(file, page_size, epoch, committed, num, pages, bodies);
    lemma_merge_last_write(committed, num, pages, n);
    let i = last_write(pages, n);
    let k = pages.len();
    let written = write_frames(file, page_size, epoch, num, pages, bodies);
    lemma_write_frames(file, page_size, epoch, num, pages, bodies);
    lemma_write_frames_bodies(file, page_size, epoch, num, pages, bodies, i);
    let last = (num + k - 1) as nat;
    lemma_offsets(page_size, 0, last);
    let at = (frame_offset_spec(page_size, last) + COMMIT_FLAG_OFFSET) as nat;
    let cf = commit_flag_bytes();
    lemma_write_file(written, at, cf);
    let after = write_file(written, at, cf);
    assert(after == put(written, at as int, cf));
    let oi = frame_offset_spec(page_size, (num + i) as nat) as int;
    lemma_offsets(page_size, 0, (num + i) as nat);
    if i < k - 1 {
        lemma_offsets(page_size, (num + i) as nat, last);
    }
    assert(after.subrange(oi + 16, oi + 16 + page_size) =~= written.subrange(oi + 16, oi + 16 + page_size));
}

/// What opening the log and rebuilding its index from scratch finds in a
/// log file: the committed pages and the number of committed frames.
pub open spec fn reopen(file: Seq<u8>, page_size: nat, epoch: u64) -> (Map<u32, u32>, nat) {
    scan(frames_of(file, page_size), epoch, Map::empty(), 0, Seq::empty())
}

/// The frames before `at` are untouched by an overwrite from `at` on.
proof fn lemma_overwrite_prefix(log: Seq<FrameHeader>, at: nat, written: Seq<FrameHeader>)
    requires
        at <= log.len(),
    ensures
        overwrite(log, at, written).take(at as int) == log.take(at as int),
        overwrite(log, at, written).len() >= at,
{
    assert(overwrite(log, at, written).take(at as int) =~= log.take(at as int));
}

/// A transaction's writes leave every byte before its first frame as it was.
proof fn lemma_writes_keep_prefix(
    file: Seq<u8>,
    page_size: nat,
    epoch: u64,
    start: nat,
    pages: Seq<u32>,
    bodies: Seq<Seq<u8>>,
)
    requires
        frame_offset_spec(page_size, start) <= file.len(),
        bodies.len() == pages.len(),
        forall|i: int| 0 <= i < bodies.len() ==> (#[trigger] bodies[i]).len() == page_size,
    ensures
        write_frames(file, page_size, epoch, start, pages, bodies).take(frame_offset_spec(page_size, start) as int)
            == file.take(frame_offset_spec(page_size, start) as int),
        pages.len() > 0 ==> commit_frames(file, page_size, epoch, start, pages, bodies).take(
            frame_offset_spec(page_size, start) as int,
        ) == file.take(frame_offset_spec(page_size, start) as int),
        pages.len() > 0 ==> commit_frames(file, page_size, epoch, start, pages, bodies).len()
            >= frame_offset_spec(page_size, start),
    decreases pages.len(),
{
    let o = frame_offset_spec(page_size, start) as int;
    let w = write_frames(file, page_size, epoch, start, pages, bodies);
    if pages.len() > 0 {
        let k = (pages.len() - 1) as nat;
        let prev = write_frames(file, page_size, epoch, start, pages.drop_last(), bodies.drop_last());
        lemma_writes_keep_prefix(file, page_size, epoch, start, pages.drop_last(), bodies.drop_last());
        lemma_write_frames(file, page_size, epoch, start, pages.drop_last(), bodies.drop_last());
        let at = frame_offset_spec(page_size, start + k);
        if k > 0 {
            lemma_offsets(page_size, start, start + k);
            lemma_offsets(page_size, 0, start);
        }
        let fb = frame_bytes(pages[k as int], epoch, bodies[k as int]);
        lemma_write_file(prev, at, fb);
        assert(w.take(o) =~= prev.take(o));
        lemma_write_frames(file, page_size, epoch, start, pages, bodies);
        let last = (start + pages.len() - 1) as nat;
        if last > start {
            lemma_offsets(page_size, start, last);
            lemma_offsets(page_size, 0, start);
        }
        let cat = (frame_offset_spec(page_size, last) + COMMIT_FLAG_OFFSET) as nat;
        lemma_offsets(page_size, 0, last);
        lemma_write_file(w, cat, commit_flag_bytes());
        assert(commit_frames(file, page_size, epoch, start, pages, bodies).take(o) =~= w.take(o));
    } else {
        assert(w == file);
    }
}

/// Round trip through a close and a reopen: after a transaction wrote pages
/// after the committed ones of a log file and committed, opening the file
/// anew and rebuilding the index finds every page it wrote at the last frame
/// that wrote it, with exactly the bytes that frame was written with; every
/// other page keeps the frame it had.
pub proof fn lemma_reopen_reads_committed_page(
    file: Seq<u8>,
    page_size: nat,
    epoch: u64,
    pages: Seq<u32>,
    bodies: Seq<Seq<u8>>,
    n: u32,
)
    requires
        frame_offset_spec(page_size, reopen(file, page_size, epoch).1) <= file.len(),
        no_commit_from(frames_of(file, page_size), epoch, reopen(file, page_size, epoch).1),
        reopen(file, page_size, epoch).1 + pages.len() <= u32::MAX,
        pages.len() > 0,
        bodies.len() == pages.len(),
        forall|i: int| 0 <= i < bodies.len() ==> (#[trigger] bodies[i]).len() == page_size,
    ensures
        ({
            let before = reopen(file, page_size, epoch);
            let after = commit_frames(file, page_size, epoch, before.1, pages, bodies);
            let found = reopen(after, page_size, epoch);
            &&& found == (merge(before.0, before.1, pages), before.1 + pages.len())
            &&& pages.contains(n) ==> {
                &&& found.0.contains_key(n)
                &&& found.0[n] == before.1 + last_write(pages, n)
                &&& after.subrange(
                    frame_offset_spec(page_size, found.0[n] as nat) + FRAME_HEADER_SIZE,
                    frame_offset_spec(page_size, found.0[n] as nat) + FRAME_HEADER_SIZE + page_size,
                ) == bodies[last_write(pages, n)]
            }
            &&& !pages.contains(n) ==> found.0.contains_key(n) == before.0.contains_key(n)
                && found.0[n] == before.0[n]
            &&& !pages.contains(n) && before.0.contains_key(n) ==> after.subrange(
                frame_offset_spec(page_size, found.0[n] as nat) + FRAME_HEADER_SIZE,
                frame_offset_spec(page_size, found.0[n] as nat) + FRAME_HEADER_SIZE + page_size,
            ) == file.subrange(
                frame_offset_spec(page_size, before.0[n] as nat) + FRAME_HEADER_SIZE,
                frame_offset_spec(page_size, before.0[n] as nat) + FRAME_HEADER_SIZE + page_size,
            )
        }),
{
    let before = reopen(file, page_size, epoch);
    let num = before.1;
    let l1 = frames_of(file, page_size);
    let after = commit_frames(file, page_size, epoch, num, pages, bodies);
    let l2 = frames_of(after, page_size);
    lemma_commit_visible_in_file(file, page_size, epoch, before.0, num, pages, bodies);
    lemma_offset_within(file, page_size, num);
    lemma_overwrite_prefix(l1, num, committed_frames(pages, epoch));
    lemma_scan_bounded(l1, epoch, Map::empty(), 0, Seq::empty());
    lemma_scan_prefix(l1, l2, epoch, Map::empty(), 0, Seq::empty(), num);
    if pages.contains(n) {
        lemma_committed_page_reads_back(file, page_size, epoch, before.0, num, pages, bodies, n);
    } else {
        assert forall|j: int| 0 <= j < pages.len() implies pages[j] != n by {
            if pages[j] == n {
                assert(pages.contains(n));
            }
        }
        lemma_merge_unwritten_tail(before.0, num, pages, 0, n);
        assert(pages.take(0) =~= Seq::<u32>::empty());
        if before.0.contains_key(n) {
            lemma_scan_frames_committed(l1, epoch, Map::empty(), 0, Seq::empty(), n);
            let g = before.0[n] as nat;
            lemma_offsets(page_size, g, num);
            lemma_offsets(page_size, 0, g);
            lemma_writes_keep_prefix(file, page_size, epoch, num, pages, bodies);
            let o = frame_offset_spec(page_size, num) as int;
            let og = frame_offset_spec(page_size, g) as int;
            assert(after.subrange(og + 16, og + 16 + page_size) =~= after.take(o).subrange(og + 16, og + 16 + page_size));
            assert(file.subrange(og + 16, og + 16 + page_size) =~= file.take(o).subrange(og + 16, og + 16 + page_size));
        }
    }
}

/// After a transaction wrote pages after the committed ones of a log file
/// and never committed (rolled back, dropped, or its process died), opening
/// the file anew and rebuilding the index finds exactly what it found before.
pub proof fn lemma_reopen_ignores_uncommitted(
    file: Seq<u8>,
    page_size: nat,
    epoch: u64,
    pages: Seq<u32>,
    bodies: Seq<Seq<u8>>,
)
    requires
        frame_offset_spec(page_size, reopen(file, page_size, epoch).1) <= file.len(),
        no_commit_from(frames_of(file, page_size), epoch, reopen(file, page_size, epoch).1),
        bodies.len() == pages.len(),
        forall|i: int| 0 <= i < bodies.len() ==> (#[trigger] bodies[i]).len() == page_size,
    ensures
        reopen(
            write_frames(file, page_size, epoch, reopen(file, page_size, epoch).1, pages, bodies),
            page_size,
            epoch,
        ) == reopen(file, page_size, epoch),
{
    let before = reopen(file, page_size, epoch);
    let num = before.1;
    let l1 = frames_of(file, page_size);
    let after = write_frames(file, page_size, epoch, num, pages, bodies);
    let l2 = frames_of(after, page_size);
    lemma_write_frames(file, page_size, epoch, num, pages, bodies);
    lemma_offset_within(file, page_size, num);
    lemma_overwrite_prefix(l1, num, uncommitted_frames(pages, epoch));
    lemma_scan_bounded(l1, epoch, Map::empty(), 0, Seq::empty());
    lemma_scan_prefix(l1, l2, epoch, Map::empty(), 0, Seq::empty(), num);
    lemma_uncommitted_ignored_in_file(file, page_size, epoch, before.0, num, pages, bodies);
}

/// A checkpoint's end: once the header of the next epoch is stored over
/// the log file's header, a rebuild checks it as this log's header under the
/// next epoch and, the frames left in the file all being of earlier epochs,
/// finds an empty index.
pub proof fn lemma_next_epoch_empties_log(file: Seq<u8>, page_size: u32, epoch: u64)
    requires
        epoch < u64::MAX,
        file.len() >= WAL_HEADER_SIZE,
        forall|i: int| 0 <= i < frames_of(file, page_size as nat).len() ==> (#[trigger] frames_of(file, page_size as nat)[i]).epoch <= epoch,
    ensures
        ({
            let h = WalHeader { magic: WAL_MAGIC, page_size, epoch: (epoch + 1) as u64 };
            let after = write_file(file, 0, wal_header_bytes(h));
            &&& header_check(page_size, after.take(WAL_HEADER_FIELDS as int)) == Ok::<WalHeader, ErrorKind>(h)
            &&& reopen(after, page_size as nat, (epoch + 1) as u64) == (Map::<u32, u32>::empty(), 0nat)
        }),
{
    lemma_le_round_trip();
    let h = WalHeader { magic: WAL_MAGIC, page_size, epoch: (epoch + 1) as u64 };
    let hb = wal_header_bytes(h);
    let after = write_file(file, 0, hb);
    lemma_write_file(file, 0, hb);
    lemma_wal_header_round_trip(h);
    let t = after.take(20);
    assert(t.subrange(0, 8) =~= hb.subrange(0, 8));
    assert(t.subrange(8, 12) =~= hb.subrange(8, 12));
    assert(t.subrange(12, 20) =~= hb.subrange(12, 20));
    let l1 = frames_of(file, page_size as nat);
    let l2 = frames_of(after, page_size as nat);
    assert(l2.len() == l1.len());
    assert forall|g: int| 0 <= g < l2.len() implies #[trigger] l2[g] == l1[g] by {
        let og = frame_offset_spec(page_size as nat, g as nat) as int;
        lemma_offsets(page_size as nat, 0, g as nat);
        lemma_rebuild_reads_frames_of(file, page_size as nat, g as nat);
        lemma_rebuild_reads_frames_of(after, page_size as nat, g as nat);
        assert(after.subrange(og, og + 16) =~= file.subrange(og, og + 16));
    }
    assert(l2 =~= l1);
    lemma_new_epoch_empty(l2, (epoch + 1) as u64);
}

} // verus!
