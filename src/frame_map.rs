//! The in-memory index of the log: which committed frame holds the latest
//! copy of each page, and the frames of the transaction still open.

use vstd::prelude::*;
use std::collections::BTreeMap;
use vstd::std_specs::btree::{spec_keys_iter, increasing_seq, axiom_increasing_seq_meaning};
use vstd::std_specs::iter::IteratorSpec;
use vstd::laws_cmp::obeys_cmp;
use vstd::std_specs::cmp::OrdSpec;
use crate::frame::FrameHeader;

verus! {

broadcast use vstd::std_specs::btree::group_btree_axioms;

/// `pages` with the frames `base, base + 1, ...` that hold the pages listed
/// in `pending` laid over it, later frames winning.
pub open spec fn merge(pages: Map<u32, u32>, base: nat, pending: Seq<u32>) -> Map<u32, u32>
    decreases pending.len(),
{
    if pending.len() == 0 {
        pages
    } else {
        merge(pages, base, pending.drop_last()).insert(
            pending.last(),
            (base + pending.len() - 1) as u32,
        )
    }
}

/// The frame index of the log: `num_frames` committed frames, the latest
/// committed frame of each page in `pages`, and the pages of the frames that
/// follow them and are not committed yet, in frame order.
pub struct FrameMap {
    num_frames: u32,
    pages: BTreeMap<u32, u32>,
    pending: Vec<u32>,
}

impl FrameMap {
    /// The committed frames: page to latest frame.
    pub closed spec fn committed(&self) -> Map<u32, u32> {
        self.pages@
    }

    /// The number of committed frames.
    pub closed spec fn num(&self) -> nat {
        self.num_frames as nat
    }

    /// The pages of the uncommitted frames, frame `num()` first.
    pub closed spec fn pending(&self) -> Seq<u32> {
        self.pending@
    }

    /// Every frame lies in the 32-bit frame space and every mapped frame is
    /// committed.
    pub open spec fn wf(&self) -> bool {
        &&& self.num() + self.pending().len() <= u32::MAX
        &&& forall|p: u32| #[trigger]
            self.committed().contains_key(p) ==> self.committed()[p] < self.num()
    }

    /// The frame a reader finds for each page: the committed frames with the
    /// open transaction's frames laid over them.
    pub open spec fn visible(&self) -> Map<u32, u32> {
        merge(self.committed(), self.num(), self.pending())
    }

    /// An empty index.
    pub fn new() -> (r: FrameMap)
        ensures
            r.wf(),
            r.committed() == Map::<u32, u32>::empty(),
            r.num() == 0,
            r.pending() == Seq::<u32>::empty(),
    {
        FrameMap { num_frames: 0, pages: BTreeMap::new(), pending: Vec::new() }
    }

    pub fn num_frames(&self) -> (r: u32)
        ensures
            r == self.num(),
    {
        self.num_frames
    }

    /// The frame that the next frame written goes to.
    pub fn next_frame(&self) -> (r: u32)
        requires
            self.wf(),
        ensures
            r == self.num() + self.pending().len(),
    {
        self.num_frames + self.pending.len() as u32
    }

    /// Forgets every frame.
    pub fn clear(&mut self)
        ensures
            final(self).wf(),
            final(self).committed() == Map::<u32, u32>::empty(),
            final(self).num() == 0,
            final(self).pending() == Seq::<u32>::empty(),
    {
        self.pages.clear();
        self.num_frames = 0;
        self.pending.clear();
    }

    /// Records that the next frame holds page `page_num`, not committed.
    pub fn push_pending(&mut self, page_num: u32)
        requires
            old(self).wf(),
            old(self).num() + old(self).pending().len() < u32::MAX,
        ensures
            final(self).wf(),
            final(self).committed() == old(self).committed(),
            final(self).num() == old(self).num(),
            final(self).pending() == old(self).pending().push(page_num),
    {
        self.pending.push(page_num);
        assert(self.committed() == old(self).committed());
    }

    /// Forgets the uncommitted frames.
    pub fn discard_pending(&mut self)
        requires
            old(self).wf(),
        ensures
            final(self).wf(),
            final(self).committed() == old(self).committed(),
            final(self).num() == old(self).num(),
            final(self).pending() == Seq::<u32>::empty(),
    {
        self.pending.clear();
        assert(self.committed() == old(self).committed());
    }

    /// Makes the uncommitted frames committed.
    pub fn commit_pending(&mut self)
        requires
            old(self).wf(),
        ensures
            final(self).wf(),
            final(self).committed() == merge(old(self).committed(), old(self).num(), old(self).pending()),
            final(self).num() == old(self).num() + old(self).pending().len(),
            final(self).pending() == Seq::<u32>::empty(),
    {
        let ghost p0 = self.pages@;
        let ghost base = self.num_frames as nat;
        let ghost pend = self.pending@;
        let n = self.pending.len();
        let mut i: usize = 0;
        assert(pend.take(0) =~= Seq::<u32>::empty());
        assert(self.committed() == old(self).committed());
        while i < n
            invariant
                n == pend.len(),
                i <= n,
                base + n <= u32::MAX,
                self.num_frames == base,
                self.pending@ == pend,
                self.pages@ == merge(p0, base, pend.take(i as int)),
                forall|p: u32| #[trigger]
                    self.pages@.contains_key(p) ==> self.pages@[p] < base + i,
            decreases n - i,
        {
            let page_num = self.pending[i];
            self.pages.insert(page_num, self.num_frames + i as u32);
            proof {
                let t = pend.take(i + 1);
                assert(t.drop_last() =~= pend.take(i as int));
                assert(t.last() == page_num);
            }
            i = i + 1;
        }
        assert(pend.take(n as int) =~= pend);
        self.num_frames = self.num_frames + n as u32;
        self.pending.clear();
    }

    /// One step of the rebuild: the next frame, `num() + pending().len()`,
    /// has the header `h`. Returns whether the rebuild goes on: a frame of
    /// another epoch ends it and drops the uncommitted frames; a commit frame
    /// makes every frame up to it committed.
    pub fn scan_frame(&mut self, epoch: u64, h: FrameHeader) -> (more: bool)
        requires
            old(self).wf(),
            old(self).num() + old(self).pending().len() < u32::MAX,
        ensures
            final(self).wf(),
            more == (h.epoch == epoch),
            !more ==> {
                &&& final(self).committed() == old(self).committed()
                &&& final(self).num() == old(self).num()
                &&& final(self).pending() == Seq::<u32>::empty()
            },
            more && h.commit_flag == 0 ==> {
                &&& final(self).committed() == old(self).committed()
                &&& final(self).num() == old(self).num()
                &&& final(self).pending() == old(self).pending().push(h.page_num)
            },
            more && h.commit_flag != 0 ==> {
                &&& final(self).committed() == merge(
                    old(self).committed(),
                    old(self).num(),
                    old(self).pending().push(h.page_num),
                )
                &&& final(self).num() == old(self).num() + old(self).pending().len() + 1
                &&& final(self).pending() == Seq::<u32>::empty()
            },
    {
        if h.epoch != epoch {
            self.discard_pending();
            return false;
        }
        self.push_pending(h.page_num);
        if h.commit_flag != 0 {
            self.commit_pending();
        }
        true
    }

    /// The frame that holds the latest committed copy of page `page_num`.
    pub fn committed_frame(&self, page_num: u32) -> (r: Option<u32>)
        ensures
            r == (if self.committed().contains_key(page_num) {
                Some(self.committed()[page_num])
            } else {
                None
            }),
    {
        match self.pages.get(&page_num) {
            Some(f) => Some(*f),
            None => None,
        }
    }

    /// The pages that have a committed frame, in increasing order.
    pub fn page_nums(&self) -> (r: Vec<u32>)
        ensures
            r@.to_set() == self.committed().dom(),
            forall|i: int, j: int| 0 <= i < j < r@.len() ==> r@[i] < r@[j],
    {
        let ghost keys = spec_keys_iter(&self.pages).remaining();
        let mut v: Vec<u32> = Vec::new();
        for k in it: self.pages.keys()
            invariant
                it.seq() == keys,
                v@ == keys.take(it.index() as int).map_values(|x: &u32| *x),
        {
            v.push(*k);
        }
        proof {
            assert(keys.take(keys.len() as int) == keys);
            assert(keys.unref() =~= v@);
            assert(obeys_cmp::<&u32>());
            assert(increasing_seq(keys));
            axiom_increasing_seq_meaning(keys);
            assert(forall|i: int, j: int| 0 <= i < j < keys.len() ==> <&u32 as OrdSpec>::cmp_spec(&#[trigger] keys[i], &#[trigger] keys[j]) is Less);
            assert forall|i: int, j: int| 0 <= i < j < v@.len() implies v@[i] < v@[j] by {
                assert(<&u32 as OrdSpec>::cmp_spec(&keys[i], &keys[j]) is Less);
                assert(v@[i] == *keys[i] && v@[j] == *keys[j]);
            }
        }
        v
    }

    /// The frame that holds the latest copy of page `page_num` that a
    /// reader sees, if any.
    pub fn lookup(&self, page_num: u32) -> (r: Option<u32>)
        requires
            self.wf(),
        ensures
            r == (if self.visible().contains_key(page_num) {
                Some(self.visible()[page_num])
            } else {
                None
            }),
    {
        let mut i: usize = self.pending.len();
        while i > 0
            invariant
                self.wf(),
                i <= self.pending@.len(),
                forall|j: int| i <= j < self.pending@.len() ==> self.pending@[j] != page_num,
            decreases i,
        {
            if self.pending[i - 1] == page_num {
                proof {
                    lemma_merge_unwritten_tail(self.committed(), self.num(), self.pending(), i as nat, page_num);
                    lemma_merge_last(self.committed(), self.num(), self.pending().take(i as int), page_num);
                }
                return Some(self.num_frames + (i - 1) as u32);
            }
            i = i - 1;
        }
        proof {
            lemma_merge_unwritten_tail(self.committed(), self.num(), self.pending(), 0, page_num);
            assert(self.pending().take(0) =~= Seq::<u32>::empty());
        }
        match self.pages.get(&page_num) {
            Some(f) => Some(*f),
            None => None,
        }
    }
}

/// Frames whose page is not `p` leave `p`'s entry as the frames before them
/// set it.
pub proof fn lemma_merge_unwritten_tail(pages: Map<u32, u32>, base: nat, s: Seq<u32>, i: nat, p: u32)
    requires
        i <= s.len(),
        forall|j: int| i <= j < s.len() ==> s[j] != p,
    ensures
        merge(pages, base, s).contains_key(p) == merge(pages, base, s.take(i as int)).contains_key(p),
        merge(pages, base, s)[p] == merge(pages, base, s.take(i as int))[p],
    decreases s.len(),
{
    if s.len() == i {
        assert(s.take(i as int) =~= s);
    } else {
        assert(s.drop_last().take(i as int) =~= s.take(i as int));
        lemma_merge_unwritten_tail(pages, base, s.drop_last(), i, p);
    }
}

/// The last frame of a transaction to write a page is the one that holds it.
pub proof fn lemma_merge_last(pages: Map<u32, u32>, base: nat, s: Seq<u32>, p: u32)
    requires
        s.len() > 0,
        s.last() == p,
    ensures
        merge(pages, base, s).contains_key(p),
        merge(pages, base, s)[p] == (base + s.len() - 1) as u32,
{
}


/// What rebuilding the index from frame `num + pending.len()` on finds, for
/// the frame headers `log` of the frames that fit in the log file: frames
/// of `epoch` are taken in order until one of another epoch or the end of
/// the file; each commit frame makes the frames up to it committed, and the
/// frames after the last commit frame are dropped.
pub open spec fn scan(
    log: Seq<FrameHeader>,
    epoch: u64,
    pages: Map<u32, u32>,
    num: nat,
    pending: Seq<u32>,
) -> (Map<u32, u32>, nat)
    decreases log.len() - (num + pending.len()),
{
    let f = (num + pending.len()) as int;
    if f >= log.len() || f >= u32::MAX || log[f].epoch != epoch {
        (pages, num)
    } else if log[f].commit_flag != 0 {
        scan(log, epoch, merge(pages, num, pending.push(log[f].page_num)), (f + 1) as nat, Seq::empty())
    } else {
        scan(log, epoch, pages, num, pending.push(log[f].page_num))
    }
}

/// The frames `num, num + 1, ...` of `log` hold the pages `pending`, in
/// `epoch`, without a commit flag.
pub open spec fn pending_matches(log: Seq<FrameHeader>, epoch: u64, num: nat, pending: Seq<u32>) -> bool {
    &&& num + pending.len() <= log.len()
    &&& num + pending.len() <= u32::MAX
    &&& forall|i: int|
        0 <= i < pending.len() ==> {
            &&& #[trigger] pending[i] == log[num + i].page_num
            &&& log[num + i].epoch == epoch
            &&& log[num + i].commit_flag == 0
        }
}

/// No frame of `epoch` from frame `m` on is a commit frame.
pub open spec fn no_commit_from(log: Seq<FrameHeader>, epoch: u64, m: nat) -> bool {
    forall|i: int| m <= i < log.len() && (#[trigger] log[i]).epoch == epoch ==> log[i].commit_flag == 0
}

/// `log` with the frames from `at` on replaced by `written`.
pub open spec fn overwrite(log: Seq<FrameHeader>, at: nat, written: Seq<FrameHeader>) -> Seq<FrameHeader> {
    if at + written.len() <= log.len() {
        log.take(at as int) + written + log.skip((at + written.len()) as int)
    } else {
        log.take(at as int) + written
    }
}

/// The frames of a transaction that wrote the pages `pages` in `epoch`, once
/// it committed: the last one carries the commit flag.
pub open spec fn committed_frames(pages: Seq<u32>, epoch: u64) -> Seq<FrameHeader> {
    Seq::new(
        pages.len(),
        |i: int|
            FrameHeader {
                page_num: pages[i],
                commit_flag: if i == pages.len() - 1 {
                    1
                } else {
                    0
                },
                epoch,
            },
    )
}

/// Uncommitted frames that the rebuild has already gathered are gathered
/// again when it restarts from the last committed frame.
proof fn lemma_walk(log: Seq<FrameHeader>, epoch: u64, pages: Map<u32, u32>, num: nat, pending: Seq<u32>, j: nat)
    requires
        pending_matches(log, epoch, num, pending),
        j <= pending.len(),
    ensures
        scan(log, epoch, pages, num, pending.take(j as int)) == scan(log, epoch, pages, num, pending),
    decreases pending.len() - j,
{
    if j < pending.len() {
        let f = num + j;
        assert(pending[j as int] == log[f as int].page_num);
        assert(pending.take(j as int).push(log[f as int].page_num) =~= pending.take((j + 1) as int));
        lemma_walk(log, epoch, pages, num, pending, j + 1);
    } else {
        assert(pending.take(j as int) =~= pending);
    }
}

/// With no commit frame ahead, the rebuild keeps the map it starts from.
proof fn lemma_scan_no_commit(log: Seq<FrameHeader>, epoch: u64, pages: Map<u32, u32>, num: nat, pending: Seq<u32>)
    requires
        pending_matches(log, epoch, num, pending),
        no_commit_from(log, epoch, num),
    ensures
        scan(log, epoch, pages, num, pending) == (pages, num),
    decreases log.len() - (num + pending.len()),
{
    let f = num + pending.len();
    if f >= log.len() || f >= u32::MAX || log[f as int].epoch != epoch {
    } else {
        assert(log[f as int].commit_flag == 0);
        let p2 = pending.push(log[f as int].page_num);
        assert(pending_matches(log, epoch, num, p2)) by {
            assert forall|i: int| 0 <= i < p2.len() implies {
                &&& #[trigger] p2[i] == log[num + i].page_num
                &&& log[num + i].epoch == epoch
                &&& log[num + i].commit_flag == 0
            } by {
                if i < pending.len() {
                    assert(p2[i] == pending[i]);
                }
            }
        }
        lemma_scan_no_commit(log, epoch, pages, num, p2);
    }
}

/// A transaction that stored frames after the committed ones and never
/// committed (it rolled back, or its process died before the commit) leaves
/// no trace: rebuilding the index over the log it left gives the map that
/// was there before it.
pub proof fn lemma_uncommitted_frames_ignored(
    log: Seq<FrameHeader>,
    epoch: u64,
    pages: Map<u32, u32>,
    num: nat,
    written: Seq<FrameHeader>,
)
    requires
        num <= log.len(),
        num <= u32::MAX,
        no_commit_from(log, epoch, num),
        forall|i: int| 0 <= i < written.len() ==> (#[trigger] written[i]).commit_flag == 0,
    ensures
        scan(overwrite(log, num, written), epoch, pages, num, Seq::empty()) == (pages, num),
{
    let l2 = overwrite(log, num, written);
    assert(no_commit_from(l2, epoch, num)) by {
        assert forall|i: int| num <= i < l2.len() && (#[trigger] l2[i]).epoch == epoch implies l2[i].commit_flag == 0 by {
            if i < num + written.len() {
                assert(l2[i] == written[i - num]);
            } else {
                assert(l2[i] == log[i]);
            }
        }
    }
    lemma_scan_no_commit(l2, epoch, pages, num, Seq::empty());
}

/// Once the last frame of a transaction carries the commit flag, rebuilding
/// the index finds every page it wrote at the last frame that wrote it, and
/// every frame of it committed.
pub proof fn lemma_committed_frames_visible(
    log: Seq<FrameHeader>,
    epoch: u64,
    pages: Map<u32, u32>,
    num: nat,
    written: Seq<u32>,
)
    requires
        num <= log.len(),
        num + written.len() <= u32::MAX,
        written.len() > 0,
        no_commit_from(log, epoch, num),
    ensures
        scan(overwrite(log, num, committed_frames(written, epoch)), epoch, pages, num, Seq::empty())
            == (merge(pages, num, written), num + written.len()),
{
    let w = committed_frames(written, epoch);
    let l2 = overwrite(log, num, w);
    let k = written.len();
    let head = written.drop_last();
    assert forall|i: int| 0 <= i < k implies #[trigger] l2[num + i] == w[i] by {}
    assert(pending_matches(l2, epoch, num, head)) by {
        assert forall|i: int| 0 <= i < head.len() implies {
            &&& #[trigger] head[i] == l2[num + i].page_num
            &&& l2[num + i].epoch == epoch
            &&& l2[num + i].commit_flag == 0
        } by {
            assert(l2[num + i] == w[i]);
        }
    }
    lemma_walk(l2, epoch, pages, num, head, 0);
    assert(head.take(0) =~= Seq::<u32>::empty());
    let f = num + k - 1;
    assert(l2[f] == w[k - 1]);
    assert(head.push(l2[f].page_num) =~= written);
    assert(no_commit_from(l2, epoch, num + k)) by {
        assert forall|i: int| num + k <= i < l2.len() && (#[trigger] l2[i]).epoch == epoch implies l2[i].commit_flag == 0 by {
            assert(l2[i] == log[i]);
        }
    }
    lemma_scan_no_commit(l2, epoch, merge(pages, num, written), num + k, Seq::empty());
}

/// Rebuilding is idempotent: rebuilding again from what a rebuild found
/// finds nothing new.
pub proof fn lemma_scan_idempotent(log: Seq<FrameHeader>, epoch: u64, pages: Map<u32, u32>, num: nat, pending: Seq<u32>)
    requires
        pending_matches(log, epoch, num, pending),
    ensures
        scan(log, epoch, scan(log, epoch, pages, num, pending).0, scan(log, epoch, pages, num, pending).1, Seq::empty())
            == scan(log, epoch, pages, num, pending),
    decreases log.len() - (num + pending.len()),
{
    let f = num + pending.len();
    if f >= log.len() || f >= u32::MAX || log[f as int].epoch != epoch {
        lemma_walk(log, epoch, pages, num, pending, 0);
        assert(pending.take(0) =~= Seq::<u32>::empty());
    } else if log[f as int].commit_flag != 0 {
        lemma_scan_idempotent(log, epoch, merge(pages, num, pending.push(log[f as int].page_num)), f + 1, Seq::empty());
    } else {
        let p2 = pending.push(log[f as int].page_num);
        assert(pending_matches(log, epoch, num, p2)) by {
            assert forall|i: int| 0 <= i < p2.len() implies {
                &&& #[trigger] p2[i] == log[num + i].page_num
                &&& log[num + i].epoch == epoch
                &&& log[num + i].commit_flag == 0
            } by {
                if i < pending.len() {
                    assert(p2[i] == pending[i]);
                }
            }
        }
        lemma_scan_idempotent(log, epoch, pages, num, p2);
    }
}


/// Laying frames over a map never drops a page from it.
proof fn lemma_merge_keeps(pages: Map<u32, u32>, base: nat, s: Seq<u32>, p: u32)
    requires
        pages.contains_key(p),
    ensures
        merge(pages, base, s).contains_key(p),
    decreases s.len(),
{
    if s.len() > 0 {
        lemma_merge_keeps(pages, base, s.drop_last(), p);
    }
}

/// Within an epoch the rebuild only moves forward and never loses a page:
/// every page of the map it starts from stays in it, and a page that no
/// frame it commits rewrites keeps its frame.
pub proof fn lemma_scan_keeps_pages(
    log: Seq<FrameHeader>,
    epoch: u64,
    pages: Map<u32, u32>,
    num: nat,
    pending: Seq<u32>,
    p: u32,
)
    requires
        pending_matches(log, epoch, num, pending),
    ensures
        scan(log, epoch, pages, num, pending).1 >= num,
        pages.contains_key(p) ==> scan(log, epoch, pages, num, pending).0.contains_key(p),
        (forall|i: int| num <= i < scan(log, epoch, pages, num, pending).1 ==> (#[trigger] log[i]).page_num != p)
            ==> scan(log, epoch, pages, num, pending).0.contains_key(p) == pages.contains_key(p)
            && scan(log, epoch, pages, num, pending).0[p] == pages[p],
    decreases log.len() - (num + pending.len()),
{
    let f = num + pending.len();
    let r = scan(log, epoch, pages, num, pending);
    if f >= log.len() || f >= u32::MAX || log[f as int].epoch != epoch {
    } else if log[f as int].commit_flag != 0 {
        let s2 = pending.push(log[f as int].page_num);
        let m = merge(pages, num, s2);
        lemma_scan_keeps_pages(log, epoch, m, f + 1, Seq::empty(), p);
        if pages.contains_key(p) {
            lemma_merge_keeps(pages, num, s2, p);
        }
        if forall|i: int| num <= i < r.1 ==> (#[trigger] log[i]).page_num != p {
            assert forall|j: int| 0 <= j < s2.len() implies s2[j] != p by {
                if j < pending.len() {
                    assert(log[num + j].page_num != p);
                } else {
                    assert(log[f as int].page_num != p);
                }
            }
            lemma_merge_unwritten_tail(pages, num, s2, 0, p);
            assert(s2.take(0) =~= Seq::<u32>::empty());
        }
    } else {
        let p2 = pending.push(log[f as int].page_num);
        assert(pending_matches(log, epoch, num, p2)) by {
            assert forall|i: int| 0 <= i < p2.len() implies {
                &&& #[trigger] p2[i] == log[num + i].page_num
                &&& log[num + i].epoch == epoch
                &&& log[num + i].commit_flag == 0
            } by {
                if i < pending.len() {
                    assert(p2[i] == pending[i]);
                }
            }
        }
        lemma_scan_keeps_pages(log, epoch, pages, num, p2, p);
    }
}

/// A page that no frame of the log holds is absent from the index rebuilt
/// from scratch.
pub proof fn lemma_unwritten_page_absent(log: Seq<FrameHeader>, epoch: u64, p: u32)
    requires
        forall|i: int| 0 <= i < log.len() ==> (#[trigger] log[i]).page_num != p,
    ensures
        !scan(log, epoch, Map::empty(), 0, Seq::empty()).0.contains_key(p),
{
    lemma_scan_keeps_pages(log, epoch, Map::empty(), 0, Seq::empty(), p);
    lemma_scan_bounded(log, epoch, Map::empty(), 0, Seq::empty());
}

/// The rebuild never goes past the end of the log, nor past the frame space.
pub proof fn lemma_scan_bounded(log: Seq<FrameHeader>, epoch: u64, pages: Map<u32, u32>, num: nat, pending: Seq<u32>)
    requires
        num + pending.len() <= log.len(),
    ensures
        scan(log, epoch, pages, num, pending).1 <= log.len(),
        num <= u32::MAX ==> scan(log, epoch, pages, num, pending).1 <= u32::MAX,
    decreases log.len() - (num + pending.len()),
{
    let f = num + pending.len();
    if f >= log.len() || f >= u32::MAX || log[f as int].epoch != epoch {
    } else if log[f as int].commit_flag != 0 {
        lemma_scan_bounded(log, epoch, merge(pages, num, pending.push(log[f as int].page_num)), f + 1, Seq::empty());
    } else {
        lemma_scan_bounded(log, epoch, pages, num, pending.push(log[f as int].page_num));
    }
}

/// After the epoch moves on, the frames left in the log belong to older
/// epochs, and the index rebuilt under the new epoch is empty.
pub proof fn lemma_new_epoch_empty(log: Seq<FrameHeader>, epoch: u64)
    requires
        forall|i: int| 0 <= i < log.len() ==> (#[trigger] log[i]).epoch != epoch,
    ensures
        scan(log, epoch, Map::empty(), 0, Seq::empty()) == (Map::<u32, u32>::empty(), 0nat),
{
    if log.len() > 0 {
        assert(log[0].epoch != epoch);
    }
}

/// The rebuild either keeps the committed count it starts from or commits
/// past every frame it had gathered.
proof fn lemma_scan_result_range(log: Seq<FrameHeader>, epoch: u64, pages: Map<u32, u32>, num: nat, pending: Seq<u32>)
    ensures
        scan(log, epoch, pages, num, pending).1 == num
            || scan(log, epoch, pages, num, pending).1 > num + pending.len(),
        scan(log, epoch, pages, num, pending).1 == num ==> scan(log, epoch, pages, num, pending).0 == pages,
    decreases log.len() - (num + pending.len()),
{
    let f = num + pending.len();
    if f >= log.len() || f >= u32::MAX || log[f as int].epoch != epoch {
    } else if log[f as int].commit_flag != 0 {
        lemma_scan_result_range(log, epoch, merge(pages, num, pending.push(log[f as int].page_num)), f + 1, Seq::empty());
    } else {
        lemma_scan_result_range(log, epoch, pages, num, pending.push(log[f as int].page_num));
    }
}

/// A rebuild that commits exactly up to frame `m` of one log does the same
/// on any log with the same first `m` frames, and then goes on from there.
pub proof fn lemma_scan_prefix(
    l1: Seq<FrameHeader>,
    l2: Seq<FrameHeader>,
    epoch: u64,
    pages: Map<u32, u32>,
    num: nat,
    pending: Seq<u32>,
    m: nat,
)
    requires
        num + pending.len() <= m,
        m <= l1.len(),
        m <= l2.len(),
        l1.take(m as int) == l2.take(m as int),
        scan(l1, epoch, pages, num, pending).1 == m,
    ensures
        scan(l2, epoch, pages, num, pending) == scan(
            l2,
            epoch,
            scan(l1, epoch, pages, num, pending).0,
            m,
            Seq::empty(),
        ),
    decreases m - (num + pending.len()),
{
    let f = num + pending.len();
    lemma_scan_result_range(l1, epoch, pages, num, pending);
    if f == m {
        if pending.len() > 0 {
            assert(false);
        }
        assert(pending =~= Seq::<u32>::empty());
    } else {
        assert(l1[f as int] == l1.take(m as int)[f as int]);
        assert(l2[f as int] == l2.take(m as int)[f as int]);
        if f >= u32::MAX || l1[f as int].epoch != epoch {
            assert(false);
        } else if l1[f as int].commit_flag != 0 {
            lemma_scan_prefix(l1, l2, epoch, merge(pages, num, pending.push(l1[f as int].page_num)), f + 1, Seq::empty(), m);
        } else {
            lemma_scan_prefix(l1, l2, epoch, pages, num, pending.push(l1[f as int].page_num), m);
        }
    }
}

/// Laying frames `base ..` over a map whose frames lie before `base` gives
/// frames that lie before the end of the laid frames.
proof fn lemma_merge_bound(pages: Map<u32, u32>, base: nat, s: Seq<u32>, n: u32)
    requires
        base + s.len() <= u32::MAX,
        forall|p: u32| #[trigger] pages.contains_key(p) ==> pages[p] < base,
        merge(pages, base, s).contains_key(n),
    ensures
        merge(pages, base, s)[n] < base + s.len(),
    decreases s.len(),
{
    if s.len() > 0 && s.last() != n {
        lemma_merge_bound(pages, base, s.drop_last(), n);
    }
}

/// Every frame the rebuild maps a page to is one it committed.
pub proof fn lemma_scan_frames_committed(
    log: Seq<FrameHeader>,
    epoch: u64,
    pages: Map<u32, u32>,
    num: nat,
    pending: Seq<u32>,
    n: u32,
)
    requires
        num + pending.len() <= u32::MAX,
        forall|p: u32| #[trigger] pages.contains_key(p) ==> pages[p] < num,
        scan(log, epoch, pages, num, pending).0.contains_key(n),
    ensures
        scan(log, epoch, pages, num, pending).0[n] < scan(log, epoch, pages, num, pending).1,
    decreases log.len() - (num + pending.len()),
{
    let f = num + pending.len();
    if f >= log.len() || f >= u32::MAX || log[f as int].epoch != epoch {
    } else if log[f as int].commit_flag != 0 {
        let s2 = pending.push(log[f as int].page_num);
        let m = merge(pages, num, s2);
        assert forall|p: u32| #[trigger] m.contains_key(p) implies m[p] < f + 1 by {
            lemma_merge_bound(pages, num, s2, p);
        }
        lemma_scan_frames_committed(log, epoch, m, f + 1, Seq::empty(), n);
    } else {
        lemma_scan_frames_committed(log, epoch, pages, num, pending.push(log[f as int].page_num), n);
    }
}

} // verus!
