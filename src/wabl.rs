//! The log laid over the main store: where a read goes, and what a
//! checkpoint copies.

use vstd::prelude::*;
use crate::frame::{FRAME_HEADER_SIZE, write_file, lemma_write_file};
use crate::page_store::{StoreLayout, page_offset_spec};
use crate::wal::{WalState, PageNum};

verus! {

/// Where to read one page from.
#[derive(Clone, Copy, Debug, PartialEq, Eq, Structural)]
pub enum PageSource {
    /// From the log file, at this offset.
    Wal(u64),
    /// From the store file, at this offset.
    Store(u64),
}

/// One page that a checkpoint copies from the log into the store.
#[derive(Clone, Copy, Debug, PartialEq, Eq, Structural)]
pub struct CopyStep {
    pub page_num: PageNum,
    /// Where the page's latest committed copy starts in the log file.
    pub wal_offset: u64,
    /// Where the page goes in the store file.
    pub store_offset: u64,
}

/// Where page `n` is read from: its latest copy in the log if the log holds
/// one, else its slot in the store.
pub fn locate_page(wal: &WalState, store: &StoreLayout, n: PageNum) -> (r: PageSource)
    requires
        wal.wf(),
        store.wf(),
    ensures
        wal.frame_map().visible().contains_key(n) ==> r == PageSource::Wal(
            (wal.offset_of(wal.frame_map().visible()[n] as nat) + FRAME_HEADER_SIZE) as u64,
        ),
        !wal.frame_map().visible().contains_key(n) ==> r == PageSource::Store(
            page_offset_spec(store.page_size_spec() as nat, n as nat) as u64,
        ),
{
    match wal.read_offset(n) {
        Some(offset) => PageSource::Wal(offset),
        None => PageSource::Store(store.page_offset(n)),
    }
}

/// The copies a checkpoint makes: every page with a committed copy in the
/// log, in increasing order, from its latest committed frame to its slot in
/// the store. After they are made and the store is synced, the log's epoch
/// can move on.
pub fn checkpoint_plan(wal: &WalState, store: &StoreLayout) -> (r: Vec<CopyStep>)
    requires
        wal.wf(),
        store.wf(),
    ensures
        r@.map_values(|c: CopyStep| c.page_num).to_set() == wal.frame_map().committed().dom(),
        forall|i: int, j: int| 0 <= i < j < r@.len() ==> r@[i].page_num < r@[j].page_num,
        forall|i: int|
            #![trigger r@[i]]
            0 <= i < r@.len() ==> {
                &&& r@[i].wal_offset == wal.offset_of(
                    wal.frame_map().committed()[r@[i].page_num] as nat,
                ) + FRAME_HEADER_SIZE
                &&& r@[i].store_offset == page_offset_spec(store.page_size_spec() as nat, r@[i].page_num as nat)
            },
{
    let pages = wal.pages();
    let mut plan: Vec<CopyStep> = Vec::new();
    let mut i: usize = 0;
    while i < pages.len()
        invariant
            wal.wf(),
            store.wf(),
            i <= pages@.len(),
            pages@.to_set() == wal.frame_map().committed().dom(),
            plan@.len() == i,
            forall|k: int| #![trigger plan@[k]] 0 <= k < i ==> plan@[k].page_num == pages@[k],
            forall|k: int|
                #![trigger plan@[k]]
                0 <= k < i ==> {
                    &&& plan@[k].wal_offset == wal.offset_of(
                        wal.frame_map().committed()[plan@[k].page_num] as nat,
                    ) + FRAME_HEADER_SIZE
                    &&& plan@[k].store_offset == page_offset_spec(
                        store.page_size_spec() as nat,
                        plan@[k].page_num as nat,
                    )
                },
        decreases pages@.len() - i,
    {
        let n = pages[i];
        assert(pages@.to_set().contains(n));
        let f = match wal.committed_frame(n) {
            Some(f) => f,
            None => {
                assert(false);
                0
            },
        };
        plan.push(
            CopyStep {
                page_num: n,
                wal_offset: wal.frame_offset(f) + FRAME_HEADER_SIZE as u64,
                store_offset: store.page_offset(n),
            },
        );
        i = i + 1;
    }
    assert(plan@.map_values(|c: CopyStep| c.page_num) =~= pages@);
    plan
}

/// The store file after the copies of `plan` are made from the log file
/// `wal`, in order, pages of `page_size` bytes.
pub open spec fn copy_pages(store: Seq<u8>, wal: Seq<u8>, plan: Seq<CopyStep>, page_size: nat) -> Seq<u8>
    decreases plan.len(),
{
    if plan.len() == 0 {
        store
    } else {
        let c = plan.last();
        write_file(
            copy_pages(store, wal, plan.drop_last(), page_size),
            c.store_offset as nat,
            wal.subrange(c.wal_offset as int, c.wal_offset + page_size),
        )
    }
}

/// A write at or after `x + y` leaves the bytes `x .. x + y` as they were.
proof fn lemma_write_file_keeps(f: Seq<u8>, at: nat, b: Seq<u8>, x: int, y: int)
    requires
        0 <= x,
        0 <= y,
        x + y <= at,
        x + y <= f.len(),
    ensures
        write_file(f, at, b).len() >= x + y,
        write_file(f, at, b).subrange(x, x + y) == f.subrange(x, x + y),
{
    lemma_write_file(f, at, b);
    assert(write_file(f, at, b).subrange(x, x + y) =~= f.subrange(x, x + y));
}

/// After the copies of a checkpoint plan are made (each page once, in
/// increasing order, into its own slot), every page's slot in the store
/// holds exactly the bytes of that page's copy in the log.
pub proof fn lemma_checkpoint_copies(store: Seq<u8>, wal: Seq<u8>, plan: Seq<CopyStep>, page_size: nat, i: int)
    requires
        page_size > 0,
        0 <= i < plan.len(),
        forall|j: int| 0 <= j < plan.len() ==> (#[trigger] plan[j]).wal_offset + page_size <= wal.len(),
        forall|j: int|
            0 <= j < plan.len() ==> (#[trigger] plan[j]).store_offset == page_offset_spec(
                page_size,
                plan[j].page_num as nat,
            ),
        forall|j: int, k: int| 0 <= j < k < plan.len() ==> plan[j].page_num < plan[k].page_num,
    ensures
        copy_pages(store, wal, plan, page_size).len() >= plan[i].store_offset + page_size,
        copy_pages(store, wal, plan, page_size).subrange(
            plan[i].store_offset as int,
            plan[i].store_offset + page_size,
        ) == wal.subrange(plan[i].wal_offset as int, plan[i].wal_offset + page_size),
    decreases plan.len(),
{
    let last = plan.len() - 1;
    let c = plan[last];
    let prev = copy_pages(store, wal, plan.drop_last(), page_size);
    let bytes = wal.subrange(c.wal_offset as int, c.wal_offset + page_size);
    lemma_write_file(prev, c.store_offset as nat, bytes);
    if i < last {
        let pi = plan[i].page_num as nat;
        let pl = c.page_num as nat;
        assert(plan.drop_last()[i] == plan[i]);
        lemma_checkpoint_copies(store, wal, plan.drop_last(), page_size, i);
        assert(pi * page_size + page_size <= pl * page_size) by (nonlinear_arith)
            requires
                pi < pl,
        ;
        lemma_write_file_keeps(prev, c.store_offset as nat, bytes, plan[i].store_offset as int, page_size as int);
    }
}

} // verus!
