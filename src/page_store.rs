//! The main store's format: a header, then one slot per page.

use vstd::prelude::*;
use vstd::bytes::*;
use crate::errors::ErrorKind;
use crate::le::{read_u32_le, read_u64_le, write_u32_le, write_u64_le, zeros, lemma_le_round_trip};
use crate::units::{PageSize, valid_page_size};
use crate::wal::PageNum;

verus! {

/// Marks a file as a main store.
pub const STORE_MAGIC: u64 = 0xee2e85c62ff153c8;

/// Bytes taken by the store's header; page slots start right after it.
pub const STORE_HEADER_SIZE: u32 = 100;

/// Bytes of the store's header that carry fields; the rest is zero.
pub const STORE_HEADER_FIELDS: usize = 12;

/// The fields of the store's header.
#[derive(Clone, Copy, Debug, PartialEq, Eq, Structural)]
pub struct StoreHeader {
    pub magic: u64,
    pub page_size: u32,
}

/// The bytes of a store header: its fields, then zeros up to its size.
pub open spec fn store_header_bytes(h: StoreHeader) -> Seq<u8> {
    spec_u64_to_le_bytes(h.magic) + spec_u32_to_le_bytes(h.page_size) + Seq::new(
        (STORE_HEADER_SIZE - STORE_HEADER_FIELDS) as nat,
        |_i: int| 0u8,
    )
}

/// The header that the bytes `s` read from the start of a store hold, if
/// they are long enough to hold one.
pub open spec fn parse_store_header(s: Seq<u8>) -> Option<StoreHeader> {
    if s.len() < STORE_HEADER_FIELDS {
        None
    } else {
        Some(
            StoreHeader {
                magic: spec_u64_from_le_bytes(s.subrange(0, 8)),
                page_size: spec_u32_from_le_bytes(s.subrange(8, 12)),
            },
        )
    }
}

/// What opening the store decides from the bytes `stored` read from the
/// start of its file (none if the file is empty): whether a header must be
/// written, or why the file is not a store.
pub open spec fn store_open_decision(stored: Seq<u8>) -> Result<bool, ErrorKind> {
    if stored.len() == 0 {
        Ok(true)
    } else {
        match parse_store_header(stored) {
            None => Err(ErrorKind::ShortRead),
            Some(h) => if h.magic != STORE_MAGIC {
                Err(ErrorKind::BadMagic)
            } else {
                Ok(false)
            },
        }
    }
}

/// Where page `n` starts in a store of pages of `page_size` bytes.
pub open spec fn page_offset_spec(page_size: nat, n: nat) -> nat {
    (STORE_HEADER_SIZE + n * page_size) as nat
}

impl StoreHeader {
    /// The bytes of this header, padded to the header's size.
    pub fn encode(&self) -> (r: Vec<u8>)
        ensures
            r@ == store_header_bytes(*self),
    {
        proof {
            lemma_le_round_trip();
        }
        let mut b = zeros(STORE_HEADER_SIZE as usize);
        write_u64_le(&mut b, 0, self.magic);
        write_u32_le(&mut b, 8, self.page_size);
        assert(b@ =~= store_header_bytes(*self));
        b
    }

    /// Reads a header from the first bytes of a store file.
    pub fn decode(b: &[u8]) -> (r: Option<StoreHeader>)
        ensures
            r == parse_store_header(b@),
    {
        if b.len() < STORE_HEADER_FIELDS {
            None
        } else {
            Some(StoreHeader { magic: read_u64_le(b, 0), page_size: read_u32_le(b, 8) })
        }
    }
}

/// A store header reads back as the header it was written from.
pub proof fn lemma_store_header_round_trip(h: StoreHeader)
    ensures
        parse_store_header(store_header_bytes(h)) == Some(h),
{
    lemma_le_round_trip();
    let s = store_header_bytes(h);
    assert(s.subrange(0, 8) =~= spec_u64_to_le_bytes(h.magic));
    assert(s.subrange(8, 12) =~= spec_u32_to_le_bytes(h.page_size));
}

/// The layout of an open main store: where each page lives.
pub struct StoreLayout {
    page_size: PageSize,
}

impl StoreLayout {
    pub closed spec fn page_size_spec(&self) -> u32 {
        self.page_size.spec_value()
    }

    pub open spec fn wf(&self) -> bool {
        valid_page_size(self.page_size_spec())
    }

    /// Opens the store for pages of `page_size` bytes, given the bytes read
    /// from the start of its file (none if the file is empty). An empty file
    /// gets a header, returned here to be written at offset zero; a file whose
    /// magic is wrong is refused.
    pub fn open(page_size: PageSize, stored: &[u8]) -> (r: Result<(StoreLayout, Option<Vec<u8>>), ErrorKind>)
        ensures
            match (r, store_open_decision(stored@)) {
                (Ok((s, header)), Ok(write)) => {
                    &&& s.wf()
                    &&& s.page_size_spec() == page_size.spec_value()
                    &&& write == header is Some
                    &&& header matches Some(b) ==> b@ == store_header_bytes(
                        StoreHeader { magic: STORE_MAGIC, page_size: page_size.spec_value() },
                    )
                },
                (Err(e), Err(e2)) => e == e2,
                _ => false,
            },
    {
        let ps = page_size.to_u32();
        let header = if stored.len() == 0 {
            Some(StoreHeader { magic: STORE_MAGIC, page_size: ps }.encode())
        } else {
            match StoreHeader::decode(stored) {
                None => return Err(ErrorKind::ShortRead),
                Some(h) => {
                    if h.magic != STORE_MAGIC {
                        return Err(ErrorKind::BadMagic);
                    }
                    None
                },
            }
        };
        Ok((StoreLayout { page_size }, header))
    }

    pub fn page_size(&self) -> (r: PageSize)
        ensures
            r.spec_value() == self.page_size_spec(),
    {
        self.page_size
    }

    /// Where page `n` starts in the store file.
    pub fn page_offset(&self, n: PageNum) -> (r: u64)
        requires
            self.wf(),
        ensures
            r == page_offset_spec(self.page_size_spec() as nat, n as nat),
            r <= 0x20_0000_0000_0000,
    {
        let ps = self.page_size.to_u32() as u64;
        assert(n * ps <= 0xffff_ffff * 0x100000) by (nonlinear_arith)
            requires
                n <= 0xffff_ffff,
                ps <= 0x100000,
        ;
        STORE_HEADER_SIZE as u64 + n as u64 * ps
    }

    /// The length the store file needs to hold page `n`: the end of its
    /// slot.
    pub fn min_len(&self, n: PageNum) -> (r: u64)
        requires
            self.wf(),
        ensures
            r == page_offset_spec(self.page_size_spec() as nat, n as nat) + self.page_size_spec(),
    {
        self.page_offset(n) + self.page_size.to_u32() as u64
    }
}

} // verus!
