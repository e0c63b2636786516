use vstd::prelude::*;
use crate::units::PageSize;

verus! {

/// The bytes of one page.
pub struct Page(Vec<u8>);

impl View for Page {
    type V = Seq<u8>;

    closed spec fn view(&self) -> Seq<u8> {
        self.0@
    }
}

impl Page {
    /// A zero-filled page of `size` bytes.
    pub fn new(size: PageSize) -> (r: Page)
        ensures
            r@ == Seq::new(size.spec_value() as nat, |_i: int| 0u8),
    {
        let size = size.to_u32() as usize;
        let mut buf: Vec<u8> = Vec::with_capacity(size);
        let mut i: usize = 0;
        while i < size
            invariant
                i <= size,
                buf@ == Seq::new(i as nat, |_i: int| 0u8),
            decreases size - i,
        {
            buf.push(0);
            i = i + 1;
        }
        Page(buf)
    }

    pub fn buf(&self) -> (r: &[u8])
        ensures
            r@ == self@,
    {
        self.0.as_slice()
    }

    pub fn buf_mut(&mut self) -> (r: &mut [u8])
        ensures
            r@ == old(self)@,
            final(self)@ == final(r)@,
    {
        self.0.as_mut_slice()
    }
}

} // verus!
