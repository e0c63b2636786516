use vstd::prelude::*;

verus! {

/// The smallest page size a store may use.
pub const MIN_PAGE_SIZE: u32 = 512;

/// The largest page size a store may use (1 MiB).
pub const MAX_PAGE_SIZE: u32 = 0x100000;

/// `n` is a power of two.
pub open spec fn is_power_of_two(n: nat) -> bool
    decreases n,
{
    if n <= 1 {
        n == 1
    } else {
        n % 2 == 0 && is_power_of_two(n / 2)
    }
}

/// A page size is a power of two between the two bounds.
pub open spec fn valid_page_size(n: u32) -> bool {
    &&& MIN_PAGE_SIZE <= n <= MAX_PAGE_SIZE
    &&& is_power_of_two(n as nat)
}

fn power_of_two(n: u32) -> (r: bool)
    ensures
        r == is_power_of_two(n as nat),
{
    let mut m: u32 = n;
    while m > 1 && m % 2 == 0
        invariant
            is_power_of_two(m as nat) == is_power_of_two(n as nat),
        decreases m,
    {
        m = m / 2;
    }
    m == 1
}

/// A validated page size, fixed for the lifetime of a database.
#[derive(Eq, PartialEq, Ord, PartialOrd, Copy, Clone, Hash, Debug, Structural)]
pub struct PageSize(u32);

impl PageSize {
    pub closed spec fn spec_value(self) -> u32 {
        self.0
    }

    #[verifier::type_invariant]
    closed spec fn inv(self) -> bool {
        valid_page_size(self.0)
    }

    pub fn new(page_size: u32) -> (r: PageSize)
        requires
            valid_page_size(page_size),
        ensures
            r.spec_value() == page_size,
    {
        PageSize(page_size)
    }

    /// The page size `page_size` when it is valid.
    pub fn try_new(page_size: u32) -> (r: Option<PageSize>)
        ensures
            r is Some <==> valid_page_size(page_size),
            r matches Some(p) ==> p.spec_value() == page_size,
    {
        if MIN_PAGE_SIZE <= page_size && page_size <= MAX_PAGE_SIZE && power_of_two(page_size) {
            Some(PageSize(page_size))
        } else {
            None
        }
    }

    pub fn to_u32(&self) -> (r: u32)
        ensures
            r == self.spec_value(),
            valid_page_size(r),
    {
        proof {
            use_type_invariant(self);
        }
        self.0
    }
}

} // verus!
