//! Address primitives: typed addresses, lengths, page descriptors and the
//! error taxonomy shared by the whole stack.

use vstd::prelude::*;

verus! {

/// Every failure surfaced by the memory stack.
#[derive(Clone, Copy, Debug, PartialEq, Eq, Structural)]
pub enum Error {
    /// Generic connector or transport failure.
    Connector,
    /// A plugin descriptor was built against a different ABI version.
    VersionMismatch,
    /// The connector's `create` entry point returned no instance.
    InstantiationFailed,
    /// A page-table entry lacked the present bit.
    PageNotPresent,
    /// A physical read of a page-table entry failed.
    PageTableReadFailed,
    /// Translation succeeded but carried no page descriptor.
    PageInfoNotFound,
    /// A buffer could not be parsed as a PE image.
    InvalidPeImage,
    /// An argument string could not be parsed.
    InvalidArgs,
    /// A required debug symbol could not be resolved.
    SymbolsNotFound,
}

impl Error {
    /// A short human-readable description of the error.
    pub fn as_str(&self) -> (r: &'static str)
        ensures
            r@.len() > 0,
    {
        proof {
            reveal_strlit("connector call failed");
            reveal_strlit("connector version mismatch");
            reveal_strlit("connector instantiation failed");
            reveal_strlit("page not present");
            reveal_strlit("page table read failed");
            reveal_strlit("page info not found");
            reveal_strlit("invalid pe image");
            reveal_strlit("invalid argument string");
            reveal_strlit("symbols not found");
        }
        match self {
            Error::Connector => "connector call failed",
            Error::VersionMismatch => "connector version mismatch",
            Error::InstantiationFailed => "connector instantiation failed",
            Error::PageNotPresent => "page not present",
            Error::PageTableReadFailed => "page table read failed",
            Error::PageInfoNotFound => "page info not found",
            Error::InvalidPeImage => "invalid pe image",
            Error::InvalidArgs => "invalid argument string",
            Error::SymbolsNotFound => "symbols not found",
        }
    }
}

/// An unsigned 64-bit address. Whether it is virtual or physical is
/// determined by context, not by the type.
#[derive(Clone, Copy, Debug, PartialEq, Eq, Structural)]
pub struct Address(pub u64);

/// An unsigned 64-bit byte count.
#[derive(Clone, Copy, Debug, PartialEq, Eq, Structural)]
pub struct Length(pub u64);

impl Address {
    /// The distinguished null address.
    pub fn null() -> (r: Address)
        ensures
            r.0 == 0,
    {
        Address(0)
    }

    /// True exactly on the null address.
    pub fn is_null(&self) -> (r: bool)
        ensures
            r == (self.0 == 0),
    {
        self.0 == 0
    }

    /// The address rounded down to the page boundary of `page_size`.
    pub fn as_page_aligned(&self, page_size: Length) -> (r: Address)
        requires
            page_size.0 > 0,
        ensures
            r.0 == self.0 - self.0 % page_size.0,
            r.0 % page_size.0 == 0,
            r.0 <= self.0,
    {
        proof {
            lemma_align_down(self.0 as int, page_size.0 as int);
        }
        Address(self.0 - self.0 % page_size.0)
    }

    /// This address advanced by `l` bytes.
    pub fn add_len(&self, l: Length) -> (r: Address)
        requires
            self.0 + l.0 <= u64::MAX,
        ensures
            r.0 == self.0 + l.0,
    {
        Address(self.0 + l.0)
    }

    /// The distance from `other` (which must not lie above `self`) to `self`.
    pub fn sub_addr(&self, other: Address) -> (r: Length)
        requires
            other.0 <= self.0,
        ensures
            r.0 == self.0 - other.0,
    {
        Length(self.0 - other.0)
    }
}

impl Length {
    /// A length of `b` bytes.
    pub fn from_b(b: u64) -> (r: Length)
        ensures
            r.0 == b,
    {
        Length(b)
    }

    /// A length of `kb` KiB.
    pub fn from_kb(kb: u64) -> (r: Length)
        requires
            kb * 1024 <= u64::MAX,
        ensures
            r.0 == kb * 1024,
    {
        Length(kb * 1024)
    }

    /// A length of `mb` MiB.
    pub fn from_mb(mb: u64) -> (r: Length)
        requires
            mb * 1048576 <= u64::MAX,
        ensures
            r.0 == mb * 1048576,
    {
        Length(mb * 1048576)
    }

    /// A length of `n` pages of size `page_size`.
    pub fn from_pages(n: u64, page_size: Length) -> (r: Length)
        requires
            n * page_size.0 <= u64::MAX,
        ensures
            r.0 == n * page_size.0,
    {
        Length(n * page_size.0)
    }

    /// The length as a `usize`, for indexing buffers.
    pub fn as_usize(&self) -> (r: usize)
        requires
            self.0 <= usize::MAX,
        ensures
            r == self.0,
    {
        self.0 as usize
    }
}

/// The kind of a mapped page; drives the cache's filtering and the scope of
/// invalidation.
#[derive(Clone, Copy, Debug, PartialEq, Eq, Structural)]
pub enum PageType {
    Unknown,
    Page,
    PageTable,
    Writeable,
    Readable,
    NoExec,
}

/// A descriptor of one mapped region of the target.
#[derive(Clone, Copy, Debug, PartialEq, Eq, Structural)]
pub struct Page {
    pub page_type: PageType,
    pub page_base: Address,
    pub page_size: Length,
}

/// A physical address together with the translator's hint about the page it
/// belongs to. Without the hint the address is treated as uncacheable.
#[derive(Clone, Copy, Debug)]
pub struct PhysicalAddress {
    pub address: Address,
    pub page: Option<Page>,
}

impl PhysicalAddress {
    /// A bare physical address with no page hint.
    pub fn direct(address: Address) -> (r: PhysicalAddress)
        ensures
            r.address == address,
            r.page is None,
    {
        PhysicalAddress { address, page: None }
    }

    /// A physical address tagged with the page it belongs to.
    pub fn with_page(address: Address, page: Page) -> (r: PhysicalAddress)
        ensures
            r.address == address,
            r.page == Some(page),
    {
        PhysicalAddress { address, page: Some(page) }
    }
}

/// `a` rounded down to a multiple of `d`, as a spec value.
pub open spec fn align_down(a: int, d: int) -> int {
    a - a % d
}

/// Rounding down to a positive divisor lands on a multiple, at or below the
/// start, and less than one divisor away from it.
pub proof fn lemma_align_down(a: int, d: int)
    requires
        0 <= a,
        0 < d,
    ensures
        align_down(a, d) % d == 0,
        align_down(a, d) <= a < align_down(a, d) + d,
        align_down(a, d) == (a / d) * d,
        0 <= align_down(a, d),
{
    vstd::arithmetic::div_mod::lemma_fundamental_div_mod(a, d);
    vstd::arithmetic::div_mod::lemma_mod_bound(a, d);
    vstd::arithmetic::mul::lemma_mul_is_commutative(d, a / d);
    assert(align_down(a, d) == (a / d) * d);
    assert((a / d) * d % d == 0) by {
        vstd::arithmetic::div_mod::lemma_mod_multiples_basic(a / d, d);
    }
}

/// Alignment is monotone: rounding down preserves order.
pub proof fn lemma_align_down_monotone(a: int, b: int, d: int)
    requires
        0 <= a <= b,
        0 < d,
    ensures
        align_down(a, d) <= align_down(b, d),
{
    lemma_align_down(a, d);
    lemma_align_down(b, d);
    vstd::arithmetic::div_mod::lemma_div_is_ordered(a, b, d);
    vstd::arithmetic::mul::lemma_mul_inequality(a / d, b / d, d);
}

/// Two numbers in the same `d`-aligned window round down to the same value.
pub proof fn lemma_align_down_same_page(a: int, b: int, d: int)
    requires
        0 < d,
        0 <= a,
        align_down(a, d) <= b < align_down(a, d) + d,
    ensures
        align_down(b, d) == align_down(a, d),
{
    lemma_align_down(a, d);
    vstd::arithmetic::div_mod::lemma_fundamental_div_mod_converse(
        b,
        d,
        a / d,
        b - align_down(a, d),
    );
    lemma_align_down(b, d);
}

} // verus!
