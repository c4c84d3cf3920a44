//! Plain-value models of physical pages and page ranges.
//!
//! Physical frames are identified by their 4 KiB-aligned byte address.  A
//! frame address always fits in the 44-bit frame-number field of a PTE, so
//! every address handled here lies below 2^56.

use vstd::prelude::*;

verus! {

/// The number of bytes in the smallest mappable page.
pub const PAGE_SIZE_4K: u64 = 4096;

/// The highest frame address representable in a PTE plus one: frame numbers
/// are 44 bits wide and addresses are frame numbers shifted by 12.
pub const MAX_PADDR: u64 = 0x100_0000_0000_0000;

/// Whether `addr` can serve as the address of an owned 4 KiB frame: nonzero
/// (an invalidated entry must keep a nonzero frame number), 4 KiB aligned,
/// and representable in a PTE's frame-number field.
pub open spec fn frame_addr_wf(addr: u64) -> bool {
    &&& addr != 0
    &&& addr % PAGE_SIZE_4K == 0
    &&& addr < MAX_PADDR
}

/// The page sizes a paging mode can translate, one per level of the
/// deepest hierarchy.
#[derive(Clone, Copy, PartialEq, Eq, Structural, Debug)]
pub enum PageSize {
    Size4k,
    Size2M,
    Size1G,
    Size512G,
    Size256T,
}

impl PageSize {
    /// The size in bytes.
    pub open spec fn size_bytes_spec(self) -> u64 {
        match self {
            PageSize::Size4k => 0x1000,
            PageSize::Size2M => 0x20_0000,
            PageSize::Size1G => 0x4000_0000,
            PageSize::Size512G => 0x80_0000_0000,
            PageSize::Size256T => 0x1_0000_0000_0000,
        }
    }

    /// Returns the size in bytes.
    #[verifier::when_used_as_spec(size_bytes_spec)]
    pub fn size_bytes(self) -> (r: u64)
        ensures
            r == self.size_bytes_spec(),
    {
        match self {
            PageSize::Size4k => 0x1000,
            PageSize::Size2M => 0x20_0000,
            PageSize::Size1G => 0x4000_0000,
            PageSize::Size512G => 0x80_0000_0000,
            PageSize::Size256T => 0x1_0000_0000_0000,
        }
    }

    /// Whether this is a size larger than 4 KiB.  Huge mappings are
    /// recognized but not supported by the engine.
    pub open spec fn is_huge_spec(self) -> bool {
        self != PageSize::Size4k
    }

    /// Returns whether this is a size larger than 4 KiB.
    #[verifier::when_used_as_spec(is_huge_spec)]
    pub fn is_huge(self) -> (r: bool)
        ensures
            r == self.is_huge_spec(),
    {
        !(self == PageSize::Size4k)
    }
}

/// The kind of memory a physical frame backs.
#[derive(Clone, Copy, PartialEq, Eq, Structural, Debug)]
pub enum MemType {
    Ram,
    Mmio,
}

/// An opaque identifier associating frames with the hierarchy (host or
/// guest domain) that holds them.
#[derive(Clone, Copy, PartialEq, Eq, Structural, Debug)]
pub struct PageOwnerId {
    pub id: u64,
}

impl PageOwnerId {
    /// An owner with the given raw identifier.
    pub fn new(id: u64) -> (r: Self)
        ensures
            r.id == id,
    {
        Self { id }
    }
}

/// An exclusively owned, zero-filled 4 KiB page, fit to back a page-table
/// node or a data mapping.
#[derive(Clone, Copy, PartialEq, Eq, Structural, Debug)]
pub struct CleanPage4k {
    pub addr: u64,
}

impl CleanPage4k {
    /// Whether the page's address is a usable frame address.
    pub open spec fn wf(self) -> bool {
        frame_addr_wf(self.addr)
    }

    /// A page token for the frame at `addr`, refused unless `addr` is a
    /// usable frame address.
    pub fn new(addr: u64) -> (r: Option<Self>)
        ensures
            r is Some <==> frame_addr_wf(addr),
            r is Some ==> r->0 == (CleanPage4k { addr }),
    {
        if addr != 0 && addr % PAGE_SIZE_4K == 0 && addr < MAX_PADDR {
            Some(Self { addr })
        } else {
            None
        }
    }

    /// Returns the frame address.
    pub fn addr(self) -> (r: u64)
        ensures
            r == self.addr,
    {
        self.addr
    }
}

/// A contiguous run of same-sized pages, as donated for a root table.
#[derive(Clone, Copy, PartialEq, Eq, Structural, Debug)]
pub struct SequentialPages {
    pub base: u64,
    pub count: u64,
    pub page_size: PageSize,
}

impl SequentialPages {
    /// The base address of the run.
    pub open spec fn base_spec(self) -> u64 {
        self.base
    }

    /// The number of pages in the run.
    pub open spec fn len_spec(self) -> u64 {
        self.count
    }

    /// The size of each page in the run.
    pub open spec fn page_size_spec(self) -> PageSize {
        self.page_size
    }

    /// The run starts at a nonzero address aligned to its page size, holds
    /// at least one page, and ends below the representable address limit.
    pub open spec fn wf(self) -> bool {
        &&& self.base != 0
        &&& self.base % self.page_size.size_bytes_spec() == 0
        &&& 1 <= self.count
        &&& self.base + self.count * self.page_size.size_bytes_spec() <= MAX_PADDR
    }

    /// A run of `count` pages of size `page_size` starting at `base`,
    /// refused unless the run is well formed.
    pub fn new(base: u64, count: u64, page_size: PageSize) -> (r: Option<Self>)
        ensures
            r is Some <==> (Self { base, count, page_size }).wf(),
            r is Some ==> r->0 == (Self { base, count, page_size }),
    {
        let size = page_size.size_bytes();
        if base == 0 || count == 0 || base % size != 0 {
            return None;
        }
        // count * size and base + count * size stay in range exactly when
        // the run ends at or below the address limit.
        if count > MAX_PADDR / size {
            proof {
                let c = count as int;
                let s = size as int;
                let m = MAX_PADDR as int;
                assert(c > m / s && s > 0 ==> c * s > m) by (nonlinear_arith);
            }
            return None;
        }
        proof {
            let c = count as int;
            let s = size as int;
            let m = MAX_PADDR as int;
            assert(c <= m / s && s > 0 ==> c * s <= m) by (nonlinear_arith);
        }
        let span = count * size;
        if base > MAX_PADDR - span {
            return None;
        }
        Some(Self { base, count, page_size })
    }

    /// Returns the base address of the run.
    #[verifier::when_used_as_spec(base_spec)]
    pub fn base(self) -> (r: u64)
        ensures
            r == self.base_spec(),
    {
        self.base
    }

    /// Returns the number of pages in the run.
    #[verifier::when_used_as_spec(len_spec)]
    pub fn len(self) -> (r: u64)
        ensures
            r == self.len_spec(),
    {
        self.count
    }

    /// Returns the size of each page in the run.
    #[verifier::when_used_as_spec(page_size_spec)]
    pub fn page_size(self) -> (r: PageSize)
        ensures
            r == self.page_size_spec(),
    {
        self.page_size
    }
}

} // verus!
