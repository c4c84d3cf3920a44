//! Paging modes and page-table levels.
//!
//! A paging mode fixes the shape of a hierarchy: how many levels it has,
//! which slice of the mapped address each level indexes with, how many
//! 4 KiB pages its root table occupies, and how the root must be aligned.
//! The first-stage modes Sv39/Sv48/Sv57 translate supervisor-virtual
//! addresses; their guest variants Sv39x4/Sv48x4/Sv57x4 translate
//! guest-physical addresses with a four-page root indexed by two extra
//! address bits.
//!
//! Levels are counted from the leaves up: depth 1 is the leaf level that
//! maps 4 KiB pages, and the root sits at depth 3, 4 or 5.

use vstd::prelude::*;

use crate::pages::PageSize;

verus! {

/// The number of entries in one 4 KiB table page.
pub const ENTRIES_PER_PAGE: u64 = 512;

/// One of the supported paging modes.
#[derive(Clone, Copy, PartialEq, Eq, Structural, Debug)]
pub enum PagingMode {
    Sv39,
    Sv48,
    Sv57,
    Sv39x4,
    Sv48x4,
    Sv57x4,
}

/// One level of a paging hierarchy under a particular mode.
#[derive(Clone, Copy, PartialEq, Eq, Structural, Debug)]
pub struct PageTableLevel {
    pub mode: PagingMode,
    pub depth: u64,
}

impl PagingMode {
    /// The depth of the root level: the number of levels in the hierarchy.
    pub open spec fn root_depth_spec(self) -> u64 {
        match self {
            PagingMode::Sv39 => 3,
            PagingMode::Sv48 => 4,
            PagingMode::Sv57 => 5,
            PagingMode::Sv39x4 => 3,
            PagingMode::Sv48x4 => 4,
            PagingMode::Sv57x4 => 5,
        }
    }

    /// Returns the depth of the root level.
    #[verifier::when_used_as_spec(root_depth_spec)]
    pub fn root_depth(self) -> (r: u64)
        ensures
            r == self.root_depth_spec(),
    {
        match self {
            PagingMode::Sv39 => 3,
            PagingMode::Sv48 => 4,
            PagingMode::Sv57 => 5,
            PagingMode::Sv39x4 => 3,
            PagingMode::Sv48x4 => 4,
            PagingMode::Sv57x4 => 5,
        }
    }

    /// Whether this mode translates a guest-physical address space with a
    /// widened four-page root.
    pub open spec fn is_guest_stage_spec(self) -> bool {
        match self {
            PagingMode::Sv39x4 | PagingMode::Sv48x4 | PagingMode::Sv57x4 => true,
            _ => false,
        }
    }

    /// Returns whether this mode translates a guest-physical address space.
    #[verifier::when_used_as_spec(is_guest_stage_spec)]
    pub fn is_guest_stage(self) -> (r: bool)
        ensures
            r == self.is_guest_stage_spec(),
    {
        match self {
            PagingMode::Sv39x4 | PagingMode::Sv48x4 | PagingMode::Sv57x4 => true,
            _ => false,
        }
    }

    /// The alignment the root table's base address must have: 16 KiB for
    /// the four-page guest roots, 4 KiB otherwise.
    pub open spec fn top_level_align_spec(self) -> u64 {
        if self.is_guest_stage_spec() {
            0x4000
        } else {
            0x1000
        }
    }

    /// Returns the required alignment of the root table.
    #[verifier::when_used_as_spec(top_level_align_spec)]
    pub fn top_level_align(self) -> (r: u64)
        ensures
            r == self.top_level_align_spec(),
    {
        if self.is_guest_stage() {
            0x4000
        } else {
            0x1000
        }
    }

    /// One past the highest mapped address this mode can translate.
    pub open spec fn addr_span_spec(self) -> u64 {
        match self {
            PagingMode::Sv39 => 0x80_0000_0000,
            PagingMode::Sv48 => 0x1_0000_0000_0000,
            PagingMode::Sv57 => 0x200_0000_0000_0000,
            PagingMode::Sv39x4 => 0x200_0000_0000,
            PagingMode::Sv48x4 => 0x4_0000_0000_0000,
            PagingMode::Sv57x4 => 0x800_0000_0000_0000,
        }
    }

    /// Returns one past the highest mapped address this mode translates.
    #[verifier::when_used_as_spec(addr_span_spec)]
    pub fn addr_span(self) -> (r: u64)
        ensures
            r == self.addr_span_spec(),
    {
        match self {
            PagingMode::Sv39 => 0x80_0000_0000,
            PagingMode::Sv48 => 0x1_0000_0000_0000,
            PagingMode::Sv57 => 0x200_0000_0000_0000,
            PagingMode::Sv39x4 => 0x200_0000_0000,
            PagingMode::Sv48x4 => 0x4_0000_0000_0000,
            PagingMode::Sv57x4 => 0x800_0000_0000_0000,
        }
    }

    /// The root level of a hierarchy under this mode.
    pub open spec fn root_level_spec(self) -> PageTableLevel {
        PageTableLevel { mode: self, depth: self.root_depth_spec() }
    }

    /// Returns the root level of a hierarchy under this mode.
    #[verifier::when_used_as_spec(root_level_spec)]
    pub fn root_level(self) -> (r: PageTableLevel)
        ensures
            r == self.root_level_spec(),
            r.wf(),
    {
        PageTableLevel { mode: self, depth: self.root_depth() }
    }

    /// The mode field value to program into the `satp` register, for the
    /// first-stage modes that can be installed there.
    pub fn satp_mode_value(self) -> (r: Option<u64>)
        ensures
            r is Some <==> !self.is_guest_stage_spec(),
    {
        match self {
            PagingMode::Sv39 => Some(8),
            PagingMode::Sv48 => Some(9),
            PagingMode::Sv57 => Some(10),
            _ => None,
        }
    }

    /// The mode field value to program into the `hgatp` register, for the
    /// guest-stage modes that can be installed there.
    pub fn hgatp_mode_value(self) -> (r: Option<u64>)
        ensures
            r is Some <==> self.is_guest_stage_spec(),
    {
        match self {
            PagingMode::Sv39x4 => Some(8),
            PagingMode::Sv48x4 => Some(9),
            PagingMode::Sv57x4 => Some(10),
            _ => None,
        }
    }

    /// How many table pages at most are consumed to fill in the missing
    /// interior tables when `num_pages` 4 KiB pages are mapped densely:
    /// one table at each non-leaf... rather, at each depth below the root,
    /// one table per 512 entries of the depth below, rounded up.
    pub open spec fn max_pte_pages_spec(self, num_pages: u64) -> u64
        decreases self.root_depth_spec(),
    {
        max_pte_pages_rec(num_pages, (self.root_depth_spec() - 1) as u64)
    }

    /// Returns an upper bound on the table pages needed to densely map
    /// `num_pages` 4 KiB pages.
    pub fn max_pte_pages(self, num_pages: u64) -> (r: u64)
        requires
            num_pages < 0x10_0000_0000_0000,
        ensures
            r == self.max_pte_pages_spec(num_pages),
    {
        let mut remaining = num_pages;
        let mut total: u64 = 0;
        let mut levels_left = self.root_depth() - 1;
        proof {
            lemma_max_pte_pages_rec_bound(num_pages, levels_left);
        }
        while levels_left > 0
            invariant
                remaining <= num_pages < 0x10_0000_0000_0000,
                levels_left <= 4,
                total + max_pte_pages_rec(remaining, levels_left) == max_pte_pages_rec(
                    num_pages,
                    (self.root_depth_spec() - 1) as u64,
                ),
                max_pte_pages_rec(num_pages, (self.root_depth_spec() - 1) as u64) <= 4
                    * num_pages + 4,
            decreases levels_left,
        {
            let ghost rec_here = max_pte_pages_rec(remaining, levels_left);
            proof {
                let n = remaining as int;
                assert(n >= 1 ==> (n + 511) / 512 <= n) by (nonlinear_arith);
            }
            let tables = (remaining + 511) / 512;
            proof {
                lemma_max_pte_pages_rec_bound(tables, (levels_left - 1) as u64);
                assert(rec_here == tables + max_pte_pages_rec(tables, (levels_left - 1) as u64));
            }
            total = total + tables;
            remaining = tables;
            levels_left = levels_left - 1;
        }
        total
    }
}

/// Tables needed below the root: `levels` rounds of dividing by the entry
/// count, summed.
pub open spec fn max_pte_pages_rec(num_pages: u64, levels: u64) -> u64
    decreases levels,
{
    if levels == 0 {
        0
    } else {
        let tables = ((num_pages + 511) / 512) as u64;
        (tables + max_pte_pages_rec(tables, (levels - 1) as u64)) as u64
    }
}

proof fn lemma_max_pte_pages_rec_bound(num_pages: u64, levels: u64)
    requires
        num_pages < 0x10_0000_0000_0000,
        levels <= 4,
    ensures
        max_pte_pages_rec(num_pages, levels) <= levels * num_pages + levels,
        max_pte_pages_rec(num_pages, levels) <= 4 * num_pages + 4,
    decreases levels,
{
    if levels > 0 {
        let n = num_pages as int;
        assert(n >= 1 ==> (n + 511) / 512 <= n) by (nonlinear_arith);
        let tables = ((num_pages + 511) / 512) as u64;
        lemma_max_pte_pages_rec_bound(tables, (levels - 1) as u64);
        let l = levels as int;
        let t = tables as int;
        let r = max_pte_pages_rec(tables, (levels - 1) as u64) as int;
        assert(t + r < 0x100_0000_0000_0000);
        assert(max_pte_pages_rec(num_pages, levels) == t + r);
        assert(l >= 1 && 0 <= t <= n && 0 <= r <= (l - 1) * t + (l - 1) ==> t + r <= l * n + l)
            by (nonlinear_arith);
        assert(0 <= l <= 4 && n >= 0 && t + r <= l * n + l ==> t + r <= 4 * n + 4)
            by (nonlinear_arith);
    }
}

impl PageTableLevel {
    /// A level is meaningful when its depth lies between the leaf level
    /// and its mode's root.
    pub open spec fn wf(self) -> bool {
        1 <= self.depth <= self.mode.root_depth_spec()
    }

    /// Whether this is the root level of its mode.
    pub open spec fn is_root(self) -> bool {
        self.depth == self.mode.root_depth_spec()
    }

    /// Whether this is the leaf level.
    pub open spec fn is_leaf_spec(self) -> bool {
        self.depth == 1
    }

    /// Returns whether this is the leaf level.
    #[verifier::when_used_as_spec(is_leaf_spec)]
    pub fn is_leaf(self) -> (r: bool)
        ensures
            r == self.is_leaf_spec(),
    {
        self.depth == 1
    }

    /// The position of the low bit of the address slice this level indexes
    /// with.
    pub open spec fn addr_shift_spec(self) -> u64 {
        (12 + 9 * (self.depth - 1)) as u64
    }

    /// Returns the position of this level's index slice.
    #[verifier::when_used_as_spec(addr_shift_spec)]
    pub fn addr_shift(self) -> (r: u64)
        requires
            self.wf(),
        ensures
            r == self.addr_shift_spec(),
    {
        12 + 9 * (self.depth - 1)
    }

    /// The width in bits of the address slice this level indexes with:
    /// nine, or eleven at the widened root of a guest-stage mode.
    pub open spec fn addr_width_spec(self) -> u64 {
        if self.is_root() && self.mode.is_guest_stage_spec() {
            11
        } else {
            9
        }
    }

    /// Returns the width of this level's index slice.
    #[verifier::when_used_as_spec(addr_width_spec)]
    pub fn addr_width(self) -> (r: u64)
        ensures
            r == self.addr_width_spec(),
    {
        if self.depth == self.mode.root_depth() && self.mode.is_guest_stage() {
            11
        } else {
            9
        }
    }

    /// The number of entries in one table at this level.
    pub open spec fn entries_spec(self) -> u64 {
        if self.is_root() && self.mode.is_guest_stage_spec() {
            2048
        } else {
            512
        }
    }

    /// Returns the number of entries in one table at this level.
    #[verifier::when_used_as_spec(entries_spec)]
    pub fn entries(self) -> (r: u64)
        ensures
            r == self.entries_spec(),
            r == (1u64 << self.addr_width_spec()),
    {
        proof {
            assert((1u64 << 9) == 512 && (1u64 << 11) == 2048) by (bit_vector);
        }
        if self.depth == self.mode.root_depth() && self.mode.is_guest_stage() {
            2048
        } else {
            512
        }
    }

    /// The number of 4 KiB pages occupied by one table at this level: four
    /// at the widened guest root, one everywhere else.
    pub open spec fn table_pages_spec(self) -> u64 {
        if self.is_root() && self.mode.is_guest_stage_spec() {
            4
        } else {
            1
        }
    }

    /// Returns the number of 4 KiB pages occupied by one table at this
    /// level.
    #[verifier::when_used_as_spec(table_pages_spec)]
    pub fn table_pages(self) -> (r: u64)
        ensures
            r == self.table_pages_spec(),
    {
        if self.depth == self.mode.root_depth() && self.mode.is_guest_stage() {
            4
        } else {
            1
        }
    }

    /// The size of the pages a leaf entry at this level would map.
    pub open spec fn leaf_page_size_spec(self) -> PageSize {
        if self.depth == 1 {
            PageSize::Size4k
        } else if self.depth == 2 {
            PageSize::Size2M
        } else if self.depth == 3 {
            PageSize::Size1G
        } else if self.depth == 4 {
            PageSize::Size512G
        } else {
            PageSize::Size256T
        }
    }

    /// Returns the size of the pages a leaf entry at this level would map.
    #[verifier::when_used_as_spec(leaf_page_size_spec)]
    pub fn leaf_page_size(self) -> (r: PageSize)
        requires
            self.wf(),
        ensures
            r == self.leaf_page_size_spec(),
    {
        if self.depth == 1 {
            PageSize::Size4k
        } else if self.depth == 2 {
            PageSize::Size2M
        } else if self.depth == 3 {
            PageSize::Size1G
        } else if self.depth == 4 {
            PageSize::Size512G
        } else {
            PageSize::Size256T
        }
    }

    /// The next level down the hierarchy, in order of decreasing page
    /// size, or nothing at the leaf level.
    pub open spec fn next_spec(self) -> Option<PageTableLevel> {
        if self.depth == 1 {
            None
        } else {
            Some(PageTableLevel { mode: self.mode, depth: (self.depth - 1) as u64 })
        }
    }

    /// Returns the next level down the hierarchy, or nothing at the leaf.
    #[verifier::when_used_as_spec(next_spec)]
    pub fn next(self) -> (r: Option<PageTableLevel>)
        requires
            self.wf(),
        ensures
            r == self.next_spec(),
            r is Some ==> r->0.wf(),
    {
        if self.depth == 1 {
            None
        } else {
            Some(PageTableLevel { mode: self.mode, depth: self.depth - 1 })
        }
    }

    /// The index selected from `addr` at this level: the level's slice of
    /// the address bits.
    pub open spec fn index_spec(self, addr: u64) -> u64 {
        (addr >> self.addr_shift_spec()) & ((self.entries_spec() - 1) as u64)
    }

    /// Returns the index of the entry mapping `addr` at this level.
    pub fn index_of(self, addr: u64) -> (r: u64)
        requires
            self.wf(),
        ensures
            r == self.index_spec(addr),
            r < self.entries_spec(),
    {
        let shift = self.addr_shift();
        let mask = self.entries() - 1;
        let r = (addr >> shift) & mask;
        proof {
            assert((addr >> shift) & 511 < 512 && (addr >> shift) & 2047 < 2048) by (bit_vector);
        }
        r
    }
}

/// An index extracted at any level lies below the level's entry count.
pub proof fn lemma_index_spec_bound(level: PageTableLevel, addr: u64)
    ensures
        0 <= level.index_spec(addr) < level.entries_spec(),
{
    let s = level.addr_shift_spec();
    assert((addr >> s) & 511 < 512 && (addr >> s) & 2047 < 2048) by (bit_vector);
}

/// The address bits above the slice a table at depth `depth` indexes with:
/// together they identify which table of that depth an address is routed
/// to.  At the root the prefix is zero for every translatable address.
pub open spec fn route_prefix(mode: PagingMode, depth: u64, addr: u64) -> u64 {
    if depth == mode.root_depth_spec() {
        0
    } else {
        addr >> ((12 + 9 * depth) as u64)
    }
}

/// The index computed at a level is the address's slice both as bits and
/// arithmetically: dividing the address by the span of one entry (the
/// level's leaf page size) and reducing modulo the table's entry count.
/// The addresses selecting a given index therefore form contiguous runs of
/// the entry's span, repeating with the span of the whole table, so the
/// entries of one table cover its span with disjoint contiguous ranges.
pub proof fn lemma_index_ranges(level: PageTableLevel, addr: u64)
    requires
        level.wf(),
    ensures
        level.index_spec(addr) == (addr / level.leaf_page_size_spec().size_bytes_spec())
            % level.entries_spec(),
{
    let s = level.addr_shift_spec();
    let e = level.entries_spec();
    if e == 512 {
        if s == 12 {
            assert((addr >> 12) & 511 == (addr / 0x1000) % 512) by (bit_vector);
        } else if s == 21 {
            assert((addr >> 21) & 511 == (addr / 0x20_0000) % 512) by (bit_vector);
        } else if s == 30 {
            assert((addr >> 30) & 511 == (addr / 0x4000_0000) % 512) by (bit_vector);
        } else if s == 39 {
            assert((addr >> 39) & 511 == (addr / 0x80_0000_0000) % 512) by (bit_vector);
        } else {
            assert((addr >> 48) & 511 == (addr / 0x1_0000_0000_0000) % 512) by (bit_vector);
        }
    } else {
        if s == 30 {
            assert((addr >> 30) & 2047 == (addr / 0x4000_0000) % 2048) by (bit_vector);
        } else if s == 39 {
            assert((addr >> 39) & 2047 == (addr / 0x80_0000_0000) % 2048) by (bit_vector);
        } else {
            assert((addr >> 48) & 2047 == (addr / 0x1_0000_0000_0000) % 2048) by (bit_vector);
        }
    }
}

/// Routing is injective at the leaf level: two translatable 4 KiB-aligned
/// addresses routed to the same leaf table and the same index are the same
/// address.
pub proof fn lemma_leaf_slot_injective(mode: PagingMode, a: u64, b: u64)
    requires
        a < mode.addr_span_spec(),
        b < mode.addr_span_spec(),
        a % 4096 == 0,
        b % 4096 == 0,
        route_prefix(mode, 1, a) == route_prefix(mode, 1, b),
        (PageTableLevel { mode, depth: 1 }).index_spec(a) == (PageTableLevel {
            mode,
            depth: 1,
        }).index_spec(b),
    ensures
        a == b,
{
    if mode.root_depth_spec() == 1 {
        // No supported mode has a one-level hierarchy.
        assert(false);
    } else {
        assert(a >> 21 == b >> 21 && (a >> 12) & 511 == (b >> 12) & 511 && a % 4096 == 0 && b
            % 4096 == 0 ==> a == b) by (bit_vector);
    }
}

/// Descending one level refines the routing: the prefix that routes an
/// address at the level below extends the current prefix by the index the
/// current level selects.
pub proof fn lemma_route_prefix_extend(level: PageTableLevel, addr: u64)
    requires
        level.wf(),
        !level.is_leaf_spec(),
        addr < level.mode.addr_span_spec(),
    ensures
        route_prefix(level.mode, (level.depth - 1) as u64, addr) == (route_prefix(
            level.mode,
            level.depth,
            addr,
        ) << level.addr_width_spec()) | level.index_spec(addr),
{
    let mode = level.mode;
    let d = level.depth;
    let s = level.addr_shift_spec();
    assert(s == 12 + 9 * (d - 1));
    if d == mode.root_depth_spec() {
        let w = level.addr_width_spec();
        let e1 = (level.entries_spec() - 1) as u64;
        let span = mode.addr_span_spec();
        // The root prefix is zero, so the claim reduces to the index
        // equalling the whole remaining high part of the address.
        if w == 11 {
            assert(addr < (1u64 << ((s + 11) as u64)) ==> addr >> s == (0u64 << 11) | ((addr >> s)
                & 2047)) by (bit_vector);
            assert(span == (1u64 << ((s + 11) as u64))) by (bit_vector)
                requires
                    (s == 30 && span == 0x200_0000_0000) || (s == 39 && span == 0x4_0000_0000_0000)
                        || (s == 48 && span == 0x800_0000_0000_0000),
            ;
        } else {
            assert(addr < (1u64 << ((s + 9) as u64)) ==> addr >> s == (0u64 << 9) | ((addr >> s)
                & 511)) by (bit_vector);
            assert(span == (1u64 << ((s + 9) as u64))) by (bit_vector)
                requires
                    (s == 30 && span == 0x80_0000_0000) || (s == 39 && span == 0x1_0000_0000_0000)
                        || (s == 48 && span == 0x200_0000_0000_0000),
            ;
        }
    } else {
        // Below the root every level indexes nine bits.
        assert(s <= 39 ==> addr >> s == ((addr >> ((s + 9) as u64)) << 9) | ((addr >> s) & 511))
            by (bit_vector);
    }
}

} // verus!
