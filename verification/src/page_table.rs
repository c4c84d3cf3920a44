//! The multi-level paging hierarchy and its lifecycle operations.
//!
//! A hierarchy owns a root table donated at construction and every table
//! and data frame reachable from it.  Entries walk through five states —
//! unused, locked, leaf, invalidated, and pointer-to-next-table — and the
//! operations here mediate every transition: reserving leaf slots for a
//! batch of mappings, installing mappings, bulk invalidation, handing out
//! converted frames once the TLB version has moved past their conversion,
//! and teardown that returns every owned frame to the page tracker.

use vstd::prelude::*;

use crate::level::{
    lemma_index_spec_bound, lemma_leaf_slot_injective, lemma_route_prefix_extend, route_prefix,
    PageTableLevel, PagingMode,
};
use crate::page_tracker::{frame_of, tracked_index, tracks, FrameInfo, FrameState, LockedPageList, PageList,
    PageTracker, TlbVersion};
use crate::pages::{frame_addr_wf, CleanPage4k, MemType, PageOwnerId, PageSize, SequentialPages};
use crate::pte::{lemma_pfn_bound, lemma_zero_pte_unused, Pte, PteFieldBit, PteFieldBits,
    PteLeafPerms, TableEntryType, PTE_ACCESSED, PTE_DIRTY, PTE_LOCKED, PTE_PFN_SHIFT, PTE_USER,
    PTE_VALID};

verus! {

/// Error in creating or modifying a page table.
#[derive(Clone, Copy, PartialEq, Eq, Structural, Debug)]
pub enum Error {
    /// The root requires more pages than were donated; the pages are
    /// returned inside the error.
    InsufficientPages(SequentialPages),
    /// The supply of blank pages ran out while filling in intermediate
    /// tables.
    InsufficientPtePages,
    /// A middle-level table was expected but a leaf was found.
    LeafEntryNotTable,
    /// The root pages are not aligned as the mode requires; the pages are
    /// returned inside the error.
    MisalignedPages(SequentialPages),
    /// The requested page size is not handled.
    PageSizeNotSupported(PageSize),
    /// A mapping already exists where one was to be created.
    MappingExists,
    /// The requested range is not mapped.
    PageNotMapped,
    /// The requested range could not be removed from the page table.
    PageNotUnmappable,
    /// A non-converted page was requested as converted.
    PageNotConverted,
    /// The target entry is already reserved by another mapper.
    PteLocked,
    /// The target entry was expected to be reserved but is not.
    PteNotLocked,
    /// The address lies outside the range a mapper reserved.
    OutOfMapRange,
}

/// Holds the result of page table operations.
pub type Result<T> = core::result::Result<T, Error>;

/// One table of the hierarchy: its physical base address, its level, the
/// address bits that route to it, and its entries.
struct TablePage {
    base: u64,
    level: PageTableLevel,
    prefix: Ghost<u64>,
    ptes: Vec<Pte>,
}

/// The physical base address of the table or data page an entry points to.
spec fn child_base(p: Pte) -> u64 {
    (p.pfn_spec() * 4096) as u64
}

/// Whether some non-root table in `t` has base address `base`.
spec fn has_base(t: Seq<TablePage>, base: u64) -> bool {
    exists|k: int| 1 <= k < t.len() && t[k].base == base
}

/// The index of the non-root table with base address `base`.
spec fn table_with_base(t: Seq<TablePage>, base: u64) -> int {
    choose|k: int| 1 <= k < t.len() && t[k].base == base
}

/// The slot at which a walk for `addr` ends, starting from table `k`:
/// descend through pointer entries while a pointed-to table exists, and
/// stop at the first entry that is not a pointer.  `fuel` bounds the
/// descent; a well-formed hierarchy never exhausts it.
spec fn walk_from(t: Seq<TablePage>, k: int, addr: u64, fuel: nat) -> (int, int)
    decreases fuel,
{
    let lvl = t[k].level;
    let j = lvl.index_spec(addr) as int;
    let p = t[k].ptes@[j];
    if fuel > 0 && lvl.depth > 1 && p.entry_type() == TableEntryType::Table && has_base(
        t,
        child_base(p),
    ) {
        walk_from(t, table_with_base(t, child_base(p)), addr, (fuel - 1) as nat)
    } else {
        (k, j)
    }
}

/// Whether `a` lies within the run of root pages.
spec fn in_root_zone(root: SequentialPages, a: u64) -> bool {
    root.base <= a < root.base + root.count * 4096
}

/// Shape of one table: its level belongs to the mode, its entry vector
/// matches the level's entry count, and a non-root table sits strictly
/// below the root at a usable frame address outside the root run.
spec fn table_shape_wf(t: Seq<TablePage>, mode: PagingMode, root: SequentialPages, k: int) -> bool {
    let tp = t[k];
    &&& tp.level.mode == mode
    &&& tp.level.wf()
    &&& tp.ptes.len() == tp.level.entries_spec()
    &&& if k == 0 {
        tp.base == root.base && tp.level.is_root() && tp.prefix@ == 0
    } else {
        &&& tp.level.depth < mode.root_depth_spec()
        &&& frame_addr_wf(tp.base)
        &&& !in_root_zone(root, tp.base)
    }
}

/// One entry's obligations: a leaf-level entry is never a pointer, maps
/// only nonzero unreserved frames; a mid-level entry is either all zero or
/// a pointer to a table one level down whose routing prefix extends this
/// table's prefix by the entry's own index.
spec fn entry_ok(t: Seq<TablePage>, k: int, j: int) -> bool {
    let tp = t[k];
    let p = tp.ptes@[j];
    if tp.level.depth == 1 {
        &&& p.entry_type() != TableEntryType::Table
        &&& (p.entry_type() == TableEntryType::Leaf ==> p.pfn_spec() != 0 && !p.locked_spec())
    } else {
        &&& (p.bits_spec() == 0 || p.entry_type() == TableEntryType::Table)
        &&& (p.entry_type() == TableEntryType::Table ==> exists|m: int|
            1 <= m < t.len() && t[m].base == child_base(p) && t[m].level.depth == tp.level.depth
                - 1 && t[m].prefix@ == ((tp.prefix@ << tp.level.addr_width_spec()) | (j as u64)))
    }
}

/// Every non-root table is pointed to by an entry of a table one level
/// above it.
spec fn parent_ok(t: Seq<TablePage>, m: int) -> bool {
    exists|k: int, j: int|
        0 <= k < t.len() && 0 <= j < t[k].ptes.len() && t[k].level.depth == t[m].level.depth + 1
            && t[k].ptes@[j].entry_type() == TableEntryType::Table && child_base(t[k].ptes@[j])
            == t[m].base
}

/// Whether slot `(k, j)` holds a data frame: a leaf-level entry that is a
/// leaf, an invalidated mapping, or a reservation remembering a frame.
spec fn data_entry(t: Seq<TablePage>, k: int, j: int) -> bool {
    &&& 0 <= k < t.len()
    &&& 0 <= j < t[k].ptes.len()
    &&& t[k].level.depth == 1
    &&& (t[k].ptes@[j].entry_type() == TableEntryType::Leaf || t[k].ptes@[j].entry_type()
        == TableEntryType::Invalidated || t[k].ptes@[j].entry_type() == TableEntryType::Locked)
    &&& t[k].ptes@[j].pfn_spec() != 0
}

/// Data frames are each held by exactly one slot and never double as
/// table or root frames.
spec fn data_frames_ok(t: Seq<TablePage>, root: SequentialPages) -> bool {
    &&& forall|k1: int, j1: int, k2: int, j2: int|
        data_entry(t, k1, j1) && data_entry(t, k2, j2) && !(k1 == k2 && j1 == j2)
            ==> child_base(#[trigger] t[k1].ptes@[j1]) != child_base(#[trigger] t[k2].ptes@[j2])
    &&& forall|k: int, j: int|
        #[trigger] data_entry(t, k, j) ==> frame_addr_wf(child_base(t[k].ptes@[j]))
            && !in_root_zone(root, child_base(t[k].ptes@[j])) && !has_base(
            t,
            child_base(t[k].ptes@[j]),
        )
}

/// A paging hierarchy for a given addressing mode: the root pages donated
/// at construction, the owner the mapped frames belong to, the tracker
/// that accounts for them, and every table materialized so far.
pub struct PlatformPageTable {
    mode: PagingMode,
    root: SequentialPages,
    owner: PageOwnerId,
    page_tracker: PageTracker,
    tables: Vec<TablePage>,
}

impl PlatformPageTable {
    /// The paging mode of this hierarchy.
    pub closed spec fn mode_spec(self) -> PagingMode {
        self.mode
    }

    /// The root pages of this hierarchy.
    pub closed spec fn root_spec(self) -> SequentialPages {
        self.root
    }

    /// The owner the hierarchy's frames belong to.
    pub closed spec fn owner_spec(self) -> PageOwnerId {
        self.owner
    }

    /// The hierarchy's page tracker.
    pub closed spec fn page_tracker_spec(self) -> PageTracker {
        self.page_tracker
    }

    /// Whether `addr` is a 4 KiB-aligned address this hierarchy's mode can
    /// translate.
    pub open spec fn addr_ok(self, addr: u64) -> bool {
        addr % 4096 == 0 && addr < self.mode_spec().addr_span_spec()
    }

    /// The hierarchy's structural invariant: the root table mirrors the
    /// donated pages, every pointer entry reaches a uniquely addressed,
    /// uniquely routed table one level down, every non-root table has a
    /// parent, and data frames are held once each.
    pub closed spec fn wf(self) -> bool {
        let t = self.tables@;
        &&& t.len() >= 1
        &&& self.root.wf()
        &&& self.root.page_size == PageSize::Size4k
        &&& self.root.count >= self.mode.root_level_spec().table_pages_spec()
        &&& self.root.base % self.mode.top_level_align_spec() == 0
        &&& forall|k: int| 0 <= k < t.len() ==> table_shape_wf(t, self.mode, self.root, k)
        &&& forall|k: int, j: int|
            0 <= k < t.len() && 0 <= j < t[k].ptes.len() ==> entry_ok(t, k, j)
        &&& forall|m: int| 1 <= m < t.len() ==> parent_ok(t, m)
        &&& forall|k: int, m: int|
            1 <= k < t.len() && 1 <= m < t.len() && k != m ==> t[k].base != t[m].base
        &&& data_frames_ok(t, self.root)
        &&& self.page_tracker.wf()
    }

    /// The entry at which a translation walk for `addr` ends.
    pub closed spec fn entry_pte_spec(self, addr: u64) -> Pte {
        let loc = walk_from(
            self.tables@,
            0,
            addr,
            self.mode.root_depth_spec() as nat,
        );
        self.tables@[loc.0].ptes@[loc.1]
    }

    /// The state of the entry a walk for `addr` ends at.
    pub closed spec fn entry_state(self, addr: u64) -> TableEntryType {
        self.entry_pte_spec(addr).entry_type()
    }

    /// The raw bits of the entry a walk for `addr` ends at.
    pub closed spec fn entry_bits(self, addr: u64) -> u64 {
        self.entry_pte_spec(addr).bits_spec()
    }

    /// The frame number held by the entry a walk for `addr` ends at.
    pub closed spec fn entry_pfn(self, addr: u64) -> u64 {
        self.entry_pte_spec(addr).pfn_spec()
    }

    /// Whether the walk for `addr` ends at the leaf level, where 4 KiB
    /// mappings live.
    pub closed spec fn entry_at_leaf_level(self, addr: u64) -> bool {
        let loc = walk_from(
            self.tables@,
            0,
            addr,
            self.mode.root_depth_spec() as nat,
        );
        self.tables@[loc.0].level.depth == 1
    }

    /// Whether the hierarchy logically owns the frame at `a`: a root page,
    /// a materialized table page, or a data frame held by a leaf-level
    /// entry.
    pub closed spec fn owns_frame(self, a: u64) -> bool {
        ||| in_root_zone(self.root, a)
        ||| has_base(self.tables@, a)
        ||| exists|k: int, j: int|
            #[trigger] data_entry(self.tables@, k, j) && child_base(self.tables@[k].ptes@[j]) == a
    }
}

/// What a walk lands on, under the hierarchy's invariant: a slot of a
/// well-formed table routed by the address, holding the address's index
/// slice, whose entry is never a pointer; a stop above the leaf level can
/// only be an all-zero (unused) entry.
proof fn lemma_walk_from_props(
    pt: PlatformPageTable,
    k: int,
    addr: u64,
    fuel: nat,
)
    requires
        pt.wf(),
        addr < pt.mode_spec().addr_span_spec(),
        0 <= k < pt.tables@.len(),
        pt.tables@[k].prefix@ == route_prefix(pt.mode_spec(), pt.tables@[k].level.depth, addr),
        fuel >= pt.tables@[k].level.depth,
    ensures
        ({
            let t = pt.tables@;
            let loc = walk_from(t, k, addr, fuel);
            &&& 0 <= loc.0 < t.len()
            &&& t[loc.0].level.wf()
            &&& loc.1 == t[loc.0].level.index_spec(addr)
            &&& 0 <= loc.1 < t[loc.0].ptes.len()
            &&& t[loc.0].prefix@ == route_prefix(pt.mode_spec(), t[loc.0].level.depth, addr)
            &&& t[loc.0].ptes@[loc.1].entry_type() != TableEntryType::Table
            &&& (t[loc.0].level.depth > 1 ==> t[loc.0].ptes@[loc.1].bits_spec() == 0)
            &&& t[loc.0].level.depth <= t[k].level.depth
        }),
    decreases fuel,
{
    let t = pt.tables@;
    let mode = pt.mode_spec();
    let lvl = t[k].level;
    assert(table_shape_wf(t, mode, pt.root_spec(), k));
    lemma_index_spec_bound(lvl, addr);
    let j = lvl.index_spec(addr) as int;
    let p = t[k].ptes@[j];
    assert(entry_ok(t, k, j));
    if fuel > 0 && lvl.depth > 1 && p.entry_type() == TableEntryType::Table && has_base(
        t,
        child_base(p),
    ) {
        let m = choose|m: int|
            1 <= m < t.len() && t[m].base == child_base(p) && t[m].level.depth == lvl.depth - 1
                && t[m].prefix@ == ((t[k].prefix@ << lvl.addr_width_spec()) | (j as u64));
        let c = table_with_base(t, child_base(p));
        assert(1 <= c < t.len() && t[c].base == child_base(p));
        assert(c == m);
        lemma_route_prefix_extend(lvl, addr);
        assert(t[c].prefix@ == route_prefix(mode, t[c].level.depth, addr));
        lemma_walk_from_props(pt, c, addr, (fuel - 1) as nat);
    }
}

/// The walk for a translatable address never ends on a pointer entry, and
/// reservation, mapping and invalidation states occur at the leaf level
/// only.
pub proof fn lemma_entry_props(pt: PlatformPageTable, addr: u64)
    requires
        pt.wf(),
        pt.addr_ok(addr),
    ensures
        pt.entry_state(addr) != TableEntryType::Table,
        !pt.entry_at_leaf_level(addr) ==> pt.entry_bits(addr) == 0 && pt.entry_state(addr)
            == TableEntryType::Unused,
        pt.entry_state(addr) == TableEntryType::Leaf ==> pt.entry_pfn(addr) != 0,
{
    let t = pt.tables@;
    assert(table_shape_wf(t, pt.mode_spec(), pt.root_spec(), 0));
    assert(route_prefix(pt.mode_spec(), t[0].level.depth, addr) == 0);
    lemma_walk_from_props(pt, 0, addr, pt.mode_spec().root_depth_spec() as nat);
    let loc = walk_from(t, 0, addr, pt.mode_spec().root_depth_spec() as nat);
    assert(entry_ok(t, loc.0, loc.1));
    let p = t[loc.0].ptes@[loc.1];
    if p.bits_spec() == 0 {
        let b = p.bits_spec();
        assert(b == 0 ==> b & PTE_VALID == 0 && b & PTE_LOCKED == 0 && (b >> 10)
            & 0xFFF_FFFF_FFFFu64 == 0) by (bit_vector);
    }
}

/// Whether `t1` is `t0` with only the entry at `(k0, j0)` rewritten: same
/// tables, same shapes, every other entry unchanged.
spec fn entry_updated(t0: Seq<TablePage>, t1: Seq<TablePage>, k0: int, j0: int) -> bool {
    &&& t1.len() == t0.len()
    &&& 0 <= k0 < t0.len()
    &&& 0 <= j0 < t0[k0].ptes.len()
    &&& forall|m: int|
        0 <= m < t0.len() ==> t1[m].base == t0[m].base && t1[m].level == t0[m].level
            && t1[m].prefix == t0[m].prefix && t1[m].ptes.len() == t0[m].ptes.len()
    &&& forall|m: int, j: int|
        0 <= m < t0.len() && 0 <= j < t0[m].ptes.len() && !(m == k0 && j == j0)
            ==> t1[m].ptes@[j] == t0[m].ptes@[j]
}

/// Rewriting a leaf-level entry reroutes no walk: every walk stops at the
/// same slot as before.
proof fn lemma_walk_leaf_update(
    pt: PlatformPageTable,
    t1: Seq<TablePage>,
    k0: int,
    j0: int,
    k: int,
    addr: u64,
    fuel: nat,
)
    requires
        pt.wf(),
        entry_updated(pt.tables@, t1, k0, j0),
        pt.tables@[k0].level.depth == 1,
        0 <= k < pt.tables@.len(),
    ensures
        walk_from(t1, k, addr, fuel) == walk_from(pt.tables@, k, addr, fuel),
    decreases fuel,
{
    let t0 = pt.tables@;
    let lvl = t0[k].level;
    let j = lvl.index_spec(addr) as int;
    lemma_index_spec_bound(lvl, addr);
    assert(table_shape_wf(t0, pt.mode_spec(), pt.root_spec(), k));
    if fuel > 0 && lvl.depth > 1 {
        // The slot read here sits above the leaf level, so it is not the
        // rewritten one and both walks read the same entry.
        assert(!(k == k0 && j == j0));
        let p = t0[k].ptes@[j];
        assert(t1[k].ptes@[j] == p);
        if p.entry_type() == TableEntryType::Table && has_base(t0, child_base(p)) {
            let w0 = table_with_base(t0, child_base(p));
            assert(1 <= w0 < t0.len() && t0[w0].base == child_base(p));
            assert(t1[w0].base == child_base(p));
            assert(has_base(t1, child_base(p)));
            let w1 = table_with_base(t1, child_base(p));
            assert(1 <= w1 < t1.len() && t1[w1].base == child_base(p));
            assert(t0[w1].base == child_base(p));
            assert(w1 == w0);
            lemma_walk_leaf_update(pt, t1, k0, j0, w0, addr, (fuel - 1) as nat);
        } else {
            assert(!(p.entry_type() == TableEntryType::Table && has_base(t1, child_base(p))))
                by {
                if has_base(t1, child_base(p)) {
                    let w1 = table_with_base(t1, child_base(p));
                    assert(t0[w1].base == child_base(p));
                    assert(has_base(t0, child_base(p)));
                }
            }
        }
    }
}

/// Whether `t1` extends `t0` by one table appended at the end, with the
/// entry at `(k0, j0)` — previously all zero, above the leaf level —
/// rewritten to point at it, and the new table zero filled one level
/// below.
spec fn table_filled(t0: Seq<TablePage>, t1: Seq<TablePage>, k0: int, j0: int) -> bool {
    let n = t0.len() as int;
    &&& t1.len() == t0.len() + 1
    &&& 0 <= k0 < t0.len()
    &&& 0 <= j0 < t0[k0].ptes.len()
    &&& t0[k0].level.depth > 1
    &&& t0[k0].ptes@[j0].bits_spec() == 0
    &&& forall|m: int|
        0 <= m < t0.len() ==> t1[m].base == t0[m].base && t1[m].level == t0[m].level
            && t1[m].prefix == t0[m].prefix && t1[m].ptes.len() == t0[m].ptes.len()
    &&& forall|m: int, j: int|
        0 <= m < t0.len() && 0 <= j < t0[m].ptes.len() && !(m == k0 && j == j0)
            ==> t1[m].ptes@[j] == t0[m].ptes@[j]
    &&& t1[k0].ptes@[j0].entry_type() == TableEntryType::Table
    &&& child_base(t1[k0].ptes@[j0]) == t1[n].base
    &&& frame_addr_wf(t1[n].base)
    &&& !has_base(t0, t1[n].base)
    &&& t1[n].level.mode == t0[k0].level.mode
    &&& t1[n].level.depth == t0[k0].level.depth - 1
    &&& t1[n].ptes.len() == t1[n].level.entries_spec()
    &&& forall|j: int| 0 <= j < t1[n].ptes.len() ==> t1[n].ptes@[j].bits_spec() == 0
}

/// Installing a table under an all-zero mid-level slot leaves every walk
/// that stopped elsewhere untouched; a walk that stopped at that slot now
/// descends one level and stops on an all-zero entry of the new table.
proof fn lemma_walk_fill(
    pt: PlatformPageTable,
    t1: Seq<TablePage>,
    k0: int,
    j0: int,
    k: int,
    addr: u64,
    fuel: nat,
)
    requires
        pt.wf(),
        table_filled(pt.tables@, t1, k0, j0),
        0 <= k < pt.tables@.len(),
        fuel >= pt.tables@[k].level.depth,
    ensures
        ({
            let t0 = pt.tables@;
            let n = t0.len() as int;
            let loc0 = walk_from(t0, k, addr, fuel);
            if loc0 == (k0, j0) {
                walk_from(t1, k, addr, fuel) == (n, t1[n].level.index_spec(addr) as int)
            } else {
                walk_from(t1, k, addr, fuel) == loc0
            }
        }),
    decreases fuel,
{
    let t0 = pt.tables@;
    let n = t0.len() as int;
    let lvl = t0[k].level;
    let j = lvl.index_spec(addr) as int;
    lemma_index_spec_bound(lvl, addr);
    assert(table_shape_wf(t0, pt.mode_spec(), pt.root_spec(), k));
    assert(entry_ok(t0, k, j));
    let p0 = t0[k].ptes@[j];
    let p1 = t1[k].ptes@[j];
    if lvl.depth == 1 {
        // Both walks stop here; the stop slot is not the filled one.
        assert(walk_from(t0, k, addr, fuel) == (k, j));
        assert(walk_from(t1, k, addr, fuel) == (k, j));
    } else if k == k0 && j == j0 {
        // The walk in the old hierarchy stops on the all-zero slot; in the
        // new one it descends into the fresh table and stops on a zero
        // entry there.
        lemma_zero_pte_unused(p0);
        assert(walk_from(t0, k, addr, fuel) == (k, j));
        assert(t1[n].base == child_base(p1));
        assert(has_base(t1, child_base(p1))) by {
            assert(1 <= n < t1.len() && t1[n].base == child_base(p1));
        }
        let w1 = table_with_base(t1, child_base(p1));
        assert(1 <= w1 < t1.len() && t1[w1].base == child_base(p1));
        assert(w1 == n) by {
            if w1 < n {
                assert(t0[w1].base == child_base(p1));
                assert(has_base(t0, t1[n].base));
            }
        }
        assert(fuel >= 2);
        let jn = t1[n].level.index_spec(addr) as int;
        lemma_index_spec_bound(t1[n].level, addr);
        assert(t1[n].ptes@[jn].bits_spec() == 0);
        lemma_zero_pte_unused(t1[n].ptes@[jn]);
        assert(walk_from(t1, n, addr, (fuel - 1) as nat) == (n, jn));
    } else {
        assert(p1 == p0);
        if p0.entry_type() == TableEntryType::Table && has_base(t0, child_base(p0)) {
            let w0 = table_with_base(t0, child_base(p0));
            assert(1 <= w0 < t0.len() && t0[w0].base == child_base(p0));
            assert(t1[w0].base == child_base(p0));
            assert(has_base(t1, child_base(p0)));
            let w1 = table_with_base(t1, child_base(p0));
            assert(1 <= w1 < t1.len() && t1[w1].base == child_base(p0));
            assert(w1 == w0) by {
                if w1 == n {
                    assert(t1[n].base == child_base(p0));
                    assert(has_base(t0, t1[n].base));
                } else {
                    assert(t0[w1].base == child_base(p0));
                }
            }
            // The child recorded in the hierarchy sits one level down.
            let m = choose|m: int|
                1 <= m < t0.len() && t0[m].base == child_base(p0) && t0[m].level.depth
                    == lvl.depth - 1 && t0[m].prefix@ == ((t0[k].prefix@
                    << lvl.addr_width_spec()) | (j as u64));
            assert(w0 == m);
            lemma_walk_fill(pt, t1, k0, j0, w0, addr, (fuel - 1) as nat);
        } else {
            assert(p0.entry_type() == TableEntryType::Table ==> has_base(t0, child_base(p0)));
            if p0.entry_type() == TableEntryType::Table {
                assert(false);
            } else {
                assert(walk_from(t0, k, addr, fuel) == (k, j));
                assert(walk_from(t1, k, addr, fuel) == (k, j));
                assert(!(k == k0 && j == j0));
            }
        }
    }
}

/// Two distinct translatable page addresses never share a leaf-level
/// stopping slot.
proof fn lemma_distinct_stops(pt: PlatformPageTable, a: u64, b: u64)
    requires
        pt.wf(),
        pt.addr_ok(a),
        pt.addr_ok(b),
        a != b,
        pt.entry_depth(a) == 1,
    ensures
        walk_from(pt.tables@, 0, a, pt.mode_spec().root_depth_spec() as nat) != walk_from(
            pt.tables@,
            0,
            b,
            pt.mode_spec().root_depth_spec() as nat,
        ),
{
    let t = pt.tables@;
    let mode = pt.mode_spec();
    let fuel = mode.root_depth_spec() as nat;
    assert(table_shape_wf(t, mode, pt.root_spec(), 0));
    assert(route_prefix(mode, t[0].level.depth, a) == 0);
    assert(route_prefix(mode, t[0].level.depth, b) == 0);
    lemma_walk_from_props(pt, 0, a, fuel);
    lemma_walk_from_props(pt, 0, b, fuel);
    let la = walk_from(t, 0, a, fuel);
    let lb = walk_from(t, 0, b, fuel);
    if la == lb {
        // Same table means same routing prefix; same slot means same index
        // slice; a page address is exactly its prefix, index, and offset.
        assert(table_shape_wf(t, mode, pt.root_spec(), la.0));
        assert(t[la.0].prefix@ == route_prefix(mode, 1, a));
        assert(t[lb.0].prefix@ == route_prefix(mode, 1, b));
        assert(t[la.0].level.index_spec(a) == t[la.0].level.index_spec(b));
        assert(t[la.0].level.mode == mode && t[la.0].level.depth == 1);
        assert(t[la.0].level == (PageTableLevel { mode, depth: 1 }));
        lemma_leaf_slot_injective(mode, a, b);
        assert(false);
    }
}

/// Whether an entry holds a data frame: a leaf, an invalidated mapping,
/// or a reservation remembering a frame.
spec fn pte_is_data(p: Pte) -> bool {
    &&& (p.entry_type() == TableEntryType::Leaf || p.entry_type() == TableEntryType::Invalidated
        || p.entry_type() == TableEntryType::Locked)
    &&& p.pfn_spec() != 0
}

/// The frame an entry with a nonzero frame number points at is a usable
/// frame address.
proof fn lemma_child_base_wf(p: Pte)
    requires
        p.pfn_spec() != 0,
    ensures
        frame_addr_wf(child_base(p)),
        child_base(p) == p.pfn_spec() * 4096,
{
    lemma_pfn_bound(p);
    let f = p.pfn_spec() as int;
    assert(1 <= f <= 0xFFF_FFFF_FFFF ==> 4096 <= f * 4096 <= 0xFFF_FFFF_FFFF_000 && (f * 4096)
        % 4096 == 0) by (nonlinear_arith);
}

/// Context shared by the slot-rewrite lemmas: the hierarchy is well
/// formed, `t1` is its table sequence with only the slot the walk for
/// `addr` stops at rewritten to `v`, and a frame `v` holds is either the
/// slot's own or fresh.
spec fn leaf_update_ctx(
    pt0: PlatformPageTable,
    t1: Seq<TablePage>,
    k0: int,
    j0: int,
    v: Pte,
    addr: u64,
) -> bool {
    &&& pt0.wf()
    &&& pt0.addr_ok(addr)
    &&& entry_updated(pt0.tables@, t1, k0, j0)
    &&& pt0.tables@[k0].level.depth == 1
    &&& walk_from(pt0.tables@, 0, addr, pt0.mode_spec().root_depth_spec() as nat) == (k0, j0)
    &&& t1[k0].ptes@[j0] == v
    &&& (pte_is_data(v) ==> v.pfn_spec() == pt0.tables@[k0].ptes@[j0].pfn_spec() || !pt0
        .owns_frame(child_base(v)))
}

/// After a leaf-slot rewrite, data frames are still held by at most one
/// slot each.
proof fn lemma_data_pair_distinct(
    pt0: PlatformPageTable,
    t1: Seq<TablePage>,
    k0: int,
    j0: int,
    v: Pte,
    addr: u64,
    x1: int,
    y1: int,
    x2: int,
    y2: int,
)
    requires
        leaf_update_ctx(pt0, t1, k0, j0, v, addr),
        data_entry(t1, x1, y1),
        data_entry(t1, x2, y2),
        !(x1 == x2 && y1 == y2),
    ensures
        child_base(t1[x1].ptes@[y1]) != child_base(t1[x2].ptes@[y2]),
{
    let t0 = pt0.tables@;
    if !(x1 == k0 && y1 == j0) && !(x2 == k0 && y2 == j0) {
        assert(t1[x1].ptes@[y1] == t0[x1].ptes@[y1]);
        assert(t1[x2].ptes@[y2] == t0[x2].ptes@[y2]);
        assert(data_entry(t0, x1, y1) && data_entry(t0, x2, y2));
    } else if x1 == k0 && y1 == j0 {
        assert(t1[x2].ptes@[y2] == t0[x2].ptes@[y2]);
        assert(data_entry(t0, x2, y2));
        assert(pte_is_data(v));
        if v.pfn_spec() == t0[k0].ptes@[j0].pfn_spec() {
            assert(entry_ok(t0, k0, j0));
            assert(t0[k0].ptes@[j0].pfn_spec() != 0);
            assert(t0[k0].ptes@[j0].entry_type() != TableEntryType::Table);
            assert(t0[k0].ptes@[j0].entry_type() != TableEntryType::Unused);
            assert(data_entry(t0, k0, j0));
        } else {
            assert(!pt0.owns_frame(child_base(v)));
            assert(child_base(t0[x2].ptes@[y2]) != child_base(v)) by {
                if child_base(t0[x2].ptes@[y2]) == child_base(v) {
                    assert(pt0.owns_frame(child_base(v)));
                }
            }
        }
    } else {
        assert(t1[x1].ptes@[y1] == t0[x1].ptes@[y1]);
        assert(data_entry(t0, x1, y1));
        assert(pte_is_data(v));
        if v.pfn_spec() == t0[k0].ptes@[j0].pfn_spec() {
            assert(entry_ok(t0, k0, j0));
            assert(t0[k0].ptes@[j0].pfn_spec() != 0);
            assert(t0[k0].ptes@[j0].entry_type() != TableEntryType::Table);
            assert(t0[k0].ptes@[j0].entry_type() != TableEntryType::Unused);
            assert(data_entry(t0, k0, j0));
        } else {
            assert(!pt0.owns_frame(child_base(v)));
            assert(child_base(t0[x1].ptes@[y1]) != child_base(v)) by {
                if child_base(t0[x1].ptes@[y1]) == child_base(v) {
                    assert(pt0.owns_frame(child_base(v)));
                }
            }
        }
    }
}

/// After a leaf-slot rewrite, every data frame is a usable address
/// outside the root run and distinct from every table base.
proof fn lemma_data_slot_ok(
    pt0: PlatformPageTable,
    t1: Seq<TablePage>,
    k0: int,
    j0: int,
    v: Pte,
    addr: u64,
    x: int,
    y: int,
)
    requires
        leaf_update_ctx(pt0, t1, k0, j0, v, addr),
        data_entry(t1, x, y),
    ensures
        frame_addr_wf(child_base(t1[x].ptes@[y])),
        !in_root_zone(pt0.root_spec(), child_base(t1[x].ptes@[y])),
        !has_base(t1, child_base(t1[x].ptes@[y])),
{
    let t0 = pt0.tables@;
    let cb = child_base(t1[x].ptes@[y]);
    if !(x == k0 && y == j0) {
        assert(t1[x].ptes@[y] == t0[x].ptes@[y]);
        assert(data_entry(t0, x, y));
        assert(!has_base(t1, cb)) by {
            if has_base(t1, cb) {
                let w = table_with_base(t1, cb);
                assert(t0[w].base == cb);
                assert(has_base(t0, cb));
            }
        }
    } else {
        assert(pte_is_data(v));
        lemma_child_base_wf(v);
        if v.pfn_spec() == t0[k0].ptes@[j0].pfn_spec() {
            assert(entry_ok(t0, k0, j0));
            assert(t0[k0].ptes@[j0].pfn_spec() != 0);
            assert(t0[k0].ptes@[j0].entry_type() != TableEntryType::Table);
            assert(t0[k0].ptes@[j0].entry_type() != TableEntryType::Unused);
            assert(data_entry(t0, k0, j0));
            assert(child_base(t0[k0].ptes@[j0]) == cb);
            assert(!has_base(t1, cb)) by {
                if has_base(t1, cb) {
                    let w = table_with_base(t1, cb);
                    assert(t0[w].base == cb);
                    assert(has_base(t0, cb));
                }
            }
        } else {
            assert(!pt0.owns_frame(cb));
            assert(!has_base(t1, cb)) by {
                if has_base(t1, cb) {
                    let w = table_with_base(t1, cb);
                    assert(t0[w].base == cb);
                    assert(has_base(t0, cb));
                }
            }
        }
    }
}

/// Whether some page in the pool is the frame at `f`.
pub open spec fn supply_contains(pages: Seq<CleanPage4k>, f: u64) -> bool {
    exists|i: int| 0 <= i < pages.len() && pages[i].addr == f
}

/// An entry with a zero frame number points at the null frame.
proof fn lemma_child_base_wf_zero(p: Pte)
    requires
        p.pfn_spec() == 0,
    ensures
        child_base(p) == 0,
{
}

/// A well-formed hierarchy never owns the null frame.
proof fn lemma_zero_not_owned(pt: PlatformPageTable)
    requires
        pt.wf(),
    ensures
        !pt.owns_frame(0),
{
    let t = pt.tables@;
    if pt.owns_frame(0) {
        if has_base(t, 0) {
            let w = table_with_base(t, 0);
            assert(1 <= w < t.len() && t[w].base == 0);
            assert(table_shape_wf(t, pt.mode_spec(), pt.root_spec(), w));
        }
        if exists|x: int, y: int| #[trigger] data_entry(t, x, y) && child_base(t[x].ptes@[y])
            == 0 {
            let (x, y) = choose|x: int, y: int|
                #[trigger] data_entry(t, x, y) && child_base(t[x].ptes@[y]) == 0;
            lemma_child_base_wf(t[x].ptes@[y]);
        }
    }
}

/// A data slot seen after a table was filled in already held the same
/// data before: the filled slot sits above the leaf level and the new
/// table is all zero, so neither holds data.
proof fn lemma_fill_data_carried(
    pt0: PlatformPageTable,
    t1: Seq<TablePage>,
    k0: int,
    j0: int,
    x: int,
    y: int,
)
    requires
        pt0.wf(),
        table_filled(pt0.tables@, t1, k0, j0),
        data_entry(t1, x, y),
    ensures
        x < pt0.tables@.len(),
        !(x == k0 && y == j0),
        t1[x].ptes@[y] == pt0.tables@[x].ptes@[y],
        data_entry(pt0.tables@, x, y),
        pt0.owns_frame(child_base(pt0.tables@[x].ptes@[y])),
{
    let t0 = pt0.tables@;
    let n = t0.len() as int;
    if x == n {
        assert(t1[x].ptes@[y].bits_spec() == 0);
        lemma_zero_pte_unused(t1[x].ptes@[y]);
        assert(false);
    }
    if x == k0 && y == j0 {
        assert(t0[k0].level.depth > 1);
        assert(t1[k0].level == t0[k0].level);
        assert(false);
    }
    assert(t1[x].ptes@[y] == t0[x].ptes@[y]);
    assert(data_entry(t0, x, y));
}

impl PlatformPageTable {
    /// The depth of the level at which a walk for `addr` stops: one at
    /// the leaf level, more while intermediate tables are missing.
    pub closed spec fn entry_depth(self, addr: u64) -> u64 {
        let loc = walk_from(
            self.tables@,
            0,
            addr,
            self.mode.root_depth_spec() as nat,
        );
        self.tables@[loc.0].level.depth
    }

    /// Rewrites the leaf-level entry at which the walk for `addr` stops.
    /// The new value must respect the leaf level's obligations, and a
    /// frame it holds must be the one the slot already held or one the
    /// hierarchy does not own yet.
    fn update_leaf_entry(&mut self, addr: u64, k: usize, j: usize, v: Pte)
        requires
            old(self).wf(),
            old(self).addr_ok(addr),
            ({
                let loc = walk_from(
                    old(self).tables@,
                    0,
                    addr,
                    old(self).mode_spec().root_depth_spec() as nat,
                );
                loc.0 == k as int && loc.1 == j as int
            }),
            old(self).entry_depth(addr) == 1,
            v.entry_type() != TableEntryType::Table,
            v.entry_type() == TableEntryType::Leaf ==> v.pfn_spec() != 0 && !v.locked_spec(),
            pte_is_data(v) ==> v.pfn_spec() == old(self).entry_pfn(addr) || !old(self).owns_frame(child_base(v)),
        ensures
            final(self).wf(),
            final(self).mode_spec() == old(self).mode_spec(),
            final(self).root_spec() == old(self).root_spec(),
            final(self).owner_spec() == old(self).owner_spec(),
            final(self).page_tracker_spec() == old(self).page_tracker_spec(),
            final(self).entry_bits(addr) == v.bits_spec(),
            final(self).entry_depth(addr) == 1,
            forall|b: u64|
                old(self).addr_ok(b) && b != addr ==> final(self).entry_bits(b) == old(self).entry_bits(b) && final(self).entry_state(b) == old(self).entry_state(b)
                    && final(self).entry_pfn(b) == old(self).entry_pfn(b),
            forall|b: u64|
                old(self).addr_ok(b) ==> final(self).entry_depth(b) == old(self).entry_depth(b),
            forall|f: u64|
                !old(self).owns_frame(f) && f != child_base(v) ==> !final(self).owns_frame(f),
            pte_is_data(v) ==> final(self).owns_frame(child_base(v)),
    {
        let ghost t0 = self.tables@;
        let ghost pt0 = *old(self);
        proof {
            lemma_walk_from_props(pt0, 0, addr, pt0.mode_spec().root_depth_spec() as nat);
            assert(table_shape_wf(t0, pt0.mode_spec(), pt0.root_spec(), 0));
        }
        self.tables[k].ptes[j] = v;
        proof {
            let t1 = self.tables@;
            let k0 = k as int;
            let j0 = j as int;
            assert(entry_updated(t0, t1, k0, j0));
            let mode = pt0.mode_spec();
            let root = pt0.root_spec();
            let fuel = mode.root_depth_spec() as nat;
            // The structural invariant survives: shapes and linkage are
            // untouched, and the rewritten slot meets the leaf level's
            // obligations.
            assert forall|m: int|
                0 <= m < t1.len() implies table_shape_wf(t1, mode, root, m) by {
                assert(table_shape_wf(t0, mode, root, m));
            }
            assert forall|m: int, i: int|
                0 <= m < t1.len() && 0 <= i < t1[m].ptes.len() implies entry_ok(t1, m, i) by {
                assert(entry_ok(t0, m, i));
                if !(m == k0 && i == j0) {
                    assert(t1[m].ptes@[i] == t0[m].ptes@[i]);
                    if t0[m].level.depth > 1 && t0[m].ptes@[i].entry_type()
                        == TableEntryType::Table {
                        let w = choose|w: int|
                            1 <= w < t0.len() && t0[w].base == child_base(t0[m].ptes@[i])
                                && t0[w].level.depth == t0[m].level.depth - 1 && t0[w].prefix@
                                == ((t0[m].prefix@ << t0[m].level.addr_width_spec()) | (
                            i as u64));
                        assert(1 <= w < t1.len() && t1[w].base == child_base(t1[m].ptes@[i])
                            && t1[w].level.depth == t1[m].level.depth - 1 && t1[w].prefix@ == ((
                        t1[m].prefix@ << t1[m].level.addr_width_spec()) | (i as u64)));
                    }
                }
            }
            assert forall|m: int| 1 <= m < t1.len() implies parent_ok(t1, m) by {
                assert(parent_ok(t0, m));
                let (pk, pj) = choose|pk: int, pj: int|
                    0 <= pk < t0.len() && 0 <= pj < t0[pk].ptes.len() && t0[pk].level.depth
                        == t0[m].level.depth + 1 && t0[pk].ptes@[pj].entry_type()
                        == TableEntryType::Table && child_base(t0[pk].ptes@[pj]) == t0[m].base;
                assert(!(pk == k0 && pj == j0));
                assert(t1[pk].ptes@[pj] == t0[pk].ptes@[pj]);
            }
            assert forall|x1: int, y1: int, x2: int, y2: int|
                data_entry(t1, x1, y1) && data_entry(t1, x2, y2) && !(x1 == x2 && y1 == y2)
                    implies child_base(t1[x1].ptes@[y1]) != child_base(t1[x2].ptes@[y2]) by {
                lemma_data_pair_distinct(pt0, t1, k0, j0, v, addr, x1, y1, x2, y2);
            }
            assert forall|x: int, y: int| #[trigger]
                data_entry(t1, x, y) implies frame_addr_wf(child_base(t1[x].ptes@[y]))
                    && !in_root_zone(root, child_base(t1[x].ptes@[y])) && !has_base(
                    t1,
                    child_base(t1[x].ptes@[y]),
                ) by {
                lemma_data_slot_ok(pt0, t1, k0, j0, v, addr, x, y);
            }
            assert(self.wf());
            // Walks are unchanged, so every other address reads as before.
            assert forall|b: u64| pt0.addr_ok(b) && b != addr implies final(self).entry_bits(b)
                == pt0.entry_bits(b) && final(self).entry_state(b) == pt0.entry_state(b)
                && final(self).entry_pfn(b) == pt0.entry_pfn(b) by {
                lemma_walk_leaf_update(pt0, t1, k0, j0, 0, b, fuel);
                lemma_distinct_stops(pt0, addr, b);
                let loc = walk_from(t0, 0, b, fuel);
                lemma_walk_from_props(pt0, 0, b, fuel);
                assert(t1[loc.0].ptes@[loc.1] == t0[loc.0].ptes@[loc.1]);
            }
            lemma_walk_leaf_update(pt0, t1, k0, j0, 0, addr, fuel);
            assert(t1[k0].ptes@[j0] == v);
            assert forall|b: u64| pt0.addr_ok(b) implies final(self).entry_depth(b)
                == pt0.entry_depth(b) by {
                lemma_walk_leaf_update(pt0, t1, k0, j0, 0, b, fuel);
                lemma_walk_from_props(pt0, 0, b, fuel);
            }
            assert forall|f: u64|
                !pt0.owns_frame(f) && f != child_base(v) implies !final(self).owns_frame(f) by {
                if final(self).owns_frame(f) {
                    if has_base(t1, f) {
                        let w = table_with_base(t1, f);
                        assert(t0[w].base == f);
                        assert(has_base(t0, f));
                    }
                    if exists|x: int, y: int|
                        #[trigger] data_entry(t1, x, y) && child_base(t1[x].ptes@[y]) == f {
                        let (x, y) = choose|x: int, y: int|
                            #[trigger] data_entry(t1, x, y) && child_base(t1[x].ptes@[y]) == f;
                        if !(x == k0 && y == j0) {
                            assert(t1[x].ptes@[y] == t0[x].ptes@[y]);
                            assert(data_entry(t0, x, y));
                        }
                    }
                }
            }
            if pte_is_data(v) {
                assert(data_entry(t1, k0, j0));
                assert(final(self).owns_frame(child_base(v)));
            }
        }
    }

    /// Installs a fresh, zero-filled table one level below the all-zero
    /// mid-level slot at which the walk for `addr` stops, consuming
    /// `page` as its backing frame.  No entry value changes: the walk for
    /// every address reads the same bits as before, one level deeper
    /// where it used to stop at the filled slot.
    fn fill_table_entry(&mut self, addr: u64, k: usize, j: usize, page: CleanPage4k)
        requires
            old(self).wf(),
            old(self).addr_ok(addr),
            ({
                let loc = walk_from(
                    old(self).tables@,
                    0,
                    addr,
                    old(self).mode_spec().root_depth_spec() as nat,
                );
                loc.0 == k as int && loc.1 == j as int
            }),
            old(self).entry_depth(addr) > 1,
            page.wf(),
            !old(self).owns_frame(page.addr),
        ensures
            final(self).wf(),
            final(self).mode_spec() == old(self).mode_spec(),
            final(self).root_spec() == old(self).root_spec(),
            final(self).owner_spec() == old(self).owner_spec(),
            final(self).page_tracker_spec() == old(self).page_tracker_spec(),
            final(self).entry_depth(addr) == old(self).entry_depth(addr) - 1,
            forall|b: u64|
                old(self).addr_ok(b) ==> final(self).entry_bits(b) == old(self).entry_bits(b)
                    && final(self).entry_state(b) == old(self).entry_state(b)
                    && final(self).entry_pfn(b) == old(self).entry_pfn(b),
            final(self).owns_frame(page.addr),
            forall|f: u64|
                !old(self).owns_frame(f) && f != page.addr ==> !final(self).owns_frame(f),
    {
        let ghost pt0 = *old(self);
        let ghost t0 = self.tables@;
        let ghost fuel = pt0.mode_spec().root_depth_spec() as nat;
        proof {
            assert(table_shape_wf(t0, pt0.mode_spec(), pt0.root_spec(), 0));
            lemma_walk_from_props(pt0, 0, addr, fuel);
            assert(entry_ok(t0, k as int, j as int));
        }
        let lvl = self.tables[k].level;
        let child_level = match lvl.next() {
            Some(l) => l,
            None => {
                proof {
                    assert(false);
                }
                lvl
            },
        };
        let entries = child_level.entries();
        let mut ptes: Vec<Pte> = Vec::new();
        let mut i: u64 = 0;
        while i < entries
            invariant
                i <= entries,
                ptes@.len() == i,
                forall|x: int| 0 <= x < i ==> ptes@[x].bits_spec() == 0,
            decreases entries - i,
        {
            ptes.push(Pte::zero());
            i = i + 1;
        }
        let ghost child_prefix = (t0[k as int].prefix@ << lvl.addr_width_spec()) | (j as u64);
        let tp = TablePage {
            base: page.addr,
            level: child_level,
            prefix: Ghost(child_prefix),
            ptes,
        };
        self.tables.push(tp);
        proof {
            let a = page.addr;
            assert(a < 0x100_0000_0000_0000 ==> (a >> 12) <= 0xFFF_FFFF_FFFFu64) by (bit_vector);
        }
        let pfn = page.addr >> 12;
        let mut v = Pte::zero();
        v.set(pfn, &PteFieldBits::non_leaf());
        self.tables[k].ptes[j] = v;
        proof {
            let t1 = self.tables@;
            let k0 = k as int;
            let j0 = j as int;
            let n = t0.len() as int;
            let mode = pt0.mode_spec();
            let root = pt0.root_spec();
            assert((1u64 & 0x1 != 0) && (1u64 & 0xE == 0) && (1u64 & 0x100 == 0)) by (bit_vector);
            assert(v.entry_type() == TableEntryType::Table);
            assert(v.pfn_spec() == pfn);
            let a = page.addr;
            assert(a % 4096 == 0 && a < 0x100_0000_0000_0000 ==> (a >> 12) * 4096 == a)
                by (bit_vector);
            assert(child_base(v) == page.addr);
            assert(table_filled(t0, t1, k0, j0));
            // The invariant survives: the new table is a well-shaped,
            // freshly addressed child, linked both ways with the slot it
            // fills; nothing else moved.
            assert forall|m: int|
                0 <= m < t1.len() implies table_shape_wf(t1, mode, root, m) by {
                if m < n {
                    assert(table_shape_wf(t0, mode, root, m));
                } else {
                    assert(table_shape_wf(t0, mode, root, k0));
                    assert(t1[m].level.mode == mode);
                    assert(t1[m].level.wf());
                    assert(t1[m].level.depth < mode.root_depth_spec());
                    assert(t1[m].ptes.len() == t1[m].level.entries_spec());
                    assert(frame_addr_wf(page.addr));
                    assert(!in_root_zone(root, page.addr));
                }
            }
            assert forall|m: int, x: int|
                0 <= m < t1.len() && 0 <= x < t1[m].ptes.len() implies entry_ok(t1, m, x) by {
                if m == n {
                    assert(t1[m].ptes@[x].bits_spec() == 0);
                    lemma_zero_pte_unused(t1[m].ptes@[x]);
                } else if m == k0 && x == j0 {
                    assert(1 <= n < t1.len() && t1[n].base == child_base(v) && t1[n].level.depth
                        == t1[k0].level.depth - 1 && t1[n].prefix@ == ((t1[k0].prefix@
                        << t1[k0].level.addr_width_spec()) | (j0 as u64)));
                } else {
                    assert(entry_ok(t0, m, x));
                    assert(t1[m].ptes@[x] == t0[m].ptes@[x]);
                    if t0[m].level.depth > 1 && t0[m].ptes@[x].entry_type()
                        == TableEntryType::Table {
                        let w = choose|w: int|
                            1 <= w < t0.len() && t0[w].base == child_base(t0[m].ptes@[x])
                                && t0[w].level.depth == t0[m].level.depth - 1 && t0[w].prefix@
                                == ((t0[m].prefix@ << t0[m].level.addr_width_spec()) | (
                            x as u64));
                        assert(1 <= w < t1.len() && t1[w].base == child_base(t1[m].ptes@[x])
                            && t1[w].level.depth == t1[m].level.depth - 1 && t1[w].prefix@ == ((
                        t1[m].prefix@ << t1[m].level.addr_width_spec()) | (x as u64)));
                    }
                }
            }
            assert forall|m: int| 1 <= m < t1.len() implies parent_ok(t1, m) by {
                if m == n {
                    assert(0 <= k0 < t1.len() && 0 <= j0 < t1[k0].ptes.len() && t1[k0].level.depth
                        == t1[n].level.depth + 1 && t1[k0].ptes@[j0].entry_type()
                        == TableEntryType::Table && child_base(t1[k0].ptes@[j0]) == t1[n].base);
                } else {
                    assert(parent_ok(t0, m));
                    let (pk, pj) = choose|pk: int, pj: int|
                        0 <= pk < t0.len() && 0 <= pj < t0[pk].ptes.len() && t0[pk].level.depth
                            == t0[m].level.depth + 1 && t0[pk].ptes@[pj].entry_type()
                            == TableEntryType::Table && child_base(t0[pk].ptes@[pj])
                            == t0[m].base;
                    assert(!(pk == k0 && pj == j0)) by {
                        if pk == k0 && pj == j0 {
                            lemma_zero_pte_unused(t0[k0].ptes@[j0]);
                        }
                    }
                    assert(t1[pk].ptes@[pj] == t0[pk].ptes@[pj]);
                }
            }
            assert forall|x: int, m: int|
                1 <= x < t1.len() && 1 <= m < t1.len() && x != m implies t1[x].base
                != t1[m].base by {
                if x < n && m < n {
                } else if x == n {
                    assert(t1[m].base == t0[m].base);
                    assert(t0[m].base != page.addr) by {
                        if t0[m].base == page.addr {
                            assert(has_base(t0, page.addr));
                        }
                    }
                } else {
                    assert(t1[x].base == t0[x].base);
                    assert(t0[x].base != page.addr) by {
                        if t0[x].base == page.addr {
                            assert(has_base(t0, page.addr));
                        }
                    }
                }
            }
            assert forall|x1: int, y1: int, x2: int, y2: int|
                data_entry(t1, x1, y1) && data_entry(t1, x2, y2) && !(x1 == x2 && y1 == y2)
                    implies child_base(t1[x1].ptes@[y1]) != child_base(t1[x2].ptes@[y2]) by {
                lemma_fill_data_carried(pt0, t1, k0, j0, x1, y1);
                lemma_fill_data_carried(pt0, t1, k0, j0, x2, y2);
            }
            assert forall|x: int, y: int| #[trigger]
                data_entry(t1, x, y) implies frame_addr_wf(child_base(t1[x].ptes@[y]))
                    && !in_root_zone(root, child_base(t1[x].ptes@[y])) && !has_base(
                    t1,
                    child_base(t1[x].ptes@[y]),
                ) by {
                lemma_fill_data_carried(pt0, t1, k0, j0, x, y);
                let cb = child_base(t1[x].ptes@[y]);
                assert(data_entry(t0, x, y));
                assert(pt0.owns_frame(cb));
                assert(cb != page.addr);
                assert(!has_base(t1, cb)) by {
                    if has_base(t1, cb) {
                        let w = table_with_base(t1, cb);
                        assert(1 <= w < t1.len() && t1[w].base == cb);
                        assert(w != n);
                        assert(t0[w].base == cb);
                        assert(has_base(t0, cb));
                    }
                }
            }
            assert(self.wf());
            // Every address reads the same entry bits as before; the walk
            // for `addr` itself now stops one level deeper, on a zero
            // entry of the new table.
            assert forall|b: u64| pt0.addr_ok(b) implies final(self).entry_bits(b)
                == pt0.entry_bits(b) && final(self).entry_state(b) == pt0.entry_state(b)
                && final(self).entry_pfn(b) == pt0.entry_pfn(b) by {
                lemma_walk_fill(pt0, t1, k0, j0, 0, b, fuel);
                lemma_walk_from_props(pt0, 0, b, fuel);
                let loc0 = walk_from(t0, 0, b, fuel);
                if loc0 == (k0, j0) {
                    lemma_zero_pte_unused(t0[k0].ptes@[j0]);
                    let jn = t1[n].level.index_spec(b) as int;
                    lemma_index_spec_bound(t1[n].level, b);
                    assert(t1[n].ptes@[jn].bits_spec() == 0);
                    lemma_zero_pte_unused(t1[n].ptes@[jn]);
                } else {
                    assert(t1[loc0.0].ptes@[loc0.1] == t0[loc0.0].ptes@[loc0.1]);
                }
            }
            lemma_walk_fill(pt0, t1, k0, j0, 0, addr, fuel);
            assert(final(self).entry_depth(addr) == pt0.entry_depth(addr) - 1);
            assert(final(self).owns_frame(page.addr)) by {
                assert(1 <= n < t1.len() && t1[n].base == page.addr);
                assert(has_base(t1, page.addr));
            }
            assert forall|f: u64|
                !pt0.owns_frame(f) && f != page.addr implies !final(self).owns_frame(f) by {
                if final(self).owns_frame(f) {
                    if has_base(t1, f) {
                        let w = table_with_base(t1, f);
                        assert(1 <= w < t1.len() && t1[w].base == f);
                        assert(w != n);
                        assert(t0[w].base == f);
                        assert(has_base(t0, f));
                    }
                    if exists|x: int, y: int|
                        #[trigger] data_entry(t1, x, y) && child_base(t1[x].ptes@[y]) == f {
                        let (x, y) = choose|x: int, y: int|
                            #[trigger] data_entry(t1, x, y) && child_base(t1[x].ptes@[y]) == f;
                        lemma_fill_data_carried(pt0, t1, k0, j0, x, y);
                    }
                }
            }
        }
    }

    /// Finds the non-root table with base address `base`.
    fn find_table(&self, base: u64) -> (r: usize)
        requires
            self.wf(),
            has_base(self.tables@, base),
        ensures
            1 <= r < self.tables@.len(),
            self.tables@[r as int].base == base,
            r as int == table_with_base(self.tables@, base),
    {
        let ghost t = self.tables@;
        let mut i: usize = 1;
        while i < self.tables.len()
            invariant
                self.wf(),
                has_base(t, base),
                t == self.tables@,
                1 <= i <= t.len(),
                forall|m: int| 1 <= m < i ==> t[m].base != base,
            decreases self.tables@.len() - i,
        {
            if self.tables[i].base == base {
                proof {
                    let w = table_with_base(t, base);
                    assert(1 <= w < t.len() && t[w].base == base);
                    assert(w == i);
                }
                return i;
            }
            i = i + 1;
        }
        proof {
            let w = table_with_base(t, base);
            assert(1 <= w < t.len() && t[w].base == base);
            assert(false);
        }
        0
    }

    /// The physical address of the frame held by the entry a walk for
    /// `addr` ends at.
    pub open spec fn entry_paddr(self, addr: u64) -> u64 {
        (self.entry_pfn(addr) * 4096) as u64
    }

    /// Whether a pool of blank pages can be consumed for new tables:
    /// every page usable, none owned by the hierarchy already, no two the
    /// same.
    pub open spec fn supply_fresh(self, pages: Seq<CleanPage4k>) -> bool {
        &&& forall|i: int| 0 <= i < pages.len() ==> (#[trigger] pages[i]).wf()
        &&& forall|i: int| 0 <= i < pages.len() ==> !self.owns_frame((#[trigger] pages[i]).addr)
        &&& forall|i: int, m: int|
            0 <= i < pages.len() && 0 <= m < pages.len() && i != m ==> (#[trigger] pages[i]).addr
                != (#[trigger] pages[m]).addr
    }

    /// Locks the invalid leaf entry mapping `vaddr`, filling in any
    /// missing intermediate tables from the back of `pte_pages`.  The
    /// entry must be unused or invalidated; its bits only gain the
    /// reservation bit, so the frame an invalidated entry remembers is
    /// kept.
    #[verifier::loop_isolation(false)]
    fn lock_4k_leaf_for_mapping(&mut self, vaddr: u64, pte_pages: &mut Vec<CleanPage4k>) -> (r:
        Result<()>)
        requires
            old(self).wf(),
            old(self).addr_ok(vaddr),
            old(self).supply_fresh(old(pte_pages)@),
        ensures
            final(self).wf(),
            final(self).mode_spec() == old(self).mode_spec(),
            final(self).root_spec() == old(self).root_spec(),
            final(self).owner_spec() == old(self).owner_spec(),
            final(self).page_tracker_spec() == old(self).page_tracker_spec(),
            final(pte_pages)@.len() <= old(pte_pages)@.len(),
            final(pte_pages)@ == old(pte_pages)@.take(final(pte_pages)@.len() as int),
            (r is Ok) == ((old(self).entry_state(vaddr) == TableEntryType::Unused || old(self).entry_state(vaddr) == TableEntryType::Invalidated) && old(pte_pages)@.len() >= old(self).entry_depth(vaddr) - 1),
            (r == Result::<()>::Err(Error::PteLocked)) == (old(self).entry_state(vaddr)
                == TableEntryType::Locked),
            (r == Result::<()>::Err(Error::MappingExists)) == (old(self).entry_state(vaddr)
                == TableEntryType::Leaf),
            r is Ok ==> final(self).entry_bits(vaddr) == (old(self).entry_bits(vaddr)
                | PTE_LOCKED) && final(self).entry_state(vaddr) == TableEntryType::Locked
                && final(self).entry_pfn(vaddr) == old(self).entry_pfn(vaddr) && final(self).entry_depth(vaddr) == 1 && old(pte_pages)@.len() - final(pte_pages)@.len() == old(self).entry_depth(vaddr) - 1,
            !(r is Ok) ==> final(self).entry_bits(vaddr) == old(self).entry_bits(vaddr) && final(self).entry_state(vaddr) == old(self).entry_state(vaddr) && final(self).entry_pfn(vaddr)
                == old(self).entry_pfn(vaddr),
            forall|b: u64|
                old(self).addr_ok(b) && b != vaddr ==> final(self).entry_bits(b) == old(self).entry_bits(b) && final(self).entry_state(b) == old(self).entry_state(b)
                    && final(self).entry_pfn(b) == old(self).entry_pfn(b),
            final(self).supply_fresh(final(pte_pages)@),
            forall|f: u64|
                !old(self).owns_frame(f) && !supply_contains(old(pte_pages)@, f) ==> !final(self).owns_frame(f),
    {
        let ghost pt0 = *old(self);
        let ghost supply0 = old(pte_pages)@;
        proof {
            assert(table_shape_wf(pt0.tables@, pt0.mode_spec(), pt0.root_spec(), 0));
            assert(route_prefix(pt0.mode_spec(), pt0.tables@[0].level.depth, vaddr) == 0);
            lemma_walk_from_props(pt0, 0, vaddr, pt0.mode_spec().root_depth_spec() as nat);
        }
        loop
            invariant
                self.wf(),
                self.addr_ok(vaddr),
                self.mode_spec() == pt0.mode_spec(),
                self.root_spec() == pt0.root_spec(),
                self.owner_spec() == pt0.owner_spec(),
                self.page_tracker_spec() == pt0.page_tracker_spec(),
                forall|b: u64|
                    pt0.addr_ok(b) ==> self.entry_bits(b) == pt0.entry_bits(b)
                        && self.entry_state(b) == pt0.entry_state(b) && self.entry_pfn(b)
                        == pt0.entry_pfn(b),
                self.entry_depth(vaddr) >= 1,
                pte_pages@.len() <= supply0.len(),
                pte_pages@ == supply0.take(pte_pages@.len() as int),
                supply0.len() - pte_pages@.len() == pt0.entry_depth(vaddr) - self.entry_depth(
                    vaddr,
                ),
                self.supply_fresh(pte_pages@),
                forall|f: u64|
                    !pt0.owns_frame(f) && !supply_contains(supply0, f) ==> !self.owns_frame(f),
            decreases self.entry_depth(vaddr),
        {
            let ghost pre = *self;
            let ghost sup_pre = pte_pages@;
            let (k, j) = self.walk(vaddr);
            proof {
                assert(table_shape_wf(pre.tables@, pre.mode_spec(), pre.root_spec(), 0));
                assert(route_prefix(pre.mode_spec(), pre.tables@[0].level.depth, vaddr) == 0);
                lemma_walk_from_props(pre, 0, vaddr, pre.mode_spec().root_depth_spec() as nat);
                assert(entry_ok(pre.tables@, k as int, j as int));
                lemma_entry_props(pre, vaddr);
            }
            let lvl = self.tables[k].level;
            if lvl.is_leaf() {
                let p = self.tables[k].ptes[j];
                match p.state() {
                    TableEntryType::Unused | TableEntryType::Invalidated => {
                        let mut v = p;
                        v.lock();
                        self.update_leaf_entry(vaddr, k, j, v);
                        proof {
                            assert forall|i: int|
                                0 <= i < pte_pages@.len() implies !self.owns_frame(
                                (#[trigger] pte_pages@[i]).addr,
                            ) by {
                                assert(!pre.owns_frame(pte_pages@[i].addr));
                                assert(pte_pages@[i].addr != child_base(v)) by {
                                    if p.pfn_spec() != 0 {
                                        assert(data_entry(pre.tables@, k as int, j as int));
                                        assert(pre.owns_frame(child_base(p)));
                                    } else {
                                        lemma_child_base_wf_zero(v);
                                        assert(pte_pages@[i].wf());
                                    }
                                }
                            }
                            assert forall|f: u64|
                                !pt0.owns_frame(f) && !supply_contains(supply0, f) implies !self
                                    .owns_frame(f) by {
                                assert(!pre.owns_frame(f));
                                if p.pfn_spec() != 0 {
                                    assert(data_entry(pre.tables@, k as int, j as int));
                                    assert(pre.owns_frame(child_base(p)));
                                    assert(f != child_base(v));
                                } else {
                                    lemma_child_base_wf_zero(v);
                                    if f == 0 {
                                        lemma_zero_not_owned(*self);
                                    } else {
                                        assert(f != child_base(v));
                                    }
                                }
                            }
                        }
                        return Ok(());
                    },
                    TableEntryType::Locked => {
                        return Err(Error::PteLocked);
                    },
                    TableEntryType::Leaf => {
                        return Err(Error::MappingExists);
                    },
                    TableEntryType::Table => {
                        proof {
                            assert(false);
                        }
                        return Err(Error::LeafEntryNotTable);
                    },
                }
            } else {
                let page = match pte_pages.pop() {
                    Some(page) => page,
                    None => {
                        proof {
                            assert(pte_pages@.len() == 0);
                        }
                        return Err(Error::InsufficientPtePages);
                    },
                };
                proof {
                    let n = pte_pages@.len() as int;
                    assert(page == sup_pre[n]);
                    assert(sup_pre[n] == supply0[n]);
                    assert(pte_pages@ =~= supply0.take(n));
                    assert(supply_contains(supply0, page.addr));
                }
                self.fill_table_entry(vaddr, k, j, page);
                proof {
                    assert forall|i: int|
                        0 <= i < pte_pages@.len() implies !self.owns_frame(
                        (#[trigger] pte_pages@[i]).addr,
                    ) by {
                        assert(pte_pages@[i] == supply0[i]);
                        assert(!pre.owns_frame(supply0[i].addr));
                        assert(supply0[i].addr != page.addr);
                    }
                    assert forall|f: u64|
                        !pt0.owns_frame(f) && !supply_contains(supply0, f) implies !self
                            .owns_frame(f) by {
                        assert(!pre.owns_frame(f));
                        assert(f != page.addr) by {
                            if f == page.addr {
                                assert(supply0[pte_pages@.len() as int].addr == f);
                            }
                        }
                    }
                }
            }
        }
    }

    /// Releases the reservation on the leaf entry mapping `vaddr`.  The
    /// entry returns bit for bit to what it was before it was locked: an
    /// empty reservation becomes unused, one that remembered a frame
    /// becomes invalidated again.
    fn unlock_4k_leaf(&mut self, vaddr: u64) -> (r: Result<()>)
        requires
            old(self).wf(),
            old(self).addr_ok(vaddr),
        ensures
            final(self).wf(),
            final(self).mode_spec() == old(self).mode_spec(),
            final(self).root_spec() == old(self).root_spec(),
            final(self).owner_spec() == old(self).owner_spec(),
            final(self).page_tracker_spec() == old(self).page_tracker_spec(),
            (r is Ok) == (old(self).entry_state(vaddr) == TableEntryType::Locked),
            !(r is Ok) ==> r == Result::<()>::Err(Error::PteNotLocked) && *final(self) == *old(self),
            r is Ok ==> final(self).entry_bits(vaddr) == (old(self).entry_bits(vaddr)
                & !PTE_LOCKED) && final(self).entry_pfn(vaddr) == old(self).entry_pfn(vaddr)
                && final(self).entry_state(vaddr) == (if old(self).entry_pfn(vaddr) == 0 {
                TableEntryType::Unused
            } else {
                TableEntryType::Invalidated
            }),
            forall|b: u64|
                old(self).addr_ok(b) && b != vaddr ==> final(self).entry_bits(b) == old(self).entry_bits(b) && final(self).entry_state(b) == old(self).entry_state(b)
                    && final(self).entry_pfn(b) == old(self).entry_pfn(b),
            forall|f: u64| !old(self).owns_frame(f) ==> !final(self).owns_frame(f),
    {
        let ghost pre = *old(self);
        let (k, j) = self.walk(vaddr);
        proof {
            assert(table_shape_wf(pre.tables@, pre.mode_spec(), pre.root_spec(), 0));
            assert(route_prefix(pre.mode_spec(), pre.tables@[0].level.depth, vaddr) == 0);
            lemma_walk_from_props(pre, 0, vaddr, pre.mode_spec().root_depth_spec() as nat);
            lemma_entry_props(pre, vaddr);
        }
        let p = self.tables[k].ptes[j];
        match p.state() {
            TableEntryType::Locked => {
                let mut v = p;
                v.unlock();
                self.update_leaf_entry(vaddr, k, j, v);
                proof {
                    assert forall|f: u64|
                        !pre.owns_frame(f) implies !self.owns_frame(f) by {
                        if p.pfn_spec() != 0 {
                            assert(data_entry(pre.tables@, k as int, j as int));
                            assert(pre.owns_frame(child_base(p)));
                            assert(f != child_base(v));
                        } else {
                            lemma_child_base_wf_zero(v);
                            if f == 0 {
                                lemma_zero_not_owned(*self);
                            } else {
                                assert(f != child_base(v));
                            }
                        }
                    }
                }
                Ok(())
            },
            _ => Err(Error::PteNotLocked),
        }
    }

    /// Creates a translation for `vaddr` to the data page at `paddr` with
    /// the given permissions plus the user bit.  The target entry must
    /// have been locked beforehand, and the frame must not already be
    /// held by the hierarchy.
    fn map_4k_leaf(&mut self, vaddr: u64, paddr: u64, perms: PteLeafPerms) -> (r: Result<()>)
        requires
            old(self).wf(),
            old(self).addr_ok(vaddr),
            frame_addr_wf(paddr),
            !old(self).owns_frame(paddr),
        ensures
            final(self).wf(),
            final(self).mode_spec() == old(self).mode_spec(),
            final(self).root_spec() == old(self).root_spec(),
            final(self).owner_spec() == old(self).owner_spec(),
            final(self).page_tracker_spec() == old(self).page_tracker_spec(),
            (r is Ok) == (old(self).entry_state(vaddr) == TableEntryType::Locked),
            (r == Result::<()>::Err(Error::PteNotLocked)) == (old(self).entry_state(vaddr)
                == TableEntryType::Unused || old(self).entry_state(vaddr)
                == TableEntryType::Invalidated),
            (r == Result::<()>::Err(Error::MappingExists)) == (old(self).entry_state(vaddr)
                == TableEntryType::Leaf),
            !(r is Ok) ==> *final(self) == *old(self),
            r is Ok ==> final(self).entry_state(vaddr) == TableEntryType::Leaf && final(self).entry_pfn(vaddr) == paddr / 4096 && final(self).entry_paddr(vaddr) == paddr
                && final(self).entry_bits(vaddr) == (((paddr / 4096) << PTE_PFN_SHIFT) | ((
            PTE_VALID | perms.bits_spec() | PTE_ACCESSED | PTE_DIRTY) | PTE_USER)),
            forall|b: u64|
                old(self).addr_ok(b) && b != vaddr ==> final(self).entry_bits(b) == old(self).entry_bits(b) && final(self).entry_state(b) == old(self).entry_state(b)
                    && final(self).entry_pfn(b) == old(self).entry_pfn(b),
            r is Ok ==> final(self).owns_frame(paddr),
            forall|f: u64|
                !old(self).owns_frame(f) && f != paddr ==> !final(self).owns_frame(f),
    {
        let ghost pre = *old(self);
        let (k, j) = self.walk(vaddr);
        proof {
            assert(table_shape_wf(pre.tables@, pre.mode_spec(), pre.root_spec(), 0));
            assert(route_prefix(pre.mode_spec(), pre.tables@[0].level.depth, vaddr) == 0);
            lemma_walk_from_props(pre, 0, vaddr, pre.mode_spec().root_depth_spec() as nat);
            lemma_entry_props(pre, vaddr);
        }
        let lvl = self.tables[k].level;
        let p = self.tables[k].ptes[j];
        match p.state() {
            TableEntryType::Locked => {
                if !lvl.is_leaf() {
                    // A reservation can only sit at the leaf level; a
                    // stop above it reads as unused.
                    proof {
                        assert(false);
                    }
                    return Err(Error::PageSizeNotSupported(lvl.leaf_page_size()));
                }
                let mut status = PteFieldBits::leaf_with_perms(perms);
                status.set_bit(PteFieldBit::User);
                proof {
                    let a = paddr;
                    assert(a < 0x100_0000_0000_0000 ==> (a >> 12) <= 0xFFF_FFFF_FFFFu64)
                        by (bit_vector);
                }
                let pfn = paddr / 4096;
                proof {
                    let a = paddr;
                    assert(a >> 12 == a / 4096) by (bit_vector);
                }
                let mut v = p;
                v.set(pfn, &status);
                proof {
                    let sb = status.bits_spec();
                    let pb = perms.bits_spec();
                    assert(pb == 0x2 || pb == 0x6 || pb == 0xA || pb == 0xE);
                    assert((pb == 0x2 || pb == 0x6 || pb == 0xA || pb == 0xE) && sb == ((0x1
                        | pb | 0x40 | 0x80) | 0x10) ==> (sb & 0x1 != 0) && (sb & 0xE != 0) && (
                    sb & 0x100 == 0)) by (bit_vector);
                    assert(v.entry_type() == TableEntryType::Leaf);
                    let a = paddr;
                    assert(a % 4096 == 0 && a != 0 && a < 0x100_0000_0000_0000 ==> (a / 4096)
                        != 0 && (a / 4096) * 4096 == a) by (bit_vector);
                    assert(child_base(v) == paddr);
                }
                self.update_leaf_entry(vaddr, k, j, v);
                proof {
                    assert(pte_is_data(v));
                    assert(self.owns_frame(paddr));
                }
                Ok(())
            },
            TableEntryType::Unused | TableEntryType::Invalidated => Err(Error::PteNotLocked),
            TableEntryType::Leaf => Err(Error::MappingExists),
            TableEntryType::Table => {
                proof {
                    assert(false);
                }
                Err(Error::LeafEntryNotTable)
            },
        }
    }

    /// Returns the physical address mapped by the valid leaf entry for
    /// `vaddr`, provided the mapped page is held by this hierarchy's
    /// owner with the expected memory type.
    fn get_mapped_4k_leaf(&self, vaddr: u64, mem_type: MemType) -> (r: Result<u64>)
        requires
            self.wf(),
            self.addr_ok(vaddr),
        ensures
            (r is Ok) == (self.entry_state(vaddr) == TableEntryType::Leaf
                && self.page_tracker_spec().is_mapped_page_spec(
                self.entry_paddr(vaddr),
                self.owner_spec(),
                mem_type,
            )),
            r is Ok ==> r->Ok_0 == self.entry_paddr(vaddr),
            (r == Result::<u64>::Err(Error::PageNotMapped)) == (self.entry_state(vaddr)
                != TableEntryType::Leaf),
            (r == Result::<u64>::Err(Error::PageNotUnmappable)) == (self.entry_state(vaddr)
                == TableEntryType::Leaf && !self.page_tracker_spec().is_mapped_page_spec(
                self.entry_paddr(vaddr),
                self.owner_spec(),
                mem_type,
            )),
    {
        let (k, j) = self.walk(vaddr);
        proof {
            assert(table_shape_wf(self.tables@, self.mode_spec(), self.root_spec(), 0));
            assert(route_prefix(self.mode_spec(), self.tables@[0].level.depth, vaddr) == 0);
            lemma_walk_from_props(*self, 0, vaddr, self.mode_spec().root_depth_spec() as nat);
            lemma_entry_props(*self, vaddr);
            assert(entry_ok(self.tables@, k as int, j as int));
        }
        let lvl = self.tables[k].level;
        let p = self.tables[k].ptes[j];
        match p.state() {
            TableEntryType::Leaf => {
                if !lvl.is_leaf() {
                    // A valid leaf above the bottom level would be a huge
                    // mapping, which the hierarchy never creates.
                    proof {
                        assert(false);
                    }
                    return Err(Error::PageSizeNotSupported(lvl.leaf_page_size()));
                }
                proof {
                    lemma_child_base_wf(p);
                }
                let paddr = p.pfn() * 4096;
                if self.page_tracker.is_mapped_page(paddr, self.owner, mem_type) {
                    Ok(paddr)
                } else {
                    Err(Error::PageNotUnmappable)
                }
            },
            _ => Err(Error::PageNotMapped),
        }
    }

    /// Returns the physical address remembered by the invalidated leaf
    /// entry for `vaddr`, provided the tracker reports the frame as
    /// converted at a TLB version strictly older than `tlb_version`.
    fn get_converted_4k_leaf(&self, vaddr: u64, mem_type: MemType, tlb_version: TlbVersion) -> (r:
        Result<u64>)
        requires
            self.wf(),
            self.addr_ok(vaddr),
        ensures
            (r is Ok) == (self.entry_state(vaddr) == TableEntryType::Invalidated
                && self.page_tracker_spec().is_converted_page_spec(
                self.entry_paddr(vaddr),
                self.owner_spec(),
                mem_type,
                tlb_version,
            )),
            r is Ok ==> r->Ok_0 == self.entry_paddr(vaddr),
            r is Err ==> r == Result::<u64>::Err(Error::PageNotConverted),
    {
        let (k, j) = self.walk(vaddr);
        proof {
            assert(table_shape_wf(self.tables@, self.mode_spec(), self.root_spec(), 0));
            assert(route_prefix(self.mode_spec(), self.tables@[0].level.depth, vaddr) == 0);
            lemma_walk_from_props(*self, 0, vaddr, self.mode_spec().root_depth_spec() as nat);
            lemma_entry_props(*self, vaddr);
            assert(entry_ok(self.tables@, k as int, j as int));
        }
        let lvl = self.tables[k].level;
        let p = self.tables[k].ptes[j];
        match p.state() {
            TableEntryType::Invalidated => {
                if !lvl.is_leaf() {
                    // An invalidated entry can only sit at the leaf
                    // level; a stop above it reads as unused.
                    proof {
                        assert(false);
                    }
                    return Err(Error::PageNotConverted);
                }
                proof {
                    lemma_child_base_wf(p);
                }
                let paddr = p.pfn() * 4096;
                if self.page_tracker.is_converted_page(paddr, self.owner, mem_type, tlb_version) {
                    Ok(paddr)
                } else {
                    Err(Error::PageNotConverted)
                }
            },
            _ => Err(Error::PageNotConverted),
        }
    }

    /// Creates a new page table hierarchy from the provided `root` pages,
    /// which must be 4 KiB pages, aligned as the mode requires, and at
    /// least as many as the mode's root table occupies.  On failure the
    /// root pages are returned inside the error so the caller can reuse
    /// the allocation.  On success every translatable address reads as
    /// unused and the hierarchy owns exactly the root pages.
    pub fn new(
        mode: PagingMode,
        root: SequentialPages,
        owner: PageOwnerId,
        page_tracker: PageTracker,
    ) -> (r: Result<PlatformPageTable>)
        requires
            root.wf(),
            page_tracker.wf(),
        ensures
            match r {
                Ok(pt) => {
                    &&& !root.page_size_spec().is_huge_spec()
                    &&& root.base_spec() % mode.top_level_align_spec() == 0
                    &&& root.len_spec() >= mode.root_level_spec().table_pages_spec()
                    &&& pt.wf()
                    &&& pt.mode_spec() == mode
                    &&& pt.owner_spec() == owner
                    &&& pt.root_spec() == root
                    &&& pt.page_tracker_spec() == page_tracker
                    &&& forall|a: u64|
                        pt.addr_ok(a) ==> pt.entry_state(a) == TableEntryType::Unused
                            && pt.entry_bits(a) == 0
                    &&& forall|a: u64|
                        pt.owns_frame(a) <==> root.base_spec() <= a < root.base_spec()
                            + root.len_spec() * 4096
                },
                Err(Error::PageSizeNotSupported(s)) => root.page_size_spec().is_huge_spec() && s
                    == root.page_size_spec(),
                Err(Error::MisalignedPages(rt)) => {
                    &&& !root.page_size_spec().is_huge_spec()
                    &&& root.base_spec() % mode.top_level_align_spec() != 0
                    &&& rt == root
                },
                Err(Error::InsufficientPages(rt)) => {
                    &&& !root.page_size_spec().is_huge_spec()
                    &&& root.base_spec() % mode.top_level_align_spec() == 0
                    &&& root.len_spec() < mode.root_level_spec().table_pages_spec()
                    &&& rt == root
                },
                _ => false,
            },
    {
        if root.page_size().is_huge() {
            return Err(Error::PageSizeNotSupported(root.page_size()));
        }
        if root.base() % mode.top_level_align() != 0 {
            return Err(Error::MisalignedPages(root));
        }
        let lvl = mode.root_level();
        if root.len() < lvl.table_pages() {
            return Err(Error::InsufficientPages(root));
        }
        let entries = lvl.entries();
        let mut ptes: Vec<Pte> = Vec::new();
        let mut i: u64 = 0;
        while i < entries
            invariant
                i <= entries,
                ptes@.len() == i,
                forall|j: int| 0 <= j < i ==> ptes@[j].bits_spec() == 0,
            decreases entries - i,
        {
            ptes.push(Pte::zero());
            i = i + 1;
        }
        let tp = TablePage { base: root.base(), level: lvl, prefix: Ghost(0), ptes };
        let mut tables: Vec<TablePage> = Vec::new();
        tables.push(tp);
        let pt = PlatformPageTable { mode, root, owner, page_tracker, tables };
        proof {
            let t = pt.tables@;
            assert forall|k: int, j: int|
                0 <= k < t.len() && 0 <= j < t[k].ptes.len() implies entry_ok(t, k, j) by {
                assert(t[k].ptes@[j].bits_spec() == 0);
                lemma_zero_pte_unused(t[k].ptes@[j]);
                assert(t[k].level.depth > 1);
            }
            assert(pt.wf());
            assert forall|a: u64| pt.addr_ok(a) implies pt.entry_state(a)
                == TableEntryType::Unused && pt.entry_bits(a) == 0 by {
                lemma_entry_props(pt, a);
                let loc = walk_from(t, 0, a, mode.root_depth_spec() as nat);
                lemma_walk_from_props(pt, 0, a, mode.root_depth_spec() as nat);
                assert(t[loc.0].level.depth > 1);
            }
            assert forall|a: u64| pt.owns_frame(a) <==> root.base_spec() <= a < root.base_spec()
                + root.len_spec() * 4096 by {
                if pt.owns_frame(a) && !in_root_zone(root, a) {
                    assert(!has_base(t, a));
                    if exists|k: int, j: int|
                        #[trigger] data_entry(t, k, j) && child_base(t[k].ptes@[j]) == a {
                        let (k, j) = choose|k: int, j: int|
                            #[trigger] data_entry(t, k, j) && child_base(t[k].ptes@[j]) == a;
                        assert(t[k].level.depth > 1);
                        assert(false);
                    }
                }
            }
        }
        Ok(pt)
    }

    /// Returns a reference to the hierarchy's page tracker.
    pub fn page_tracker(&self) -> (r: &PageTracker)
        ensures
            *r == self.page_tracker_spec(),
    {
        &self.page_tracker
    }

    /// Returns a mutable reference to the hierarchy's page tracker, so the
    /// surrounding system can donate, convert and reclaim frames.  The
    /// tables are untouched; the hierarchy stays well formed as long as
    /// the tracker does.
    pub fn page_tracker_mut(&mut self) -> (r: &mut PageTracker)
        ensures
            *r == old(self).page_tracker_spec(),
            final(self).page_tracker_spec() == *final(r),
            final(self).mode_spec() == old(self).mode_spec(),
            final(self).owner_spec() == old(self).owner_spec(),
            final(self).root_spec() == old(self).root_spec(),
            forall|a: u64| final(self).entry_bits(a) == old(self).entry_bits(a),
            forall|a: u64| final(self).entry_state(a) == old(self).entry_state(a),
            forall|a: u64| final(self).entry_pfn(a) == old(self).entry_pfn(a),
            forall|a: u64| final(self).entry_at_leaf_level(a) == old(self).entry_at_leaf_level(a),
            forall|a: u64| final(self).owns_frame(a) == old(self).owns_frame(a),
            old(self).wf() && final(r).wf() ==> final(self).wf(),
    {
        &mut self.page_tracker
    }

    /// Returns the owner id for this page table.
    pub fn page_owner_id(&self) -> (r: PageOwnerId)
        ensures
            r == self.owner_spec(),
    {
        self.owner
    }

    /// Returns the address of the top level page table, whose frame
    /// number is what a `satp` or `hgatp` register value is built from.
    pub fn get_root_address(&self) -> (r: u64)
        ensures
            r == self.root_spec().base_spec(),
    {
        self.root.base()
    }

    /// Handles a fault from the owner of this page table.  The engine
    /// takes no page faults on demand, so the fault is never handled; the
    /// hook exists so callers can promote later without breaking.
    pub fn do_fault(&self, addr: u64) -> (r: bool)
        ensures
            r == false,
    {
        let _ = addr;
        false
    }

    /// Walks the hierarchy for `addr` until an entry that is not a
    /// pointer is encountered, returning the table and entry indices of
    /// the stopping slot.
    fn walk(&self, addr: u64) -> (r: (usize, usize))
        requires
            self.wf(),
            self.addr_ok(addr),
        ensures
            ({
                let loc = walk_from(
                    self.tables@,
                    0,
                    addr,
                    self.mode_spec().root_depth_spec() as nat,
                );
                r.0 as int == loc.0 && r.1 as int == loc.1
            }),
    {
        let ghost t = self.tables@;
        let ghost root_fuel = self.mode_spec().root_depth_spec() as nat;
        let mut k: usize = 0;
        proof {
            assert(table_shape_wf(t, self.mode, self.root, 0));
        }
        loop
            invariant
                self.wf(),
                self.addr_ok(addr),
                t == self.tables@,
                root_fuel == self.mode_spec().root_depth_spec() as nat,
                0 <= k < t.len(),
                t[k as int].prefix@ == route_prefix(
                    self.mode_spec(),
                    t[k as int].level.depth,
                    addr,
                ),
                walk_from(t, 0, addr, root_fuel) == walk_from(
                    t,
                    k as int,
                    addr,
                    t[k as int].level.depth as nat,
                ),
            decreases t[k as int].level.depth,
        {
            proof {
                assert(table_shape_wf(t, self.mode, self.root, k as int));
            }
            let lvl = self.tables[k].level;
            let j = lvl.index_of(addr);
            let p = self.tables[k].ptes[j as usize];
            proof {
                assert(entry_ok(t, k as int, j as int));
            }
            if !lvl.is_leaf() && p.valid() && !p.leaf() {
                proof {
                    lemma_pfn_bound(p);
                }
                let base = p.pfn() * 4096;
                proof {
                    let m = choose|m: int|
                        1 <= m < t.len() && t[m].base == child_base(p) && t[m].level.depth
                            == lvl.depth - 1 && t[m].prefix@ == ((t[k as int].prefix@
                            << lvl.addr_width_spec()) | (j as u64));
                    assert(t[m].base == base);
                    assert(has_base(t, base));
                }
                let c = self.find_table(base);
                proof {
                    let m = choose|m: int|
                        1 <= m < t.len() && t[m].base == child_base(p) && t[m].level.depth
                            == lvl.depth - 1 && t[m].prefix@ == ((t[k as int].prefix@
                            << lvl.addr_width_spec()) | (j as u64));
                    assert(c as int == m);
                    lemma_route_prefix_extend(lvl, addr);
                }
                k = c;
            } else {
                return (k, j as usize);
            }
        }
    }
}

impl PlatformPageTable {
    /// Prepares for mapping `num_pages` pages of size `page_size`
    /// starting at `addr` by locking the target leaf entries, filling in
    /// any missing intermediate tables from the back of `get_pte_page`.
    /// Every entry in the range must be unused or invalidated.  On
    /// success the returned mapper reserves exactly the range; on any
    /// failure every locked entry is unlocked again and the range reads
    /// bit for bit as before, though blank pages consumed for new tables
    /// stay in place.
    #[verifier::loop_isolation(false)]
    pub fn map_range(
        &mut self,
        addr: u64,
        page_size: PageSize,
        num_pages: u64,
        get_pte_page: &mut Vec<CleanPage4k>,
    ) -> (r: Result<PageTableMapper>)
        requires
            old(self).wf(),
            addr % 4096 == 0,
            addr + num_pages * 4096 <= old(self).mode_spec().addr_span_spec(),
            old(self).supply_fresh(old(get_pte_page)@),
        ensures
            final(self).wf(),
            final(self).mode_spec() == old(self).mode_spec(),
            final(self).root_spec() == old(self).root_spec(),
            final(self).owner_spec() == old(self).owner_spec(),
            final(self).page_tracker_spec() == old(self).page_tracker_spec(),
            page_size.is_huge_spec() ==> r == Result::<PageTableMapper>::Err(
                Error::PageSizeNotSupported(page_size),
            ) && *final(self) == *old(self) && *final(get_pte_page) == *old(get_pte_page),
            r is Ok ==> r->Ok_0.vaddr_spec() == addr && r->Ok_0.num_pages_spec() == num_pages
                && r->Ok_0.wf_for(*final(self)),
            r is Ok ==> forall|b: u64|
                old(self).addr_ok(b) && addr <= b < addr + num_pages * 4096 ==> (old(self).entry_state(b) == TableEntryType::Unused || old(self).entry_state(b)
                    == TableEntryType::Invalidated) && final(self).entry_bits(b) == (old(self).entry_bits(b) | PTE_LOCKED) && final(self).entry_state(b)
                    == TableEntryType::Locked && final(self).entry_pfn(b) == old(self).entry_pfn(b),
            r is Err ==> forall|b: u64|
                old(self).addr_ok(b) ==> final(self).entry_bits(b) == old(self).entry_bits(b)
                    && final(self).entry_state(b) == old(self).entry_state(b) && final(self).entry_pfn(b) == old(self).entry_pfn(b),
            forall|b: u64|
                old(self).addr_ok(b) && !(addr <= b < addr + num_pages * 4096) ==> final(self).entry_bits(b) == old(self).entry_bits(b) && final(self).entry_state(b) == old(self).entry_state(b) && final(self).entry_pfn(b) == old(self).entry_pfn(b),
            !page_size.is_huge_spec() && (forall|b: u64|
                old(self).addr_ok(b) && addr <= b < addr + num_pages * 4096 ==> (old(self).entry_state(b) == TableEntryType::Unused || old(self).entry_state(b)
                    == TableEntryType::Invalidated)) && old(get_pte_page)@.len() >= num_pages * (
            old(self).mode_spec().root_depth_spec() - 1) ==> r is Ok,
            r == Result::<PageTableMapper>::Err(Error::PteLocked) ==> exists|b: u64|
                old(self).addr_ok(b) && addr <= b < addr + num_pages * 4096 && old(self).entry_state(b) == TableEntryType::Locked,
            r == Result::<PageTableMapper>::Err(Error::MappingExists) ==> exists|b: u64|
                old(self).addr_ok(b) && addr <= b < addr + num_pages * 4096 && old(self).entry_state(b) == TableEntryType::Leaf,
            final(get_pte_page)@.len() <= old(get_pte_page)@.len(),
            final(get_pte_page)@ == old(get_pte_page)@.take(final(get_pte_page)@.len() as int),
            final(self).supply_fresh(final(get_pte_page)@),
            forall|f: u64|
                !old(self).owns_frame(f) && !supply_contains(old(get_pte_page)@, f) ==> !final(self).owns_frame(f),
    {
        if page_size.is_huge() {
            return Err(Error::PageSizeNotSupported(page_size));
        }
        let ghost pt0 = *old(self);
        let ghost supply0 = old(get_pte_page)@;
        let ghost rd = pt0.mode_spec().root_depth_spec();
        let mut i: u64 = 0;
        while i < num_pages
            invariant
                self.wf(),
                i <= num_pages,
                self.mode_spec() == pt0.mode_spec(),
                self.root_spec() == pt0.root_spec(),
                self.owner_spec() == pt0.owner_spec(),
                self.page_tracker_spec() == pt0.page_tracker_spec(),
                forall|b: u64|
                    pt0.addr_ok(b) && addr <= b < addr + i * 4096 ==> (pt0.entry_state(b)
                        == TableEntryType::Unused || pt0.entry_state(b)
                        == TableEntryType::Invalidated) && self.entry_bits(b) == (pt0.entry_bits(
                        b,
                    ) | PTE_LOCKED) && self.entry_state(b) == TableEntryType::Locked
                        && self.entry_pfn(b) == pt0.entry_pfn(b),
                forall|b: u64|
                    pt0.addr_ok(b) && !(addr <= b < addr + i * 4096) ==> self.entry_bits(b)
                        == pt0.entry_bits(b) && self.entry_state(b) == pt0.entry_state(b)
                        && self.entry_pfn(b) == pt0.entry_pfn(b),
                get_pte_page@.len() <= supply0.len(),
                get_pte_page@ == supply0.take(get_pte_page@.len() as int),
                supply0.len() - get_pte_page@.len() <= i * (rd - 1),
                self.supply_fresh(get_pte_page@),
                forall|f: u64|
                    !pt0.owns_frame(f) && !supply_contains(supply0, f) ==> !self.owns_frame(f),
            decreases num_pages - i,
        {
            proof {
                let ii = i as int;
                let n = num_pages as int;
                assert(ii < n ==> ii * 4096 < n * 4096 && (ii + 1) * 4096 <= n * 4096)
                    by (nonlinear_arith);
                assert((addr + ii * 4096) % 4096 == 0) by (nonlinear_arith)
                    requires
                        addr % 4096 == 0,
                        ii >= 0,
                ;
            }
            let a = addr + i * 4096;
            let ghost pre = *self;
            let ghost sup_pre = get_pte_page@;
            let res = self.lock_4k_leaf_for_mapping(a, get_pte_page);
            match res {
                Ok(()) => {
                    proof {
                        // Chain the supply prefix and the consumption
                        // bound through this iteration.
                        assert(get_pte_page@ =~= supply0.take(get_pte_page@.len() as int));
                        let consumed = sup_pre.len() - get_pte_page@.len();
                        assert(consumed == pre.entry_depth(a) - 1);
                        assert(table_shape_wf(pre.tables@, pre.mode_spec(), pre.root_spec(), 0));
                        assert(route_prefix(pre.mode_spec(), pre.tables@[0].level.depth, a) == 0);
                        lemma_walk_from_props(pre, 0, a, rd as nat);
                        assert(pre.entry_depth(a) <= rd);
                        let ii = i as int;
                        let s0 = supply0.len() as int;
                        let s1 = sup_pre.len() as int;
                        let s2 = get_pte_page@.len() as int;
                        let r1 = rd as int - 1;
                        assert(s1 - s2 <= r1);
                        assert(s0 - s1 <= ii * r1 && s1 - s2 <= r1 && r1 >= 0 && ii >= 0 ==> s0
                            - s2 <= (ii + 1) * r1) by (nonlinear_arith);
                        assert forall|b: u64|
                            pt0.addr_ok(b) && addr <= b < addr + (i + 1) * 4096 implies (
                        pt0.entry_state(b) == TableEntryType::Unused || pt0.entry_state(b)
                            == TableEntryType::Invalidated) && self.entry_bits(b) == (
                        pt0.entry_bits(b) | PTE_LOCKED) && self.entry_state(b)
                            == TableEntryType::Locked && self.entry_pfn(b) == pt0.entry_pfn(
                            b,
                        ) by {
                            if b != a {
                                assert(addr <= b < addr + i as int * 4096);
                            }
                        }
                    }
                    i = i + 1;
                },
                Err(e) => {
                    proof {
                        assert(!(pt0.entry_state(a) == TableEntryType::Unused
                            || pt0.entry_state(a) == TableEntryType::Invalidated)
                            || sup_pre.len() < pre.entry_depth(a) - 1);
                        lemma_entry_props(pre, a);
                        assert(table_shape_wf(pre.tables@, pre.mode_spec(), pre.root_spec(), 0));
                        assert(route_prefix(pre.mode_spec(), pre.tables@[0].level.depth, a)
                            == 0);
                        lemma_walk_from_props(pre, 0, a, rd as nat);
                        assert(pre.entry_depth(a) <= rd);
                        // Under a generous supply and a clear range, this
                        // failure cannot happen.
                        if (forall|b: u64|
                            pt0.addr_ok(b) && addr <= b < addr + num_pages * 4096 ==> (
                            pt0.entry_state(b) == TableEntryType::Unused || pt0.entry_state(b)
                                == TableEntryType::Invalidated)) && supply0.len() >= num_pages
                            * (rd - 1) {
                            assert(pt0.entry_state(a) == TableEntryType::Unused
                                || pt0.entry_state(a) == TableEntryType::Invalidated);
                            let ii = i as int;
                            let n = num_pages as int;
                            let r1 = rd as int - 1;
                            assert(supply0.len() - sup_pre.len() <= ii * r1 && supply0.len() >= n
                                * r1 && ii < n && r1 >= 0 ==> sup_pre.len() >= r1)
                                by (nonlinear_arith);
                            assert(false);
                        }
                    }
                // Unlock the entries already reserved, restoring them bit
                // for bit: a reservation only ever set the one bit.
                let ghost mid = *self;
                let ghost locked_hi = i;
                let mut m: u64 = 0;
                while m < i
                    invariant
                        self.wf(),
                        m <= i <= num_pages,
                        self.mode_spec() == pt0.mode_spec(),
                        self.root_spec() == pt0.root_spec(),
                        self.owner_spec() == pt0.owner_spec(),
                        self.page_tracker_spec() == pt0.page_tracker_spec(),
                        forall|b: u64|
                            pt0.addr_ok(b) && addr <= b < addr + m * 4096 ==> self.entry_bits(b)
                                == pt0.entry_bits(b) && self.entry_state(b) == pt0.entry_state(b)
                                && self.entry_pfn(b) == pt0.entry_pfn(b),
                        forall|b: u64|
                            pt0.addr_ok(b) && addr + m * 4096 <= b < addr + locked_hi * 4096
                                ==> mid.entry_bits(b) == (pt0.entry_bits(b) | PTE_LOCKED) && (
                            pt0.entry_state(b) == TableEntryType::Unused || pt0.entry_state(b)
                                == TableEntryType::Invalidated) && self.entry_bits(b)
                                == mid.entry_bits(b) && self.entry_state(b) == mid.entry_state(b)
                                && self.entry_pfn(b) == mid.entry_pfn(b),
                        forall|b: u64|
                            pt0.addr_ok(b) && !(addr <= b < addr + locked_hi * 4096)
                                ==> self.entry_bits(b) == pt0.entry_bits(b) && self.entry_state(
                                b,
                            ) == pt0.entry_state(b) && self.entry_pfn(b) == pt0.entry_pfn(b),
                        forall|f: u64|
                            !pt0.owns_frame(f) && !supply_contains(supply0, f)
                                ==> !self.owns_frame(f),
                        get_pte_page@.len() <= supply0.len(),
                        get_pte_page@ == supply0.take(get_pte_page@.len() as int),
                        self.supply_fresh(get_pte_page@),
                    decreases i - m,
                {
                    proof {
                        let mm = m as int;
                        let n = num_pages as int;
                        let hi = locked_hi as int;
                        assert(mm < hi <= n ==> mm * 4096 < hi * 4096 && (mm + 1) * 4096 <= hi
                            * 4096 && hi * 4096 <= n * 4096) by (nonlinear_arith);
                        assert((addr + mm * 4096) % 4096 == 0) by (nonlinear_arith)
                            requires
                                addr % 4096 == 0,
                                mm >= 0,
                        ;
                    }
                    let a = addr + m * 4096;
                    proof {
                        // The entry is still as the locking pass left it:
                        // the original bits with only the reservation bit
                        // added, which classifies as locked.
                        let b0 = pt0.entry_bits(a);
                        assert(b0 & 0x100 == 0 ==> ((b0 | 0x100) & 0x100 != 0) && ((b0 | 0x100)
                            & 0x1 == b0 & 0x1) && ((b0 | 0x100) & !0x100 == b0)) by (bit_vector);
                        assert(!pt0.entry_pte_spec(a).locked_spec() && !pt0.entry_pte_spec(
                            a,
                        ).valid_spec());
                        assert(self.entry_state(a) == TableEntryType::Locked) by {
                            assert(self.entry_bits(a) == (b0 | PTE_LOCKED));
                            assert(self.entry_pte_spec(a).bits_spec() == (b0 | 0x100));
                            assert((b0 | 0x100) & 0x100 != 0 && (b0 | 0x100) & 0x1 == b0 & 0x1)
                                by (bit_vector);
                        }
                    }
                    let res2 = self.unlock_4k_leaf(a);
                    proof {
                        assert(res2 is Ok);
                        let b0 = pt0.entry_bits(a);
                        assert(b0 & 0x100 == 0 ==> ((b0 | 0x100) & !0x100 == b0))
                            by (bit_vector);
                        assert(self.entry_bits(a) == pt0.entry_bits(a));
                        assert(self.entry_state(a) == pt0.entry_state(a)) by {
                            assert(self.entry_pte_spec(a).bits_spec() == pt0.entry_pte_spec(
                                a,
                            ).bits_spec());
                        }
                        assert forall|b: u64|
                            pt0.addr_ok(b) && addr <= b < addr + (m + 1) * 4096 implies self
                            .entry_bits(b) == pt0.entry_bits(b) && self.entry_state(b)
                            == pt0.entry_state(b) && self.entry_pfn(b) == pt0.entry_pfn(b) by {
                            if b != a {
                                assert(addr <= b < addr + m as int * 4096);
                            }
                        }
                    }
                    m = m + 1;
                }
                return Err(e);
                },
            }
        }
        proof {
            assert forall|b: u64|
                pt0.addr_ok(b) && addr <= b < addr + num_pages * 4096 implies addr <= b < addr
                + i as int * 4096 by {}
        }
        Ok(PageTableMapper::new(addr, num_pages))
    }
}

/// An address of the `x`-th page of an aligned, translatable range is
/// itself aligned and translatable.
proof fn lemma_range_addr_ok(pt: PlatformPageTable, addr: u64, num_pages: u64, x: int)
    requires
        addr % 4096 == 0,
        addr + num_pages * 4096 <= pt.mode_spec().addr_span_spec(),
        0 <= x < num_pages,
    ensures
        pt.addr_ok((addr + x * 4096) as u64),
        addr <= ((addr + x * 4096) as u64) < addr + num_pages * 4096,
        ((addr + x * 4096) as u64) == addr + x * 4096,
{
    let n = num_pages as int;
    assert(0 <= x < n ==> x * 4096 < n * 4096 && (x + 1) * 4096 <= n * 4096)
        by (nonlinear_arith);
    assert((addr + x * 4096) % 4096 == 0) by (nonlinear_arith)
        requires
            addr % 4096 == 0,
            x >= 0,
    ;
}

/// Two distinct invalidated mappings never remember the same frame.
proof fn lemma_distinct_invalidated_frames(pt: PlatformPageTable, a: u64, b: u64)
    requires
        pt.wf(),
        pt.addr_ok(a),
        pt.addr_ok(b),
        a != b,
        pt.entry_state(a) == TableEntryType::Invalidated,
        pt.entry_state(b) == TableEntryType::Invalidated,
    ensures
        pt.entry_paddr(a) != pt.entry_paddr(b),
{
    let t = pt.tables@;
    let fuel = pt.mode_spec().root_depth_spec() as nat;
    assert(table_shape_wf(t, pt.mode_spec(), pt.root_spec(), 0));
    assert(route_prefix(pt.mode_spec(), t[0].level.depth, a) == 0);
    assert(route_prefix(pt.mode_spec(), t[0].level.depth, b) == 0);
    lemma_walk_from_props(pt, 0, a, fuel);
    lemma_walk_from_props(pt, 0, b, fuel);
    lemma_entry_props(pt, a);
    lemma_entry_props(pt, b);
    lemma_distinct_stops(pt, a, b);
    let la = walk_from(t, 0, a, fuel);
    let lb = walk_from(t, 0, b, fuel);
    assert(data_entry(t, la.0, la.1));
    assert(data_entry(t, lb.0, lb.1));
    assert(child_base(t[la.0].ptes@[la.1]) != child_base(t[lb.0].ptes@[lb.1]));
}

impl PlatformPageTable {
    /// Whether the 4 KiB page at `vaddr` can be unmapped: it is mapped by
    /// a valid leaf whose frame the tracker holds as mapped for this
    /// hierarchy's owner with the expected memory type.
    pub open spec fn is_unmappable(self, vaddr: u64, mem_type: MemType) -> bool {
        &&& self.entry_state(vaddr) == TableEntryType::Leaf
        &&& self.page_tracker_spec().is_mapped_page_spec(
            self.entry_paddr(vaddr),
            self.owner_spec(),
            mem_type,
        )
    }

    /// Whether the 4 KiB page at `vaddr` is held as converted: its entry
    /// is invalidated and the tracker reports the remembered frame as
    /// converted at a TLB version strictly older than `tlb_version`.
    pub open spec fn is_converted_leaf(
        self,
        vaddr: u64,
        mem_type: MemType,
        tlb_version: TlbVersion,
    ) -> bool {
        &&& self.entry_state(vaddr) == TableEntryType::Invalidated
        &&& self.page_tracker_spec().is_converted_page_spec(
            self.entry_paddr(vaddr),
            self.owner_spec(),
            mem_type,
            tlb_version,
        )
    }

    /// Invalidates every 4 KiB mapping in the range and returns the freed
    /// frames in range order.  The operation is all or nothing: a first
    /// read-only pass verifies that every entry is an unmappable leaf,
    /// and only then does a second pass clear the valid bits, so a
    /// failure leaves the hierarchy untouched.
    #[verifier::loop_isolation(false)]
    pub fn invalidate_range(
        &mut self,
        addr: u64,
        page_size: PageSize,
        num_pages: u64,
        mem_type: MemType,
    ) -> (r: Result<PageList>)
        requires
            old(self).wf(),
            addr % 4096 == 0,
            addr + num_pages * 4096 <= old(self).mode_spec().addr_span_spec(),
        ensures
            final(self).wf(),
            final(self).mode_spec() == old(self).mode_spec(),
            final(self).root_spec() == old(self).root_spec(),
            final(self).owner_spec() == old(self).owner_spec(),
            final(self).page_tracker_spec() == old(self).page_tracker_spec(),
            page_size.is_huge_spec() ==> r == Result::<PageList>::Err(Error::PageSizeNotSupported(
                page_size,
            )) && *final(self) == *old(self),
            !page_size.is_huge_spec() ==> (r is Ok) == (forall|b: u64|
                old(self).addr_ok(b) && addr <= b < addr + num_pages * 4096 ==> old(self).is_unmappable(b, mem_type)),
            !page_size.is_huge_spec() && r is Err ==> r == Result::<PageList>::Err(
                Error::PageNotUnmappable,
            ) && *final(self) == *old(self),
            r is Ok ==> r->Ok_0@.len() == num_pages && r->Ok_0.mem_type == mem_type && (forall|
                i: int,
            |
                0 <= i < num_pages ==> r->Ok_0@[i] == old(self).entry_paddr(
                    (addr + i * 4096) as u64,
                )),
            r is Ok ==> forall|b: u64|
                old(self).addr_ok(b) && addr <= b < addr + num_pages * 4096 ==> final(self).entry_bits(b) == (old(self).entry_bits(b) & !PTE_VALID) && final(self).entry_state(b) == TableEntryType::Invalidated && final(self).entry_pfn(b)
                    == old(self).entry_pfn(b),
            forall|b: u64|
                old(self).addr_ok(b) && !(addr <= b < addr + num_pages * 4096) ==> final(self).entry_bits(b) == old(self).entry_bits(b) && final(self).entry_state(b) == old(self).entry_state(b) && final(self).entry_pfn(b) == old(self).entry_pfn(b),
            forall|f: u64| !old(self).owns_frame(f) ==> !final(self).owns_frame(f),
    {
        if page_size.is_huge() {
            return Err(Error::PageSizeNotSupported(page_size));
        }
        let ghost pt0 = *old(self);
        // First make sure the entire range can be unmapped before
        // invalidating anything.
        let mut i: u64 = 0;
        while i < num_pages
            invariant
                i <= num_pages,
                forall|b: u64|
                    pt0.addr_ok(b) && addr <= b < addr + i * 4096 ==> pt0.is_unmappable(
                        b,
                        mem_type,
                    ),
            decreases num_pages - i,
        {
            proof {
                let ii = i as int;
                let n = num_pages as int;
                assert(ii < n ==> ii * 4096 < n * 4096 && (ii + 1) * 4096 <= n * 4096)
                    by (nonlinear_arith);
                assert((addr + ii * 4096) % 4096 == 0) by (nonlinear_arith)
                    requires
                        addr % 4096 == 0,
                        ii >= 0,
                ;
            }
            let a = addr + i * 4096;
            if self.get_mapped_4k_leaf(a, mem_type).is_err() {
                proof {
                    assert(pt0.addr_ok(a) && addr <= a < addr + num_pages * 4096
                        && !pt0.is_unmappable(a, mem_type));
                }
                return Err(Error::PageNotUnmappable);
            }
            proof {
                assert forall|b: u64|
                    pt0.addr_ok(b) && addr <= b < addr + (i + 1) * 4096 implies pt0.is_unmappable(
                    b,
                    mem_type,
                ) by {
                    if b != a {
                        assert(addr <= b < addr + i as int * 4096);
                    }
                }
            }
            i = i + 1;
        }
        // Now invalidate each entry, collecting the freed frames.
        let mut pages: Vec<u64> = Vec::new();
        let mut m: u64 = 0;
        while m < num_pages
            invariant
                self.wf(),
                m <= num_pages,
                self.mode_spec() == pt0.mode_spec(),
                self.root_spec() == pt0.root_spec(),
                self.owner_spec() == pt0.owner_spec(),
                self.page_tracker_spec() == pt0.page_tracker_spec(),
                forall|b: u64|
                    pt0.addr_ok(b) && addr <= b < addr + num_pages * 4096 ==> pt0.is_unmappable(
                        b,
                        mem_type,
                    ),
                pages@.len() == m,
                forall|x: int|
                    0 <= x < m ==> pages@[x] == pt0.entry_paddr((addr + x * 4096) as u64),
                forall|b: u64|
                    pt0.addr_ok(b) && addr <= b < addr + m * 4096 ==> self.entry_bits(b) == (
                    pt0.entry_bits(b) & !PTE_VALID) && self.entry_state(b)
                        == TableEntryType::Invalidated && self.entry_pfn(b) == pt0.entry_pfn(b),
                forall|b: u64|
                    pt0.addr_ok(b) && !(addr <= b < addr + m * 4096) ==> self.entry_bits(b)
                        == pt0.entry_bits(b) && self.entry_state(b) == pt0.entry_state(b)
                        && self.entry_pfn(b) == pt0.entry_pfn(b),
                forall|f: u64| !pt0.owns_frame(f) ==> !self.owns_frame(f),
            decreases num_pages - m,
        {
            proof {
                let mm = m as int;
                let n = num_pages as int;
                assert(mm < n ==> mm * 4096 < n * 4096 && (mm + 1) * 4096 <= n * 4096)
                    by (nonlinear_arith);
                assert((addr + mm * 4096) % 4096 == 0) by (nonlinear_arith)
                    requires
                        addr % 4096 == 0,
                        mm >= 0,
                ;
            }
            let a = addr + m * 4096;
            let ghost pre = *self;
            let (k, j) = self.walk(a);
            proof {
                assert(table_shape_wf(pre.tables@, pre.mode_spec(), pre.root_spec(), 0));
                assert(route_prefix(pre.mode_spec(), pre.tables@[0].level.depth, a) == 0);
                lemma_walk_from_props(pre, 0, a, pre.mode_spec().root_depth_spec() as nat);
                lemma_entry_props(pre, a);
                assert(entry_ok(pre.tables@, k as int, j as int));
            }
            let p = self.tables[k].ptes[j];
            proof {
                assert(pt0.addr_ok(a));
                assert(pt0.is_unmappable(a, mem_type));
                assert(pre.entry_state(a) == pt0.entry_state(a)) by {
                    assert(!(addr <= a < addr + m as int * 4096));
                }
                assert(p.entry_type() == TableEntryType::Leaf);
                lemma_child_base_wf(p);
            }
            let paddr = p.pfn() * 4096;
            let mut v = p;
            v.invalidate();
            self.update_leaf_entry(a, k, j, v);
            pages.push(paddr);
            proof {
                assert(paddr == pt0.entry_paddr(a));
                assert forall|b: u64|
                    pt0.addr_ok(b) && addr <= b < addr + (m + 1) * 4096 implies self.entry_bits(
                    b,
                ) == (pt0.entry_bits(b) & !PTE_VALID) && self.entry_state(b)
                    == TableEntryType::Invalidated && self.entry_pfn(b) == pt0.entry_pfn(b) by {
                    if b != a {
                        assert(addr <= b < addr + m as int * 4096);
                    }
                }
                assert forall|f: u64|
                    !pt0.owns_frame(f) implies !self.owns_frame(f) by {
                    assert(data_entry(pre.tables@, k as int, j as int));
                    assert(pre.owns_frame(child_base(p)));
                    assert(f != child_base(v));
                }
            }
            m = m + 1;
        }
        Ok(PageList { mem_type, pages })
    }
}

impl PlatformPageTable {
    /// Returns the frames previously mapped in the range, locked for
    /// exclusive reclaim, provided every entry was invalidated and
    /// converted at a TLB version strictly older than `tlb_version`.
    /// Mixed success is not allowed: on the first failure the locks
    /// already taken are released and the tracker reads as before.  The
    /// tables themselves are never modified.
    #[verifier::rlimit(80)]
    #[verifier::loop_isolation(false)]
    pub fn get_converted_range(
        &mut self,
        addr: u64,
        page_size: PageSize,
        num_pages: u64,
        mem_type: MemType,
        tlb_version: TlbVersion,
    ) -> (r: Result<LockedPageList>)
        requires
            old(self).wf(),
            addr % 4096 == 0,
            addr + num_pages * 4096 <= old(self).mode_spec().addr_span_spec(),
        ensures
            final(self).wf(),
            final(self).mode_spec() == old(self).mode_spec(),
            final(self).root_spec() == old(self).root_spec(),
            final(self).owner_spec() == old(self).owner_spec(),
            forall|b: u64|
                final(self).entry_bits(b) == old(self).entry_bits(b) && final(self).entry_state(
                    b,
                ) == old(self).entry_state(b) && final(self).entry_pfn(b) == old(self).entry_pfn(
                    b,
                ),
            forall|f: u64| final(self).owns_frame(f) == old(self).owns_frame(f),
            page_size.is_huge_spec() ==> r == Result::<LockedPageList>::Err(
                Error::PageSizeNotSupported(page_size),
            ) && *final(self) == *old(self),
            !page_size.is_huge_spec() ==> (r is Ok) == (forall|b: u64|
                old(self).addr_ok(b) && addr <= b < addr + num_pages * 4096 ==> old(
                    self,
                ).is_converted_leaf(b, mem_type, tlb_version)),
            r is Err ==> !page_size.is_huge_spec() ==> r == Result::<LockedPageList>::Err(
                Error::PageNotConverted,
            ),
            r is Err ==> forall|f: u64|
                tracks(final(self).page_tracker_spec()@, f) == tracks(
                    old(self).page_tracker_spec()@,
                    f,
                ) && (tracks(old(self).page_tracker_spec()@, f) ==> frame_of(
                    final(self).page_tracker_spec()@,
                    f,
                ) == frame_of(old(self).page_tracker_spec()@, f)),
            r is Ok ==> r->Ok_0@.len() == num_pages && r->Ok_0.mem_type == mem_type && (forall|
                i: int,
            |
                0 <= i < num_pages ==> r->Ok_0@[i] == old(self).entry_paddr(
                    (addr + i * 4096) as u64,
                )),
            r is Ok ==> forall|i: int|
                0 <= i < num_pages ==> tracks(
                    final(self).page_tracker_spec()@,
                    #[trigger] old(self).entry_paddr((addr + i * 4096) as u64),
                ) && frame_of(
                    final(self).page_tracker_spec()@,
                    old(self).entry_paddr((addr + i * 4096) as u64),
                ) == (FrameInfo {
                    addr: old(self).entry_paddr((addr + i * 4096) as u64),
                    owner: old(self).owner_spec(),
                    mem_type,
                    state: FrameState::ConvertedLocked {
                        at: frame_of(
                            old(self).page_tracker_spec()@,
                            old(self).entry_paddr((addr + i * 4096) as u64),
                        ).state->Converted_at,
                    },
                }),
            r is Ok ==> forall|f: u64|
                !(exists|i: int|
                    0 <= i < num_pages && #[trigger] old(self).entry_paddr((addr + i * 4096) as u64)
                        == f)
                    ==> tracks(final(self).page_tracker_spec()@, f) == tracks(
                    old(self).page_tracker_spec()@,
                    f,
                ) && (tracks(old(self).page_tracker_spec()@, f) ==> frame_of(
                    final(self).page_tracker_spec()@,
                    f,
                ) == frame_of(old(self).page_tracker_spec()@, f)),
    {
        if page_size.is_huge() {
            return Err(Error::PageSizeNotSupported(page_size));
        }
        let ghost pt0 = *old(self);
        let ghost tr0 = old(self).page_tracker_spec()@;
        let owner = self.owner;
        let mut pages: Vec<u64> = Vec::new();
        let mut i: u64 = 0;
        while i < num_pages
            invariant
                self.wf(),
                i <= num_pages,
                self.mode_spec() == pt0.mode_spec(),
                self.root_spec() == pt0.root_spec(),
                self.owner_spec() == pt0.owner_spec(),
                owner == pt0.owner_spec(),
                self.tables == pt0.tables,
                self.root == pt0.root,
                pages@.len() == i,
                forall|x: int|
                    0 <= x < i ==> pages@[x] == pt0.entry_paddr((addr + x * 4096) as u64),
                forall|x: int|
                    0 <= x < i ==> #[trigger] pt0.is_converted_leaf(
                        (addr + x * 4096) as u64,
                        mem_type,
                        tlb_version,
                    ),
                forall|x: int, y: int| 0 <= x < i && 0 <= y < i && x != y ==> pages@[x]
                    != pages@[y],
                forall|x: int|
                    0 <= x < i ==> tracks(self.page_tracker_spec()@, pages@[x]) && frame_of(
                        self.page_tracker_spec()@,
                        pages@[x],
                    ) == (FrameInfo {
                        addr: pages@[x],
                        owner: pt0.owner_spec(),
                        mem_type,
                        state: FrameState::ConvertedLocked {
                            at: frame_of(tr0, pages@[x]).state->Converted_at,
                        },
                    }),
                forall|f: u64|
                    !pages@.contains(f) ==> tracks(self.page_tracker_spec()@, f) == tracks(
                        tr0,
                        f,
                    ) && (tracks(tr0, f) ==> frame_of(self.page_tracker_spec()@, f) == frame_of(
                        tr0,
                        f,
                    )),
            decreases num_pages - i,
        {
            proof {
                let ii = i as int;
                let n = num_pages as int;
                assert(ii < n ==> ii * 4096 < n * 4096 && (ii + 1) * 4096 <= n * 4096)
                    by (nonlinear_arith);
                assert((addr + ii * 4096) % 4096 == 0) by (nonlinear_arith)
                    requires
                        addr % 4096 == 0,
                        ii >= 0,
                ;
            }
            let a = addr + i * 4096;
            let converted = match self.get_converted_4k_leaf(a, mem_type, tlb_version) {
                Ok(paddr) => Some(paddr),
                Err(_) => None,
            };
            match converted {
                Some(paddr) => {
                    proof {
                        // The frame behind this entry is converted in the
                        // original tracker too: it is distinct from every
                        // frame already locked, so the records consulted
                        // were untouched.
                        assert(self.entry_state(a) == pt0.entry_state(a));
                        assert(self.entry_paddr(a) == pt0.entry_paddr(a));
                        assert(!pages@.contains(paddr)) by {
                            if pages@.contains(paddr) {
                                let x = choose|x: int|
                                    0 <= x < pages@.len() && pages@[x] == paddr;
                                assert(pt0.is_converted_leaf(
                                    (addr + x * 4096) as u64,
                                    mem_type,
                                    tlb_version,
                                ));
                                lemma_range_addr_ok(pt0, addr, num_pages, x);
                                lemma_distinct_invalidated_frames(
                                    pt0,
                                    a,
                                    (addr + x * 4096) as u64,
                                );
                            }
                        }
                        assert(pt0.is_converted_leaf(a, mem_type, tlb_version));
                    }
                    let locked = self.page_tracker.get_converted_page(
                        paddr,
                        owner,
                        mem_type,
                        tlb_version,
                    );
                    proof {
                        assert(locked);
                        assert forall|x: int, y: int|
                            0 <= x < i + 1 && 0 <= y < i + 1 && x != y implies pages@.push(
                            paddr,
                        )[x] != pages@.push(paddr)[y] by {
                            if y == i as int && 0 <= x < i {
                                assert(pt0.is_converted_leaf(
                                    (addr + x * 4096) as u64,
                                    mem_type,
                                    tlb_version,
                                ));
                                lemma_range_addr_ok(pt0, addr, num_pages, x);
                                lemma_distinct_invalidated_frames(
                                    pt0,
                                    a,
                                    (addr + x * 4096) as u64,
                                );
                            }
                            if x == i as int && 0 <= y < i {
                                assert(pt0.is_converted_leaf(
                                    (addr + y * 4096) as u64,
                                    mem_type,
                                    tlb_version,
                                ));
                                lemma_range_addr_ok(pt0, addr, num_pages, y);
                                lemma_distinct_invalidated_frames(
                                    pt0,
                                    a,
                                    (addr + y * 4096) as u64,
                                );
                            }
                        }
                    }
                    let ghost pages_before = pages@;
                    pages.push(paddr);
                    proof {
                        assert forall|f: u64|
                            !pages@.contains(f) implies tracks(self.page_tracker_spec()@, f)
                            == tracks(tr0, f) && (tracks(tr0, f) ==> frame_of(
                            self.page_tracker_spec()@,
                            f,
                        ) == frame_of(tr0, f)) by {
                            assert(pages@[pages_before.len() as int] == paddr);
                            assert(f != paddr);
                            assert(!pages_before.contains(f)) by {
                                if pages_before.contains(f) {
                                    let x = choose|x: int|
                                        0 <= x < pages_before.len() && pages_before[x] == f;
                                    assert(pages@[x] == f);
                                }
                            }
                        }
                    }
                    i = i + 1;
                },
                None => {
                    proof {
                        assert(self.entry_state(a) == pt0.entry_state(a));
                        assert(self.entry_paddr(a) == pt0.entry_paddr(a));
                        // The failing probe read original records: the
                        // entry's frame is on no list yet.
                        if pt0.is_converted_leaf(a, mem_type, tlb_version) {
                            assert(!pages@.contains(pt0.entry_paddr(a))) by {
                                if pages@.contains(pt0.entry_paddr(a)) {
                                    let x = choose|x: int|
                                        0 <= x < pages@.len() && pages@[x] == pt0.entry_paddr(a);
                                    assert(pt0.is_converted_leaf(
                                        (addr + x * 4096) as u64,
                                        mem_type,
                                        tlb_version,
                                    ));
                                    lemma_range_addr_ok(pt0, addr, num_pages, x);
                                    lemma_distinct_invalidated_frames(
                                        pt0,
                                        a,
                                        (addr + x * 4096) as u64,
                                    );
                                }
                            }
                            assert(false);
                        }
                    }
                    // Roll the locks back before reporting failure.
                    let mut m: usize = 0;
                    let ghost locked_pages = pages@;
                    proof {
                        assert forall|x: int|
                            0 <= x < locked_pages.len() implies tracks(tr0, locked_pages[x])
                            && frame_of(tr0, locked_pages[x]).owner == pt0.owner_spec()
                            && frame_of(tr0, locked_pages[x]).mem_type == mem_type && frame_of(
                            tr0,
                            locked_pages[x],
                        ).addr == locked_pages[x] && frame_of(tr0, locked_pages[x]).state matches
                            FrameState::Converted { at } by {
                            assert(pt0.is_converted_leaf(
                                (addr + x * 4096) as u64,
                                mem_type,
                                tlb_version,
                            ));
                            assert(locked_pages[x] == pt0.entry_paddr((addr + x * 4096) as u64));
                            let idx = tracked_index(tr0, locked_pages[x]);
                            assert(0 <= idx < tr0.len() && tr0[idx].addr == locked_pages[x]);
                        }
                    }
                    while m < pages.len()
                        invariant
                            self.wf(),
                            m <= pages@.len(),
                            pages@ == locked_pages,
                            self.mode_spec() == pt0.mode_spec(),
                            self.root_spec() == pt0.root_spec(),
                            self.owner_spec() == pt0.owner_spec(),
                            self.tables == pt0.tables,
                            self.root == pt0.root,
                            forall|f: u64|
                                !locked_pages.contains(f) ==> tracks(
                                    self.page_tracker_spec()@,
                                    f,
                                ) == tracks(tr0, f) && (tracks(tr0, f) ==> frame_of(
                                    self.page_tracker_spec()@,
                                    f,
                                ) == frame_of(tr0, f)),
                            forall|x: int|
                                0 <= x < m ==> tracks(self.page_tracker_spec()@, locked_pages[x])
                                    == tracks(tr0, locked_pages[x]) && (tracks(
                                    tr0,
                                    locked_pages[x],
                                ) ==> frame_of(self.page_tracker_spec()@, locked_pages[x])
                                    == frame_of(tr0, locked_pages[x])),
                            forall|x: int|
                                m <= x < locked_pages.len() ==> tracks(
                                    self.page_tracker_spec()@,
                                    locked_pages[x],
                                ) && frame_of(self.page_tracker_spec()@, locked_pages[x]) == (
                                FrameInfo {
                                    addr: locked_pages[x],
                                    owner: pt0.owner_spec(),
                                    mem_type,
                                    state: FrameState::ConvertedLocked {
                                        at: frame_of(tr0, locked_pages[x]).state->Converted_at,
                                    },
                                }),
                            forall|x: int, y: int|
                                0 <= x < locked_pages.len() && 0 <= y < locked_pages.len() && x
                                    != y ==> locked_pages[x] != locked_pages[y],
                            forall|x: int|
                                0 <= x < locked_pages.len() ==> tracks(tr0, locked_pages[x])
                                    && frame_of(tr0, locked_pages[x]).owner == pt0.owner_spec()
                                    && frame_of(tr0, locked_pages[x]).mem_type == mem_type
                                    && frame_of(tr0, locked_pages[x]).addr == locked_pages[x]
                                    && frame_of(tr0, locked_pages[x]).state matches
                                    FrameState::Converted { at },
                        decreases pages@.len() - m,
                    {
                        let f = pages[m];
                        let unlocked = self.page_tracker.unlock_converted_page(f, owner);
                        proof {
                            assert(unlocked);
                            assert forall|x: int|
                                0 <= x < m + 1 implies tracks(
                                self.page_tracker_spec()@,
                                locked_pages[x],
                            ) == tracks(tr0, locked_pages[x]) && (tracks(tr0, locked_pages[x])
                                ==> frame_of(self.page_tracker_spec()@, locked_pages[x])
                                == frame_of(tr0, locked_pages[x])) by {
                                if x < m {
                                    assert(locked_pages[x] != locked_pages[m as int]);
                                }
                            }
                        }
                        m = m + 1;
                    }
                    proof {
                        assert forall|f: u64|
                            tracks(self.page_tracker_spec()@, f) == tracks(tr0, f) && (tracks(
                            tr0,
                            f,
                        ) ==> frame_of(self.page_tracker_spec()@, f) == frame_of(tr0, f)) by {
                            if locked_pages.contains(f) {
                                let x = choose|x: int|
                                    0 <= x < locked_pages.len() && locked_pages[x] == f;
                            }
                        }
                        assert(pt0.addr_ok(a) && addr <= a < addr + num_pages * 4096
                            && !pt0.is_converted_leaf(a, mem_type, tlb_version));
                    }
                    return Err(Error::PageNotConverted);
                },
            }
        }
        proof {
            assert forall|b: u64|
                pt0.addr_ok(b) && addr <= b < addr + num_pages * 4096 implies pt0
                .is_converted_leaf(b, mem_type, tlb_version) by {
            let x = ((b - addr) / 4096) as int;
            assert((b - addr) % 4096 == 0 && b - addr == x * 4096 && 0 <= x < num_pages)
                by (nonlinear_arith)
                requires
                    addr % 4096 == 0,
                    b % 4096 == 0,
                    addr <= b,
                    b < addr + num_pages * 4096,
                    x == (b - addr) / 4096,
            ;
            assert(pt0.is_converted_leaf((addr + x * 4096) as u64, mem_type, tlb_version));
            assert((addr + x * 4096) as u64 == b);
            }
            assert forall|ix: int| 0 <= ix < num_pages implies tracks(
                self.page_tracker_spec()@,
                #[trigger] pt0.entry_paddr((addr + ix * 4096) as u64),
            ) && frame_of(
                self.page_tracker_spec()@,
                pt0.entry_paddr((addr + ix * 4096) as u64),
            ) == (FrameInfo {
                addr: pt0.entry_paddr((addr + ix * 4096) as u64),
                owner: pt0.owner_spec(),
                mem_type,
                state: FrameState::ConvertedLocked {
                    at: frame_of(
                        tr0,
                        pt0.entry_paddr((addr + ix * 4096) as u64),
                    ).state->Converted_at,
                },
            }) by {
                assert(pages@[ix] == pt0.entry_paddr((addr + ix * 4096) as u64));
            }
        }
        Ok(LockedPageList { mem_type, pages })
    }
}

/// Whether slot `(k, j)` holds a frame the teardown returns to the
/// tracker: a leaf mapping or an invalidated mapping.  A reservation's
/// remembered frame is skipped, as the holder of the reservation is
/// responsible for it.
spec fn reclaim_entry(t: Seq<TablePage>, k: int, j: int) -> bool {
    &&& data_entry(t, k, j)
    &&& (t[k].ptes@[j].entry_type() == TableEntryType::Leaf || t[k].ptes@[j].entry_type()
        == TableEntryType::Invalidated)
}

/// Whether some slot lexicographically before `(kk, jj)` holds the
/// reclaimable frame `f`.
spec fn reclaimed_before(t: Seq<TablePage>, kk: int, jj: int, f: u64) -> bool {
    exists|k: int, j: int|
        #[trigger] reclaim_entry(t, k, j) && (k < kk || (k == kk && j < jj)) && child_base(
            t[k].ptes@[j],
        ) == f
}

/// Moving the scan limit forward keeps every frame already seen.
proof fn lemma_reclaimed_before_mono(
    t: Seq<TablePage>,
    k1: int,
    j1: int,
    k2: int,
    j2: int,
    f: u64,
)
    requires
        reclaimed_before(t, k1, j1, f),
        k1 < k2 || (k1 == k2 && j1 <= j2),
    ensures
        reclaimed_before(t, k2, j2, f),
{
    let (k, j) = choose|k: int, j: int|
        #[trigger] reclaim_entry(t, k, j) && (k < k1 || (k == k1 && j < j1)) && child_base(
            t[k].ptes@[j],
        ) == f;
    assert(reclaim_entry(t, k, j) && (k < k2 || (k == k2 && j < j2)) && child_base(
        t[k].ptes@[j],
    ) == f);
}

impl PlatformPageTable {
    /// Whether teardown returns the frame at `f` to the tracker: a root
    /// page, a table page, or the frame of a leaf or invalidated
    /// mapping.
    pub closed spec fn reclaims_frame(self, f: u64) -> bool {
        ||| (self.root.base <= f < self.root.base + self.root.count * 4096 && (f
            - self.root.base) % 4096 == 0)
        ||| has_base(self.tables@, f)
        ||| exists|k: int, j: int|
            #[trigger] reclaim_entry(self.tables@, k, j) && child_base(self.tables@[k].ptes@[j])
                == f
    }
}

/// Whether the record for `f` reads as released for `owner`, given where
/// it started: freed if it was held by the owner, untouched otherwise.
pub open spec fn released_ok(tr0: Seq<FrameInfo>, cur: Seq<FrameInfo>, f: u64, owner: PageOwnerId) -> bool {
    if tracks(tr0, f) && frame_of(tr0, f).owner == owner && frame_of(tr0, f).state
        != FrameState::Free {
        tracks(cur, f) && frame_of(cur, f) == (FrameInfo {
            addr: f,
            owner,
            mem_type: frame_of(tr0, f).mem_type,
            state: FrameState::Free,
        })
    } else {
        tracks(cur, f) == tracks(tr0, f) && (tracks(tr0, f) ==> frame_of(cur, f) == frame_of(
            tr0,
            f,
        ))
    }
}

/// The running claim of the teardown: frames not yet released read as
/// they started, and each released frame reads as released.
spec fn release_inv(
    tr0: Seq<FrameInfo>,
    cur: Seq<FrameInfo>,
    released: Seq<u64>,
    owner: PageOwnerId,
) -> bool {
    &&& released.no_duplicates()
    &&& forall|g: u64|
        !released.contains(g) ==> tracks(cur, g) == tracks(tr0, g) && (tracks(tr0, g)
            ==> frame_of(cur, g) == frame_of(tr0, g))
    &&& forall|x: int|
        0 <= x < released.len() ==> released_ok(tr0, cur, #[trigger] released[x], owner)
}

/// Releases one more frame and appends it to the released list, keeping
/// the running claim.
fn release_one(
    page_tracker: &mut PageTracker,
    released: &mut Vec<u64>,
    f: u64,
    owner: PageOwnerId,
    Ghost(tr0): Ghost<Seq<FrameInfo>>,
)
    requires
        old(page_tracker).wf(),
        !old(released)@.contains(f),
        release_inv(tr0, old(page_tracker)@, old(released)@, owner),
    ensures
        final(page_tracker).wf(),
        final(released)@ == old(released)@.push(f),
        release_inv(tr0, final(page_tracker)@, final(released)@, owner),
{
    let ghost rel_pre = released@;
    let ghost cur_pre = page_tracker@;
    let _ = page_tracker.release_page_by_addr(f, owner);
    released.push(f);
    proof {
        assert(released@.no_duplicates()) by {
            assert forall|x: int, y: int|
                0 <= x < released@.len() && 0 <= y < released@.len() && x != y implies released@[x]
                != released@[y] by {
                if x == rel_pre.len() as int && released@[y] == f {
                    assert(rel_pre.contains(f));
                }
                if y == rel_pre.len() as int && released@[x] == f {
                    assert(rel_pre.contains(f));
                }
            }
        }
        assert forall|g: u64|
            !released@.contains(g) implies tracks(page_tracker@, g) == tracks(tr0, g) && (
        tracks(tr0, g) ==> frame_of(page_tracker@, g) == frame_of(tr0, g)) by {
            assert(released@[rel_pre.len() as int] == f);
            assert(g != f);
            assert(!rel_pre.contains(g)) by {
                if rel_pre.contains(g) {
                    let x = choose|x: int| 0 <= x < rel_pre.len() && rel_pre[x] == g;
                    assert(released@[x] == g);
                }
            }
        }
        assert forall|x: int|
            0 <= x < released@.len() implies released_ok(
            tr0,
            page_tracker@,
            #[trigger] released@[x],
            owner,
        ) by {
            if x < rel_pre.len() {
                assert(released@[x] == rel_pre[x]);
                assert(rel_pre[x] != f) by {
                    if rel_pre[x] == f {
                        assert(rel_pre.contains(f));
                    }
                }
                assert(released_ok(tr0, cur_pre, rel_pre[x], owner));
            } else {
                assert(released@[x] == f);
                assert(tracks(cur_pre, f) == tracks(tr0, f) && (tracks(tr0, f) ==> frame_of(
                    cur_pre,
                    f,
                ) == frame_of(tr0, f)));
            }
        }
    }
}

impl PlatformPageTable {
    /// Tears the hierarchy down, releasing every owned frame back to the
    /// tracker exactly once: each root page, each table page, and the
    /// frame of each leaf and each invalidated mapping.  A reservation's
    /// remembered frame stays with the reservation holder.  Returns the
    /// tracker and the list of released frames; frames the tracker did
    /// not hold for this owner are left as they were.
    #[verifier::rlimit(100)]
    #[verifier::loop_isolation(false)]
    pub fn release_pages(self) -> (r: (PageTracker, Vec<u64>))
        requires
            self.wf(),
        ensures
            r.1@.no_duplicates(),
            forall|f: u64| r.1@.contains(f) == self.reclaims_frame(f),
            r.0.wf(),
            forall|f: u64|
                !self.reclaims_frame(f) ==> tracks(r.0@, f) == tracks(
                    self.page_tracker_spec()@,
                    f,
                ) && (tracks(self.page_tracker_spec()@, f) ==> frame_of(r.0@, f) == frame_of(
                    self.page_tracker_spec()@,
                    f,
                )),
            forall|f: u64|
                self.reclaims_frame(f) ==> released_ok(
                    self.page_tracker_spec()@,
                    r.0@,
                    f,
                    self.owner_spec(),
                ),
    {
        let ghost pt0 = self;
        let ghost tr0 = self.page_tracker_spec()@;
        let ghost t = self.tables@;
        let PlatformPageTable { mode, root, owner, mut page_tracker, tables } = self;
        let mut released: Vec<u64> = Vec::new();
        // The root pages.
        let mut i: u64 = 0;
        while i < root.len()
            invariant
                page_tracker.wf(),
                i <= root.len_spec(),
                released@.len() == i,
                forall|x: int| 0 <= x < i ==> released@[x] == root.base_spec() + x * 4096,
                release_inv(tr0, page_tracker@, released@, owner),
            decreases root.len_spec() - i,
        {
            proof {
                let ii = i as int;
                let c = root.len_spec() as int;
                assert(0 <= ii < c ==> ii * 4096 < c * 4096 && (ii + 1) * 4096 <= c * 4096)
                    by (nonlinear_arith);
                assert(root.base_spec() + c * 4096 <= 0x100_0000_0000_0000);
            }
            let f = root.base() + i * 4096;
            proof {
                assert(!released@.contains(f)) by {
                    if released@.contains(f) {
                        let x = choose|x: int| 0 <= x < released@.len() && released@[x] == f;
                        assert(x * 4096 != i as int * 4096);
                    }
                }
            }
            release_one(&mut page_tracker, &mut released, f, owner, Ghost(tr0));
            i = i + 1;
        }
        let ghost root_count = released@.len() as int;
        // The table pages below the root.
        let mut k: usize = 1;
        while k < tables.len()
            invariant
                page_tracker.wf(),
                1 <= k <= t.len(),
                tables@ == t,
                released@.len() == root_count + k - 1,
                forall|x: int| 0 <= x < root_count ==> released@[x] == root.base_spec() + x
                    * 4096,
                forall|x: int|
                    root_count <= x < released@.len() ==> released@[x] == t[x - root_count
                        + 1].base,
                release_inv(tr0, page_tracker@, released@, owner),
            decreases t.len() - k,
        {
            let f = tables[k].base;
            proof {
                assert(table_shape_wf(t, pt0.mode_spec(), pt0.root_spec(), k as int));
                assert(!released@.contains(f)) by {
                    if released@.contains(f) {
                        let x = choose|x: int| 0 <= x < released@.len() && released@[x] == f;
                        if x < root_count {
                            let c = root.len_spec() as int;
                            assert(0 <= x < c ==> x * 4096 < c * 4096) by (nonlinear_arith);
                            assert(in_root_zone(pt0.root_spec(), f));
                        } else {
                            assert(t[x - root_count + 1].base == f);
                        }
                    }
                }
            }
            release_one(&mut page_tracker, &mut released, f, owner, Ghost(tr0));
            k = k + 1;
        }
        let ghost table_hi = released@.len() as int;
        // The data frames held by leaf and invalidated entries.
        let mut k2: usize = 0;
        while k2 < tables.len()
            invariant
                page_tracker.wf(),
                k2 <= t.len(),
                tables@ == t,
                released@.len() >= table_hi,
                forall|x: int| 0 <= x < root_count ==> released@[x] == root.base_spec() + x
                    * 4096,
                forall|x: int|
                    root_count <= x < table_hi ==> released@[x] == t[x - root_count + 1].base,
                forall|x: int|
                    table_hi <= x < released@.len() ==> reclaimed_before(
                        t,
                        k2 as int,
                        0,
                        #[trigger] released@[x],
                    ),
                forall|f: u64|
                    reclaimed_before(t, k2 as int, 0, f) ==> released@.contains(f),
                release_inv(tr0, page_tracker@, released@, owner),
            decreases t.len() - k2,
        {
            let table_len = tables[k2].ptes.len();
            let mut j: usize = 0;
            while j < table_len
                invariant
                    page_tracker.wf(),
                    k2 < t.len(),
                    j <= table_len,
                    table_len == t[k2 as int].ptes.len(),
                    tables@ == t,
                    released@.len() >= table_hi,
                    forall|x: int| 0 <= x < root_count ==> released@[x] == root.base_spec() + x
                        * 4096,
                    forall|x: int|
                        root_count <= x < table_hi ==> released@[x] == t[x - root_count
                            + 1].base,
                    forall|x: int|
                        table_hi <= x < released@.len() ==> reclaimed_before(
                            t,
                            k2 as int,
                            j as int,
                            #[trigger] released@[x],
                        ),
                    forall|f: u64|
                        reclaimed_before(t, k2 as int, j as int, f) ==> released@.contains(f),
                    release_inv(tr0, page_tracker@, released@, owner),
                decreases table_len - j,
            {
                let p = tables[k2].ptes[j];
                let reclaim = match p.state() {
                    TableEntryType::Leaf => true,
                    TableEntryType::Invalidated => true,
                    _ => false,
                };
                if reclaim {
                    proof {
                        assert(entry_ok(t, k2 as int, j as int));
                        assert(t[k2 as int].level.depth == 1) by {
                            if t[k2 as int].level.depth != 1 {
                                assert(p.bits_spec() == 0 || p.entry_type()
                                    == TableEntryType::Table);
                                lemma_zero_pte_unused(p);
                            }
                        }
                        assert(p.pfn_spec() != 0) by {
                            if p.entry_type() == TableEntryType::Invalidated {
                            } else {
                                assert(p.entry_type() == TableEntryType::Leaf);
                            }
                        }
                        lemma_child_base_wf(p);
                        assert(reclaim_entry(t, k2 as int, j as int));
                    }
                    let f = p.pfn() * 4096;
                    proof {
                        assert(data_entry(t, k2 as int, j as int));
                        assert(!released@.contains(f)) by {
                            if released@.contains(f) {
                                let x = choose|x: int|
                                    0 <= x < released@.len() && released@[x] == f;
                                if x < root_count {
                                    let c = root.len_spec() as int;
                                    assert(0 <= x < c ==> x * 4096 < c * 4096)
                                        by (nonlinear_arith);
                                    assert(in_root_zone(pt0.root_spec(), f));
                                } else if x < table_hi {
                                    assert(t[x - root_count + 1].base == f);
                                    assert(has_base(t, f));
                                } else {
                                    let (kk, jj) = choose|kk: int, jj: int|
                                        #[trigger] reclaim_entry(t, kk, jj) && (kk < k2 || (kk
                                            == k2 && jj < j)) && child_base(t[kk].ptes@[jj])
                                            == f;
                                    assert(data_entry(t, kk, jj));
                                    assert(!(kk == k2 as int && jj == j as int));
                                }
                            }
                        }
                    }
                    let ghost rel_before = released@;
                    release_one(&mut page_tracker, &mut released, f, owner, Ghost(tr0));
                    proof {
                        assert(released@ == rel_before.push(f));
                        assert forall|g: u64|
                            reclaimed_before(t, k2 as int, j as int + 1, g) implies released@
                            .contains(g) by {
                            let (kk, jj) = choose|kk: int, jj: int|
                                #[trigger] reclaim_entry(t, kk, jj) && (kk < k2 as int || (kk
                                    == k2 as int && jj < j + 1)) && child_base(t[kk].ptes@[jj])
                                    == g;
                            if kk == k2 as int && jj == j as int {
                                assert(released@[rel_before.len() as int] == g);
                            } else {
                                assert(reclaimed_before(t, k2 as int, j as int, g));
                                assert(rel_before.contains(g));
                                let x = choose|x: int|
                                    0 <= x < rel_before.len() && rel_before[x] == g;
                                assert(released@[x] == g);
                            }
                        }
                        assert forall|x: int|
                            table_hi <= x < released@.len() implies reclaimed_before(
                            t,
                            k2 as int,
                            j as int + 1,
                            #[trigger] released@[x],
                        ) by {
                            if x < rel_before.len() {
                                assert(released@[x] == rel_before[x]);
                                lemma_reclaimed_before_mono(
                                    t,
                                    k2 as int,
                                    j as int,
                                    k2 as int,
                                    j as int + 1,
                                    released@[x],
                                );
                            } else {
                                assert(released@[x] == f);
                                assert(reclaim_entry(t, k2 as int, j as int) && ((j as int)
                                    < j as int + 1) && child_base(t[k2 as int].ptes@[j as int])
                                    == f);
                            }
                        }
                    }
                } else {
                    proof {
                        assert forall|g: u64|
                            reclaimed_before(t, k2 as int, j as int + 1, g) implies released@
                            .contains(g) by {
                            let (kk, jj) = choose|kk: int, jj: int|
                                #[trigger] reclaim_entry(t, kk, jj) && (kk < k2 as int || (kk
                                    == k2 as int && jj < j + 1)) && child_base(t[kk].ptes@[jj])
                                    == g;
                            if kk == k2 as int && jj == j as int {
                                assert(false);
                            } else {
                                assert(reclaimed_before(t, k2 as int, j as int, g));
                            }
                        }
                        assert forall|x: int|
                            table_hi <= x < released@.len() implies reclaimed_before(
                            t,
                            k2 as int,
                            j as int + 1,
                            #[trigger] released@[x],
                        ) by {
                            lemma_reclaimed_before_mono(
                                t,
                                k2 as int,
                                j as int,
                                k2 as int,
                                j as int + 1,
                                released@[x],
                            );
                        }
                    }
                }
                j = j + 1;
            }
            proof {
                assert forall|g: u64|
                    reclaimed_before(t, k2 as int + 1, 0, g) implies released@.contains(g) by {
                    let (kk, jj) = choose|kk: int, jj: int|
                        #[trigger] reclaim_entry(t, kk, jj) && (kk < k2 as int + 1) && child_base(
                            t[kk].ptes@[jj],
                        ) == g;
                    if kk == k2 as int {
                        assert(reclaimed_before(t, k2 as int, table_len as int, g));
                    } else {
                        assert(reclaimed_before(t, k2 as int, 0, g));
                    }
                }
                assert forall|x: int|
                    table_hi <= x < released@.len() implies reclaimed_before(
                    t,
                    k2 as int + 1,
                    0,
                    #[trigger] released@[x],
                ) by {
                    lemma_reclaimed_before_mono(
                        t,
                        k2 as int,
                        table_len as int,
                        k2 as int + 1,
                        0,
                        released@[x],
                    );
                }
            }
            k2 = k2 + 1;
        }
        proof {
            lemma_release_contents(pt0, t, root, released@, root_count, table_hi, k2 as int);
        }
        (page_tracker, released)
    }
}

/// At the end of the teardown sweep the released list holds exactly the
/// reclaimable frames, each once.
proof fn lemma_release_contents(
    pt0: PlatformPageTable,
    t: Seq<TablePage>,
    root: SequentialPages,
    released: Seq<u64>,
    root_count: int,
    table_hi: int,
    k_end: int,
)
    requires
        pt0.wf(),
        t == pt0.tables@,
        root == pt0.root_spec(),
        k_end == t.len(),
        root_count == root.len_spec(),
        root_count <= table_hi <= released.len(),
        table_hi == root_count + t.len() - 1,
        forall|x: int| 0 <= x < root_count ==> released[x] == root.base_spec() + x * 4096,
        forall|x: int|
            root_count <= x < table_hi ==> released[x] == t[x - root_count + 1].base,
        forall|x: int|
            table_hi <= x < released.len() ==> reclaimed_before(
                t,
                k_end,
                0,
                #[trigger] released[x],
            ),
        forall|f: u64| reclaimed_before(t, k_end, 0, f) ==> released.contains(f),
    ensures
        forall|f: u64| released.contains(f) == pt0.reclaims_frame(f),
{
    assert forall|f: u64| released.contains(f) == pt0.reclaims_frame(f) by {
        if released.contains(f) {
            let x = choose|x: int| 0 <= x < released.len() && released[x] == f;
            if x < root_count {
                let c = root.len_spec() as int;
                assert(0 <= x < c ==> x * 4096 < c * 4096 && (x * 4096) % 4096 == 0)
                    by (nonlinear_arith);
                assert((f - root.base_spec()) % 4096 == 0) by (nonlinear_arith)
                    requires
                        f == root.base_spec() + x * 4096,
                        (x * 4096) % 4096 == 0,
                        x >= 0,
                ;
                assert(pt0.reclaims_frame(f));
            } else if x < table_hi {
                assert(t[x - root_count + 1].base == f);
                assert(has_base(t, f));
                assert(pt0.reclaims_frame(f));
            } else {
                let (kk, jj) = choose|kk: int, jj: int|
                    #[trigger] reclaim_entry(t, kk, jj) && (kk < k_end || (kk == k_end && jj
                        < 0)) && child_base(t[kk].ptes@[jj]) == f;
                assert(reclaim_entry(t, kk, jj) && child_base(t[kk].ptes@[jj]) == f);
                assert(pt0.reclaims_frame(f));
            }
        }
        if pt0.reclaims_frame(f) {
            if root.base_spec() <= f < root.base_spec() + root.len_spec() * 4096 && (f
                - root.base_spec()) % 4096 == 0 {
                let x = ((f - root.base_spec()) / 4096) as int;
                assert(0 <= x < root.len_spec() && f == root.base_spec() + x * 4096)
                    by (nonlinear_arith)
                    requires
                        root.base_spec() <= f < root.base_spec() + root.len_spec() * 4096,
                        (f - root.base_spec()) % 4096 == 0,
                        x == (f - root.base_spec()) / 4096,
                ;
                assert(released[x] == f);
                assert(released.contains(f));
            } else if has_base(t, f) {
                let w = table_with_base(t, f);
                assert(released[root_count + w - 1] == f);
                assert(released.contains(f));
            } else {
                let (kk, jj) = choose|kk: int, jj: int|
                    #[trigger] reclaim_entry(t, kk, jj) && child_base(t[kk].ptes@[jj]) == f;
                assert(reclaimed_before(t, k_end, 0, f));
            }
        }
    }
}

/// Reservations isolate mappers: while any entry of a range is locked —
/// as every entry of a live mapper's range is — no preparation of an
/// overlapping range can succeed, since success requires every entry of
/// the requested range to be unused or invalidated.  Whichever call loses
/// the race on the overlapping entry is refused with the locked-entry
/// error.
pub proof fn lemma_mapper_isolation(pt: PlatformPageTable, b: u64, addr2: u64, num2: u64)
    requires
        pt.wf(),
        pt.addr_ok(b),
        addr2 <= b < addr2 + num2 * 4096,
        pt.entry_state(b) == TableEntryType::Locked,
    ensures
        !(forall|c: u64|
            pt.addr_ok(c) && addr2 <= c < addr2 + num2 * 4096 ==> (pt.entry_state(c)
                == TableEntryType::Unused || pt.entry_state(c)
                == TableEntryType::Invalidated)),
{
}

/// A range of mapped address space whose leaf entries have been locked
/// for mapping.  Mapping a page in the range is guaranteed to succeed as
/// long as the address has not already been mapped through this mapper.
/// When the holder is done it releases the mapper, which unlocks every
/// entry still reserved; entries that became leaves ignore the unlock.
pub struct PageTableMapper {
    vaddr: u64,
    num_pages: u64,
}

impl PageTableMapper {
    /// The first mapped address the mapper reserves.
    pub closed spec fn vaddr_spec(self) -> u64 {
        self.vaddr
    }

    /// The number of 4 KiB pages the mapper reserves.
    pub closed spec fn num_pages_spec(self) -> u64 {
        self.num_pages
    }

    /// Whether `b` lies within the reserved range.
    pub open spec fn covers(self, b: u64) -> bool {
        self.vaddr_spec() <= b < self.vaddr_spec() + self.num_pages_spec() * 4096
    }

    /// Whether the reservation describes a translatable, page-aligned
    /// range of the hierarchy's mode.
    pub open spec fn wf_for(self, pt: PlatformPageTable) -> bool {
        &&& self.vaddr_spec() % 4096 == 0
        &&& self.vaddr_spec() + self.num_pages_spec() * 4096 <= pt.mode_spec().addr_span_spec()
    }

    /// A mapper for `num_pages` pages starting at `vaddr`.
    fn new(vaddr: u64, num_pages: u64) -> (r: Self)
        ensures
            r.vaddr_spec() == vaddr,
            r.num_pages_spec() == num_pages,
    {
        Self { vaddr, num_pages }
    }

    /// Returns the first mapped address the mapper reserves.
    pub fn vaddr(&self) -> (r: u64)
        ensures
            r == self.vaddr_spec(),
    {
        self.vaddr
    }

    /// Returns the number of pages the mapper reserves.
    pub fn num_pages(&self) -> (r: u64)
        ensures
            r == self.num_pages_spec(),
    {
        self.num_pages
    }

    /// Maps `vaddr` to the data page at `page_to_map`, consuming it.  The
    /// address must lie in the reserved range and its entry must still be
    /// locked; the mapping is installed read-write-execute with the user
    /// bit set.
    pub fn map_page(&self, table: &mut PlatformPageTable, vaddr: u64, page_to_map: CleanPage4k) -> (r:
        Result<()>)
        requires
            old(table).wf(),
            self.wf_for(*old(table)),
            vaddr % 4096 == 0,
            page_to_map.wf(),
            !old(table).owns_frame(page_to_map.addr),
        ensures
            final(table).wf(),
            final(table).mode_spec() == old(table).mode_spec(),
            final(table).root_spec() == old(table).root_spec(),
            final(table).owner_spec() == old(table).owner_spec(),
            final(table).page_tracker_spec() == old(table).page_tracker_spec(),
            (r == Result::<()>::Err(Error::OutOfMapRange)) == !self.covers(vaddr),
            self.covers(vaddr) ==> (r is Ok) == (old(table).entry_state(vaddr)
                == TableEntryType::Locked),
            self.covers(vaddr) ==> (r == Result::<()>::Err(Error::PteNotLocked)) == (old(table).entry_state(vaddr) == TableEntryType::Unused || old(table).entry_state(vaddr)
                == TableEntryType::Invalidated),
            self.covers(vaddr) ==> (r == Result::<()>::Err(Error::MappingExists)) == (old(table).entry_state(vaddr) == TableEntryType::Leaf),
            !(r is Ok) ==> *final(table) == *old(table),
            r is Ok ==> final(table).entry_state(vaddr) == TableEntryType::Leaf && final(table).entry_paddr(vaddr) == page_to_map.addr && final(table).entry_pfn(vaddr)
                == page_to_map.addr / 4096,
            forall|b: u64|
                old(table).addr_ok(b) && b != vaddr ==> final(table).entry_bits(b) == old(table).entry_bits(b) && final(table).entry_state(b) == old(table).entry_state(b)
                    && final(table).entry_pfn(b) == old(table).entry_pfn(b),
            forall|f: u64|
                !old(table).owns_frame(f) && f != page_to_map.addr ==> !final(table).owns_frame(
                    f,
                ),
    {
        proof {
            let n = self.num_pages_spec() as int;
            assert(self.vaddr_spec() + n * 4096 <= old(table).mode_spec().addr_span_spec());
        }
        let end_vaddr = self.vaddr + self.num_pages * 4096;
        if vaddr < self.vaddr || vaddr >= end_vaddr {
            return Err(Error::OutOfMapRange);
        }
        proof {
            lemma_entry_props(*old(table), vaddr);
        }
        table.map_4k_leaf(vaddr, page_to_map.addr(), PteLeafPerms::RWX)
    }

    /// Releases the reservation, unlocking every entry in the range that
    /// is still locked.  Entries that were mapped in the meantime, and
    /// every entry outside the range, are left untouched.
    #[verifier::loop_isolation(false)]
    pub fn release(self, table: &mut PlatformPageTable)
        requires
            old(table).wf(),
            self.wf_for(*old(table)),
        ensures
            final(table).wf(),
            final(table).mode_spec() == old(table).mode_spec(),
            final(table).root_spec() == old(table).root_spec(),
            final(table).owner_spec() == old(table).owner_spec(),
            final(table).page_tracker_spec() == old(table).page_tracker_spec(),
            forall|b: u64|
                old(table).addr_ok(b) && self.covers(b) && old(table).entry_state(b)
                    == TableEntryType::Locked ==> final(table).entry_bits(b) == (old(table).entry_bits(b) & !PTE_LOCKED) && final(table).entry_pfn(b) == old(table).entry_pfn(b) && final(table).entry_state(b) == (if old(table).entry_pfn(b)
                    == 0 {
                    TableEntryType::Unused
                } else {
                    TableEntryType::Invalidated
                }),
            forall|b: u64|
                old(table).addr_ok(b) && !(self.covers(b) && old(table).entry_state(b)
                    == TableEntryType::Locked) ==> final(table).entry_bits(b) == old(table).entry_bits(b) && final(table).entry_state(b) == old(table).entry_state(b)
                    && final(table).entry_pfn(b) == old(table).entry_pfn(b),
            forall|f: u64| !old(table).owns_frame(f) ==> !final(table).owns_frame(f),
    {
        let ghost pt0 = *old(table);
        let mut i: u64 = 0;
        while i < self.num_pages
            invariant
                table.wf(),
                i <= self.num_pages,
                table.mode_spec() == pt0.mode_spec(),
                table.root_spec() == pt0.root_spec(),
                table.owner_spec() == pt0.owner_spec(),
                table.page_tracker_spec() == pt0.page_tracker_spec(),
                forall|b: u64|
                    pt0.addr_ok(b) && self.vaddr_spec() <= b < self.vaddr_spec() + i * 4096
                        && pt0.entry_state(b) == TableEntryType::Locked ==> table.entry_bits(b)
                        == (pt0.entry_bits(b) & !PTE_LOCKED) && table.entry_pfn(b)
                        == pt0.entry_pfn(b) && table.entry_state(b) == (if pt0.entry_pfn(b) == 0 {
                        TableEntryType::Unused
                    } else {
                        TableEntryType::Invalidated
                    }),
                forall|b: u64|
                    pt0.addr_ok(b) && !(self.vaddr_spec() <= b < self.vaddr_spec() + i * 4096
                        && pt0.entry_state(b) == TableEntryType::Locked) ==> table.entry_bits(b)
                        == pt0.entry_bits(b) && table.entry_state(b) == pt0.entry_state(b)
                        && table.entry_pfn(b) == pt0.entry_pfn(b),
                forall|f: u64| !pt0.owns_frame(f) ==> !table.owns_frame(f),
            decreases self.num_pages - i,
        {
            proof {
                let v0 = self.vaddr_spec() as int;
                let ii = i as int;
                let n = self.num_pages_spec() as int;
                assert(ii < n ==> ii * 4096 < n * 4096 && (ii + 1) * 4096 <= n * 4096)
                    by (nonlinear_arith);
                assert((self.vaddr_spec() + ii * 4096) % 4096 == 0) by (nonlinear_arith)
                    requires
                        self.vaddr_spec() % 4096 == 0,
                        ii >= 0,
                ;
            }
            let a = self.vaddr + i * 4096;
            let _ = table.unlock_4k_leaf(a);
            proof {
                assert forall|b: u64|
                    pt0.addr_ok(b) && self.vaddr_spec() <= b < self.vaddr_spec() + (i + 1) * 4096
                        && pt0.entry_state(b) == TableEntryType::Locked implies table.entry_bits(
                    b,
                ) == (pt0.entry_bits(b) & !PTE_LOCKED) && table.entry_pfn(b) == pt0.entry_pfn(b)
                    && table.entry_state(b) == (if pt0.entry_pfn(b) == 0 {
                    TableEntryType::Unused
                } else {
                    TableEntryType::Invalidated
                }) by {
                    if b != a {
                        assert(self.vaddr_spec() <= b < self.vaddr_spec() + i as int * 4096);
                    }
                }
            }
            i = i + 1;
        }
    }
}

} // verus!
