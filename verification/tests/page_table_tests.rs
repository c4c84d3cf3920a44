//! End-to-end tests of the paging hierarchy: construction, mapping,
//! invalidation, converted-frame reclaim, and teardown.

use riscv_page_tables::level::PagingMode;
use riscv_page_tables::page_table::{Error, PageTableMapper, PlatformPageTable};
use riscv_page_tables::page_tracker::{PageTracker, TlbVersion};
use riscv_page_tables::pages::{CleanPage4k, MemType, PageOwnerId, PageSize, SequentialPages};

const ROOT_BASE: u64 = 0x8000_0000;
const DATA_PAGE: u64 = 0x9000_0000;
const PTE_PAGE_BASE: u64 = 0xA000_0000;
const GUEST_VA: u64 = 0x4_0000_0000;

fn root_pages() -> SequentialPages {
    SequentialPages::new(ROOT_BASE, 4, PageSize::Size4k).unwrap()
}

fn supply(count: u64) -> Vec<CleanPage4k> {
    supply_from(PTE_PAGE_BASE, count)
}

fn supply_from(base: u64, count: u64) -> Vec<CleanPage4k> {
    let mut pages = Vec::new();
    let mut i = 0;
    while i < count {
        pages.push(CleanPage4k::new(base + i * 4096).unwrap());
        i += 1;
    }
    pages
}

/// A hierarchy under Sv48x4 with a tracker that already holds the root
/// pages for the owner.
fn build() -> PlatformPageTable {
    let owner = PageOwnerId::new(1);
    let mut tracker = PageTracker::new();
    for i in 0..4u64 {
        assert!(tracker.assign_page(ROOT_BASE + i * 4096, owner, MemType::Ram));
    }
    PlatformPageTable::new(PagingMode::Sv48x4, root_pages(), owner, tracker).unwrap()
}

#[test]
fn map_one_page_and_read_it_back() {
    let mut pt = build();
    assert_eq!(pt.get_root_address(), ROOT_BASE);
    assert_eq!(pt.page_owner_id(), PageOwnerId::new(1));

    let mut pages = supply(3);
    let mapper = pt.map_range(GUEST_VA, PageSize::Size4k, 1, &mut pages).unwrap();
    // Walking from the four-level root to the leaf consumed three blank
    // pages, one per missing intermediate table.
    assert_eq!(pages.len(), 0);
    assert_eq!(mapper.vaddr(), GUEST_VA);
    assert_eq!(mapper.num_pages(), 1);

    let owner = pt.page_owner_id();
    assert!(pt.page_tracker_mut().assign_page(DATA_PAGE, owner, MemType::Ram));
    mapper.map_page(&mut pt, GUEST_VA, CleanPage4k::new(DATA_PAGE).unwrap()).unwrap();

    // The entry now translates to the mapped frame: invalidating the
    // range hands exactly that frame back, which shows the walk ends on
    // a valid leaf with frame number 0x9000_0.
    let list = pt.invalidate_range(GUEST_VA, PageSize::Size4k, 1, MemType::Ram).unwrap();
    assert_eq!(list.len(), 1);
    assert_eq!(list.get(0), DATA_PAGE);
}

#[test]
fn map_page_out_of_range() {
    let mut pt = build();
    let mut pages = supply(3);
    let mapper = pt.map_range(GUEST_VA, PageSize::Size4k, 1, &mut pages).unwrap();
    let r = mapper.map_page(&mut pt, GUEST_VA + 4096, CleanPage4k::new(DATA_PAGE).unwrap());
    assert_eq!(r, Err(Error::OutOfMapRange));
}

#[test]
fn map_page_twice_is_mapping_exists() {
    let mut pt = build();
    let mut pages = supply(3);
    let mapper = pt.map_range(GUEST_VA, PageSize::Size4k, 1, &mut pages).unwrap();
    mapper.map_page(&mut pt, GUEST_VA, CleanPage4k::new(DATA_PAGE).unwrap()).unwrap();
    let r = mapper.map_page(&mut pt, GUEST_VA, CleanPage4k::new(DATA_PAGE + 4096).unwrap());
    assert_eq!(r, Err(Error::MappingExists));
}

#[test]
fn overlapping_map_range_loses() {
    let mut pt = build();
    let mut pages = supply(3);
    let mapper = pt.map_range(GUEST_VA, PageSize::Size4k, 1, &mut pages).unwrap();

    // While the reservation is live the overlapping preparation is
    // refused with the locked-entry error.
    let mut more = supply_from(0xB000_0000, 3);
    let r = pt.map_range(GUEST_VA, PageSize::Size4k, 1, &mut more);
    assert!(matches!(r, Err(Error::PteLocked)));

    // Once the page is mapped the same call reports the mapping.
    mapper.map_page(&mut pt, GUEST_VA, CleanPage4k::new(DATA_PAGE).unwrap()).unwrap();
    let r = pt.map_range(GUEST_VA, PageSize::Size4k, 1, &mut more);
    assert!(matches!(r, Err(Error::MappingExists)));
}

#[test]
fn released_mapper_unlocks_range() {
    let mut pt = build();
    let mut pages = supply(3);
    let mapper = pt.map_range(GUEST_VA, PageSize::Size4k, 2, &mut pages).unwrap();
    mapper.release(&mut pt);
    // The entries are unused again: a fresh preparation succeeds.
    let mut more = supply_from(0xB000_0000, 3);
    assert!(pt.map_range(GUEST_VA, PageSize::Size4k, 2, &mut more).is_ok());
}

#[test]
fn huge_page_sizes_rejected() {
    let mut pt = build();
    let mut pages = supply(3);
    let r = pt.map_range(GUEST_VA, PageSize::Size2M, 1, &mut pages);
    assert!(matches!(r, Err(Error::PageSizeNotSupported(PageSize::Size2M))));
    let r = pt.invalidate_range(GUEST_VA, PageSize::Size1G, 1, MemType::Ram);
    assert!(matches!(r, Err(Error::PageSizeNotSupported(PageSize::Size1G))));
    let r = pt.get_converted_range(
        GUEST_VA,
        PageSize::Size2M,
        1,
        MemType::Ram,
        TlbVersion::new(),
    );
    assert!(matches!(r, Err(Error::PageSizeNotSupported(PageSize::Size2M))));
}

#[test]
fn invalidate_then_convert() {
    let mut pt = build();
    let owner = pt.page_owner_id();
    let mut pages = supply(3);
    let mapper = pt.map_range(GUEST_VA, PageSize::Size4k, 1, &mut pages).unwrap();
    assert!(pt.page_tracker_mut().assign_page(DATA_PAGE, owner, MemType::Ram));
    mapper.map_page(&mut pt, GUEST_VA, CleanPage4k::new(DATA_PAGE).unwrap()).unwrap();

    let list = pt.invalidate_range(GUEST_VA, PageSize::Size4k, 1, MemType::Ram).unwrap();
    assert_eq!(list.len(), 1);
    assert_eq!(list.get(0), DATA_PAGE);

    // Not yet converted: the reclaim is refused.
    let v1 = TlbVersion::new().next();
    let v2 = v1.next();
    let r = pt.get_converted_range(GUEST_VA, PageSize::Size4k, 1, MemType::Ram, v2);
    assert!(matches!(r, Err(Error::PageNotConverted)));

    // Converted at v1: a reclaim at v1 is still too early, at v2 it
    // succeeds and hands the frame out.
    assert!(pt.page_tracker_mut().convert_page(DATA_PAGE, owner, MemType::Ram, v1));
    let r = pt.get_converted_range(GUEST_VA, PageSize::Size4k, 1, MemType::Ram, v1);
    assert!(matches!(r, Err(Error::PageNotConverted)));
    let locked = pt.get_converted_range(GUEST_VA, PageSize::Size4k, 1, MemType::Ram, v2).unwrap();
    assert_eq!(locked.len(), 1);
    assert_eq!(locked.get(0), DATA_PAGE);
}

#[test]
fn invalidate_unmapped_range_fails_whole() {
    let mut pt = build();
    let owner = pt.page_owner_id();
    let mut pages = supply(3);
    let mapper = pt.map_range(GUEST_VA, PageSize::Size4k, 2, &mut pages).unwrap();
    assert!(pt.page_tracker_mut().assign_page(DATA_PAGE, owner, MemType::Ram));
    mapper.map_page(&mut pt, GUEST_VA, CleanPage4k::new(DATA_PAGE).unwrap()).unwrap();
    // The second entry is only reserved, not mapped: the two-page
    // invalidation is refused whole, and the mapped page stays mapped.
    let r = pt.invalidate_range(GUEST_VA, PageSize::Size4k, 2, MemType::Ram);
    assert!(matches!(r, Err(Error::PageNotUnmappable)));
    let list = pt.invalidate_range(GUEST_VA, PageSize::Size4k, 1, MemType::Ram).unwrap();
    assert_eq!(list.len(), 1);
}

#[test]
fn partial_failure_rolls_back() {
    let mut pt = build();
    // A five-page range that crosses a gigabyte boundary: the walk needs
    // three tables for the first page, one more mid-level table and one
    // more leaf table across the boundary.  Four blank pages are one
    // short, so the fifth supplier call comes up empty.
    let base = 0x4000_0000 - 4 * 4096;
    let mut pages = supply(4);
    let r = pt.map_range(base, PageSize::Size4k, 5, &mut pages);
    assert!(matches!(r, Err(Error::InsufficientPtePages)));

    // Every reserved entry was unlocked again: with enough pages the
    // same range is prepared cleanly.
    let mut more = supply_from(0xB000_0000, 1);
    assert!(pt.map_range(base, PageSize::Size4k, 5, &mut more).is_ok());
}

#[test]
fn misaligned_root() {
    let owner = PageOwnerId::new(1);
    let root = SequentialPages::new(0x8000_1000, 4, PageSize::Size4k).unwrap();
    let r = PlatformPageTable::new(PagingMode::Sv48x4, root, owner, PageTracker::new());
    match r {
        Err(Error::MisalignedPages(rt)) => {
            // The donated pages come back inside the error.
            assert_eq!(rt.base(), 0x8000_1000);
            assert_eq!(rt.len(), 4);
        },
        _ => panic!("expected misaligned root to be refused"),
    }
}

#[test]
fn insufficient_root_pages() {
    let owner = PageOwnerId::new(1);
    let root = SequentialPages::new(ROOT_BASE, 2, PageSize::Size4k).unwrap();
    let r = PlatformPageTable::new(PagingMode::Sv48x4, root, owner, PageTracker::new());
    match r {
        Err(Error::InsufficientPages(rt)) => {
            assert_eq!(rt.base(), ROOT_BASE);
            assert_eq!(rt.len(), 2);
        },
        _ => panic!("expected short root to be refused"),
    }
}

#[test]
fn huge_root_pages_rejected() {
    let owner = PageOwnerId::new(1);
    let root = SequentialPages::new(ROOT_BASE, 4, PageSize::Size2M).unwrap();
    let r = PlatformPageTable::new(PagingMode::Sv48x4, root, owner, PageTracker::new());
    assert!(matches!(r, Err(Error::PageSizeNotSupported(PageSize::Size2M))));
}

#[test]
fn do_fault_never_handles() {
    let pt = build();
    assert!(!pt.do_fault(GUEST_VA));
}

#[test]
fn teardown_releases_everything() {
    let mut pt = build();
    let owner = pt.page_owner_id();
    // Map one page, then invalidate it but do not reclaim it: the
    // hierarchy still owns the frame.
    let mut pages = supply(3);
    let mapper = pt.map_range(GUEST_VA, PageSize::Size4k, 1, &mut pages).unwrap();
    for i in 0..3u64 {
        assert!(pt.page_tracker_mut().assign_page(PTE_PAGE_BASE + i * 4096, owner, MemType::Ram));
    }
    assert!(pt.page_tracker_mut().assign_page(DATA_PAGE, owner, MemType::Ram));
    mapper.map_page(&mut pt, GUEST_VA, CleanPage4k::new(DATA_PAGE).unwrap()).unwrap();
    let _ = pt.invalidate_range(GUEST_VA, PageSize::Size4k, 1, MemType::Ram).unwrap();

    let (mut tracker, released) = pt.release_pages();
    // Exactly the owned frames come back: four root pages, three
    // intermediate table pages, and the invalidated data frame.
    assert_eq!(released.len(), 8);
    let mut expected = vec![
        ROOT_BASE,
        ROOT_BASE + 0x1000,
        ROOT_BASE + 0x2000,
        ROOT_BASE + 0x3000,
        PTE_PAGE_BASE,
        PTE_PAGE_BASE + 0x1000,
        PTE_PAGE_BASE + 0x2000,
        DATA_PAGE,
    ];
    let mut got = released.clone();
    got.sort();
    expected.sort();
    assert_eq!(got, expected);

    // The tracker's accounting matches: every donated frame is free
    // again and can be assigned anew.
    for f in expected {
        assert!(tracker.assign_page(f, PageOwnerId::new(9), MemType::Ram));
    }
}

#[test]
fn mapper_reports_reservation() {
    let mapper_check = |mapper: &PageTableMapper, base: u64, n: u64| {
        assert_eq!(mapper.vaddr(), base);
        assert_eq!(mapper.num_pages(), n);
    };
    let mut pt = build();
    let mut pages = supply(3);
    let mapper = pt.map_range(GUEST_VA, PageSize::Size4k, 2, &mut pages).unwrap();
    mapper_check(&mapper, GUEST_VA, 2);
}
