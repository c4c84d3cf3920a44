//! Tests of the paging modes and levels: index extraction, level
//! geometry, and the mode descriptors.

use riscv_page_tables::level::{PagingMode, ENTRIES_PER_PAGE};
use riscv_page_tables::pages::PageSize;

#[test]
fn entries_per_page() {
    assert_eq!(ENTRIES_PER_PAGE, 512);
}

#[test]
fn sv48_geometry() {
    let root = PagingMode::Sv48.root_level();
    assert_eq!(PagingMode::Sv48.root_depth(), 4);
    assert!(!root.is_leaf());
    assert_eq!(root.addr_shift(), 39);
    assert_eq!(root.addr_width(), 9);
    assert_eq!(root.entries(), 512);
    assert_eq!(root.table_pages(), 1);
    assert_eq!(root.leaf_page_size(), PageSize::Size512G);

    let l3 = root.next().unwrap();
    assert_eq!(l3.addr_shift(), 30);
    let l2 = l3.next().unwrap();
    assert_eq!(l2.addr_shift(), 21);
    let l1 = l2.next().unwrap();
    assert_eq!(l1.addr_shift(), 12);
    assert!(l1.is_leaf());
    assert_eq!(l1.leaf_page_size(), PageSize::Size4k);
    assert!(l1.next().is_none());
}

#[test]
fn sv48x4_widened_root() {
    let root = PagingMode::Sv48x4.root_level();
    assert_eq!(root.addr_width(), 11);
    assert_eq!(root.entries(), 2048);
    assert_eq!(root.table_pages(), 4);
    assert_eq!(PagingMode::Sv48x4.top_level_align(), 0x4000);
    assert_eq!(PagingMode::Sv48.top_level_align(), 0x1000);
    // Levels below the root are not widened.
    let l3 = root.next().unwrap();
    assert_eq!(l3.addr_width(), 9);
    assert_eq!(l3.entries(), 512);
    assert_eq!(l3.table_pages(), 1);
}

#[test]
fn index_formula() {
    // The index at a level is the level's slice of the address bits.
    let root = PagingMode::Sv48x4.root_level();
    let l1 = PagingMode::Sv48x4.root_level().next().unwrap().next().unwrap().next().unwrap();
    let a: u64 = 0x4_0000_0000;
    assert_eq!(root.index_of(a), (a >> 39) & 0x7FF);
    assert_eq!(l1.index_of(a), (a >> 12) & 0x1FF);
    // A worked example: bits spread across every level.
    let b: u64 = (3 << 39) | (5 << 30) | (7 << 21) | (9 << 12) | 0x123;
    assert_eq!(root.index_of(b), 3);
    let l3 = root.next().unwrap();
    let l2 = l3.next().unwrap();
    assert_eq!(l3.index_of(b), 5);
    assert_eq!(l2.index_of(b), 7);
    assert_eq!(l1.index_of(b), 9);
    // Indices are always within the level's entry count.
    assert!(root.index_of(u64::MAX) < 2048);
    assert!(l1.index_of(u64::MAX) < 512);
}

#[test]
fn index_inverse_ranges_are_contiguous() {
    // All addresses of one 4 KiB page share every level's index, and the
    // next page bumps exactly the leaf index.
    let l1 = PagingMode::Sv39.root_level().next().unwrap().next().unwrap();
    assert_eq!(l1.index_of(0x2000), 2);
    assert_eq!(l1.index_of(0x2FFF), 2);
    assert_eq!(l1.index_of(0x3000), 3);
    // The leaf indices cover a 2 MiB span and then repeat.
    assert_eq!(l1.index_of(0x1F_F000), 511);
    assert_eq!(l1.index_of(0x20_0000), 0);
}

#[test]
fn addr_span_per_mode() {
    assert_eq!(PagingMode::Sv39.addr_span(), 1u64 << 39);
    assert_eq!(PagingMode::Sv48.addr_span(), 1u64 << 48);
    assert_eq!(PagingMode::Sv57.addr_span(), 1u64 << 57);
    assert_eq!(PagingMode::Sv39x4.addr_span(), 1u64 << 41);
    assert_eq!(PagingMode::Sv48x4.addr_span(), 1u64 << 50);
    assert_eq!(PagingMode::Sv57x4.addr_span(), 1u64 << 59);
}

#[test]
fn satp_and_hgatp_mode_values() {
    assert_eq!(PagingMode::Sv39.satp_mode_value(), Some(8));
    assert_eq!(PagingMode::Sv48.satp_mode_value(), Some(9));
    assert_eq!(PagingMode::Sv57.satp_mode_value(), Some(10));
    assert_eq!(PagingMode::Sv48x4.satp_mode_value(), None);
    assert_eq!(PagingMode::Sv48x4.hgatp_mode_value(), Some(9));
    assert_eq!(PagingMode::Sv48.hgatp_mode_value(), None);
}

#[test]
fn max_pte_pages_counts_interior_tables() {
    // One page needs one table at each level below the root.
    assert_eq!(PagingMode::Sv48.max_pte_pages(1), 3);
    assert_eq!(PagingMode::Sv39.max_pte_pages(1), 2);
    assert_eq!(PagingMode::Sv57.max_pte_pages(1), 4);
    // 512 pages still fit one leaf table.
    assert_eq!(PagingMode::Sv48.max_pte_pages(512), 3);
    // 513 pages need a second leaf table.
    assert_eq!(PagingMode::Sv48.max_pte_pages(513), 4);
    assert_eq!(PagingMode::Sv48.max_pte_pages(0), 0);
}
