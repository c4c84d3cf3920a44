//! Tests of the frame-ownership tracker: assigning, converting, locking
//! for reclaim, and releasing frames.

use riscv_page_tables::page_tracker::{PageTracker, TlbVersion};
use riscv_page_tables::pages::{MemType, PageOwnerId};

#[test]
fn assign_and_query() {
    let mut tracker = PageTracker::new();
    let owner = PageOwnerId::new(1);
    assert!(tracker.assign_page(0x9000_0000, owner, MemType::Ram));
    assert!(tracker.is_mapped_page(0x9000_0000, owner, MemType::Ram));
    // Wrong owner, wrong type, or unknown frame: not mapped.
    assert!(!tracker.is_mapped_page(0x9000_0000, PageOwnerId::new(2), MemType::Ram));
    assert!(!tracker.is_mapped_page(0x9000_0000, owner, MemType::Mmio));
    assert!(!tracker.is_mapped_page(0x9000_1000, owner, MemType::Ram));
}

#[test]
fn double_assign_refused() {
    let mut tracker = PageTracker::new();
    let owner = PageOwnerId::new(1);
    assert!(tracker.assign_page(0x9000_0000, owner, MemType::Ram));
    assert!(!tracker.assign_page(0x9000_0000, PageOwnerId::new(2), MemType::Ram));
    // Releasing frees the slot for a new assignment.
    assert!(tracker.release_page_by_addr(0x9000_0000, owner));
    assert!(tracker.assign_page(0x9000_0000, PageOwnerId::new(2), MemType::Ram));
}

#[test]
fn convert_and_version_gating() {
    let mut tracker = PageTracker::new();
    let owner = PageOwnerId::new(7);
    let v1 = TlbVersion::new().next();
    let v2 = v1.next();
    assert!(tracker.assign_page(0x9000_0000, owner, MemType::Ram));
    assert!(tracker.convert_page(0x9000_0000, owner, MemType::Ram, v1));
    // Converted at v1: visible only to a strictly newer version.
    assert!(!tracker.is_converted_page(0x9000_0000, owner, MemType::Ram, v1));
    assert!(tracker.is_converted_page(0x9000_0000, owner, MemType::Ram, v2));
    // No longer mapped.
    assert!(!tracker.is_mapped_page(0x9000_0000, owner, MemType::Ram));
}

#[test]
fn convert_requires_mapped() {
    let mut tracker = PageTracker::new();
    let owner = PageOwnerId::new(7);
    let v1 = TlbVersion::new().next();
    assert!(!tracker.convert_page(0x9000_0000, owner, MemType::Ram, v1));
}

#[test]
fn get_converted_locks_exclusively() {
    let mut tracker = PageTracker::new();
    let owner = PageOwnerId::new(7);
    let v1 = TlbVersion::new().next();
    let v2 = v1.next();
    assert!(tracker.assign_page(0x9000_0000, owner, MemType::Ram));
    assert!(tracker.convert_page(0x9000_0000, owner, MemType::Ram, v1));
    assert!(tracker.get_converted_page(0x9000_0000, owner, MemType::Ram, v2));
    // Locked: a second exclusive claim is refused.
    assert!(!tracker.get_converted_page(0x9000_0000, owner, MemType::Ram, v2));
    // Unlocking restores the converted state.
    assert!(tracker.unlock_converted_page(0x9000_0000, owner));
    assert!(tracker.is_converted_page(0x9000_0000, owner, MemType::Ram, v2));
    assert!(tracker.get_converted_page(0x9000_0000, owner, MemType::Ram, v2));
}

#[test]
fn release_requires_owner() {
    let mut tracker = PageTracker::new();
    let owner = PageOwnerId::new(1);
    assert!(tracker.assign_page(0x9000_0000, owner, MemType::Ram));
    assert!(!tracker.release_page_by_addr(0x9000_0000, PageOwnerId::new(2)));
    assert!(tracker.release_page_by_addr(0x9000_0000, owner));
    // Already free: releasing again is refused.
    assert!(!tracker.release_page_by_addr(0x9000_0000, owner));
}

#[test]
fn tlb_version_advances() {
    let v0 = TlbVersion::new();
    let v1 = v0.next();
    assert_eq!(v0.version, 0);
    assert_eq!(v1.version, 1);
    assert_eq!(v1.next().version, 2);
}
