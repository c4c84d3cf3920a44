//! Tests of the 64-bit page-table entry primitive: field extraction,
//! classification into the five states, and the transitions between them.

use riscv_page_tables::pte::{
    Pte, PteFieldBit, PteFieldBits, PteLeafPerms, TableEntryType, PTE_ACCESSED, PTE_DIRTY,
    PTE_LOCKED, PTE_USER, PTE_VALID,
};

#[test]
fn zero_entry_is_unused() {
    let p = Pte::zero();
    assert_eq!(p.bits(), 0);
    assert!(!p.valid());
    assert!(!p.locked());
    assert_eq!(p.pfn(), 0);
    assert_eq!(p.state(), TableEntryType::Unused);
}

#[test]
fn classification_covers_every_state() {
    // Invalid, unlocked, zero frame number: unused.
    assert_eq!(Pte::from_bits(0).state(), TableEntryType::Unused);
    // Invalid with a remembered frame number: invalidated.
    assert_eq!(Pte::from_bits(0x9000_0 << 10).state(), TableEntryType::Invalidated);
    // Invalid with the software-reserved bit: locked, whatever the frame.
    assert_eq!(Pte::from_bits(PTE_LOCKED).state(), TableEntryType::Locked);
    assert_eq!(Pte::from_bits(PTE_LOCKED | (0x9000_0 << 10)).state(), TableEntryType::Locked);
    // Valid with a permission bit: leaf.
    assert_eq!(Pte::from_bits(PTE_VALID | 0x2).state(), TableEntryType::Leaf);
    // Valid without permission bits: pointer to the next table.
    assert_eq!(Pte::from_bits(PTE_VALID).state(), TableEntryType::Table);
}

#[test]
fn classification_is_exclusive_over_samples() {
    // Walk a spread of bit patterns and check the classification rules
    // hold of each: exactly the state its bits dictate.
    let samples: [u64; 8] = [
        0,
        1,
        0x100,
        0x101,
        0xDF | (0x123 << 10),
        0x1 | (0x55 << 10),
        0x400,
        u64::MAX,
    ];
    for bits in samples {
        let p = Pte::from_bits(bits);
        let expected = if !p.valid() {
            if p.locked() {
                TableEntryType::Locked
            } else if p.pfn() != 0 {
                TableEntryType::Invalidated
            } else {
                TableEntryType::Unused
            }
        } else if !p.leaf() {
            TableEntryType::Table
        } else {
            TableEntryType::Leaf
        };
        assert_eq!(p.state(), expected);
    }
}

#[test]
fn lock_transitions_to_locked() {
    let mut p = Pte::zero();
    p.lock();
    assert_eq!(p.state(), TableEntryType::Locked);
    assert_eq!(p.bits(), PTE_LOCKED);

    let mut q = Pte::from_bits(0x42 << 10);
    assert_eq!(q.state(), TableEntryType::Invalidated);
    q.lock();
    assert_eq!(q.state(), TableEntryType::Locked);
    assert_eq!(q.pfn(), 0x42);
}

#[test]
fn lock_unlock_round_trip_restores_bits() {
    // From unused.
    let mut p = Pte::zero();
    let before = p.bits();
    p.lock();
    p.unlock();
    assert_eq!(p.bits(), before);
    assert_eq!(p.state(), TableEntryType::Unused);

    // From invalidated: the remembered frame number survives.
    let mut q = Pte::from_bits(0x9000_0 << 10);
    let before = q.bits();
    q.lock();
    q.unlock();
    assert_eq!(q.bits(), before);
    assert_eq!(q.state(), TableEntryType::Invalidated);
    assert_eq!(q.pfn(), 0x9000_0);
}

#[test]
fn set_installs_leaf_with_perms() {
    let mut status = PteFieldBits::leaf_with_perms(PteLeafPerms::RWX);
    status.set_bit(PteFieldBit::User);
    let mut p = Pte::zero();
    p.set(0x9000_0, &status);
    assert_eq!(p.state(), TableEntryType::Leaf);
    assert_eq!(p.pfn(), 0x9000_0);
    assert_eq!(p.bits(), (0x9000_0 << 10) | PTE_VALID | 0xE | PTE_ACCESSED | PTE_DIRTY | PTE_USER);
}

#[test]
fn set_installs_next_table_pointer() {
    let mut p = Pte::zero();
    p.set(0x8000_1, &PteFieldBits::non_leaf());
    assert_eq!(p.state(), TableEntryType::Table);
    assert_eq!(p.pfn(), 0x8000_1);
    assert_eq!(p.bits(), (0x8000_1 << 10) | PTE_VALID);
}

#[test]
fn invalidate_keeps_frame_number() {
    let mut status = PteFieldBits::leaf_with_perms(PteLeafPerms::RW);
    status.set_bit(PteFieldBit::User);
    let mut p = Pte::zero();
    p.set(0x1234, &status);
    assert_eq!(p.state(), TableEntryType::Leaf);
    p.invalidate();
    assert_eq!(p.state(), TableEntryType::Invalidated);
    assert_eq!(p.pfn(), 0x1234);
}

#[test]
fn perms_encode_rwx_bits() {
    assert_eq!(PteLeafPerms::R.bits(), 0x2);
    assert_eq!(PteLeafPerms::RW.bits(), 0x6);
    assert_eq!(PteLeafPerms::RX.bits(), 0xA);
    assert_eq!(PteLeafPerms::RWX.bits(), 0xE);
}

#[test]
fn field_bit_masks() {
    assert_eq!(PteFieldBit::Valid.mask(), 0x1);
    assert_eq!(PteFieldBit::Read.mask(), 0x2);
    assert_eq!(PteFieldBit::Write.mask(), 0x4);
    assert_eq!(PteFieldBit::Execute.mask(), 0x8);
    assert_eq!(PteFieldBit::User.mask(), 0x10);
    assert_eq!(PteFieldBit::Global.mask(), 0x20);
    assert_eq!(PteFieldBit::Accessed.mask(), 0x40);
    assert_eq!(PteFieldBit::Dirty.mask(), 0x80);
    assert_eq!(PteFieldBit::Locked.mask(), 0x100);
}
