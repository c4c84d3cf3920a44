//! The 64-bit page-table entry primitive.
//!
//! A PTE is a single 64-bit word with the hardware-defined field layout of
//! the RISC-V privileged specification: a valid bit, the R/W/X permission
//! triple (nonzero on a valid entry makes it a leaf), user/global/accessed/
//! dirty tracking bits, one software-reserved bit used as a reservation
//! marker while the entry is invalid, and a 44-bit physical frame number in
//! bits 10..54.

use vstd::prelude::*;

verus! {

/// Hardware valid bit.
pub const PTE_VALID: u64 = 0x1;
/// Read permission bit.
pub const PTE_READ: u64 = 0x2;
/// Write permission bit.
pub const PTE_WRITE: u64 = 0x4;
/// Execute permission bit.
pub const PTE_EXECUTE: u64 = 0x8;
/// User-accessible bit.
pub const PTE_USER: u64 = 0x10;
/// Global-mapping bit.
pub const PTE_GLOBAL: u64 = 0x20;
/// Accessed tracking bit.
pub const PTE_ACCESSED: u64 = 0x40;
/// Dirty tracking bit.
pub const PTE_DIRTY: u64 = 0x80;
/// Software-reserved bit used to mark an invalid entry as reserved for a
/// pending map operation.  Hardware ignores it.
pub const PTE_LOCKED: u64 = 0x100;
/// Union of the R/W/X bits; nonzero on a valid entry means the entry is a
/// leaf rather than a pointer to a next-level table.
pub const PTE_RWX_MASK: u64 = 0xE;
/// The physical frame number occupies bits 10..54 of the entry.
pub const PTE_PFN_SHIFT: u64 = 10;
/// Mask of a 44-bit physical frame number.
pub const PTE_PFN_MASK: u64 = 0xFFF_FFFF_FFFF;

/// One of the individually addressable bits of a PTE.
#[derive(Clone, Copy, PartialEq, Eq, Structural, Debug)]
pub enum PteFieldBit {
    Valid,
    Read,
    Write,
    Execute,
    User,
    Global,
    Accessed,
    Dirty,
    Locked,
}

impl PteFieldBit {
    /// The mask selecting this bit within the 64-bit entry.
    pub open spec fn mask_spec(self) -> u64 {
        match self {
            PteFieldBit::Valid => PTE_VALID,
            PteFieldBit::Read => PTE_READ,
            PteFieldBit::Write => PTE_WRITE,
            PteFieldBit::Execute => PTE_EXECUTE,
            PteFieldBit::User => PTE_USER,
            PteFieldBit::Global => PTE_GLOBAL,
            PteFieldBit::Accessed => PTE_ACCESSED,
            PteFieldBit::Dirty => PTE_DIRTY,
            PteFieldBit::Locked => PTE_LOCKED,
        }
    }

    /// Returns the mask selecting this bit.
    #[verifier::when_used_as_spec(mask_spec)]
    pub fn mask(self) -> (r: u64)
        ensures
            r == self.mask_spec(),
    {
        match self {
            PteFieldBit::Valid => PTE_VALID,
            PteFieldBit::Read => PTE_READ,
            PteFieldBit::Write => PTE_WRITE,
            PteFieldBit::Execute => PTE_EXECUTE,
            PteFieldBit::User => PTE_USER,
            PteFieldBit::Global => PTE_GLOBAL,
            PteFieldBit::Accessed => PTE_ACCESSED,
            PteFieldBit::Dirty => PTE_DIRTY,
            PteFieldBit::Locked => PTE_LOCKED,
        }
    }
}

/// The permission set of a leaf mapping.
#[derive(Clone, Copy, PartialEq, Eq, Structural, Debug)]
pub enum PteLeafPerms {
    R,
    RW,
    RX,
    RWX,
}

impl PteLeafPerms {
    /// The R/W/X bits that encode this permission set.
    pub open spec fn bits_spec(self) -> u64 {
        match self {
            PteLeafPerms::R => 0x2,
            PteLeafPerms::RW => 0x6,
            PteLeafPerms::RX => 0xA,
            PteLeafPerms::RWX => 0xE,
        }
    }

    /// Returns the R/W/X bits that encode this permission set.
    #[verifier::when_used_as_spec(bits_spec)]
    pub fn bits(self) -> (r: u64)
        ensures
            r == self.bits_spec(),
    {
        match self {
            PteLeafPerms::R => 0x2,
            PteLeafPerms::RW => 0x6,
            PteLeafPerms::RX => 0xA,
            PteLeafPerms::RWX => 0xE,
        }
    }
}

/// A builder for the status (non-PFN) bits of a PTE.
#[derive(Clone, Copy, PartialEq, Eq, Structural, Debug)]
pub struct PteFieldBits {
    pub bits: u64,
}

impl PteFieldBits {
    /// The raw status bits.
    pub open spec fn bits_spec(self) -> u64 {
        self.bits
    }

    /// Status bits all lie below the PFN field.
    pub open spec fn wf(self) -> bool {
        self.bits < 0x400
    }

    /// The status of a valid non-leaf entry: only the valid bit is set.
    pub fn non_leaf() -> (r: Self)
        ensures
            r.bits_spec() == PTE_VALID,
            r.wf(),
    {
        Self { bits: PTE_VALID }
    }

    /// The status of a valid leaf entry with the given permissions: the
    /// valid bit, the permission bits, and the accessed and dirty bits.
    pub fn leaf_with_perms(perms: PteLeafPerms) -> (r: Self)
        ensures
            r.bits_spec() == (PTE_VALID | perms.bits_spec() | PTE_ACCESSED | PTE_DIRTY),
            r.wf(),
    {
        let bits = PTE_VALID | perms.bits() | PTE_ACCESSED | PTE_DIRTY;
        proof {
            let p = perms.bits_spec();
            assert(p == 0x2 || p == 0x6 || p == 0xA || p == 0xE);
            assert(p <= 0xE ==> (0x1u64 | p | 0x40 | 0x80) < 0x400) by (bit_vector);
        }
        Self { bits }
    }

    /// Sets one additional status bit.
    pub fn set_bit(&mut self, bit: PteFieldBit)
        requires
            old(self).wf(),
            bit != PteFieldBit::Locked,
        ensures
            final(self).bits_spec() == old(self).bits_spec() | bit.mask_spec(),
            final(self).wf(),
    {
        let m = bit.mask();
        proof {
            let b = old(self).bits;
            let mm = bit.mask_spec();
            assert(b < 0x400 && mm <= 0x100 ==> (b | mm) < 0x400) by (bit_vector);
        }
        self.bits = self.bits | m;
    }
}

/// The five mutually exclusive states a PTE can be in.
///
/// An invalid entry is `Locked` when its software-reserved bit is set,
/// `Invalidated` when it still remembers a previously mapped frame, and
/// `Unused` otherwise.  A valid entry is a `Leaf` when any permission bit
/// is set and a pointer to a next-level `Table` when none is.
#[derive(Clone, Copy, PartialEq, Eq, Structural, Debug)]
pub enum TableEntryType {
    Unused,
    Invalidated,
    Locked,
    Leaf,
    Table,
}

/// A single 64-bit page-table entry.
#[derive(Clone, Copy, PartialEq, Eq, Structural, Debug)]
pub struct Pte {
    pub bits: u64,
}

impl Pte {
    /// The raw bits of the entry.
    pub open spec fn bits_spec(self) -> u64 {
        self.bits
    }

    /// Whether the hardware valid bit is set.
    pub open spec fn valid_spec(self) -> bool {
        self.bits & PTE_VALID != 0
    }

    /// Whether any of the R/W/X permission bits is set, which on a valid
    /// entry makes it a leaf.
    pub open spec fn leaf_spec(self) -> bool {
        self.bits & PTE_RWX_MASK != 0
    }

    /// Whether the software-reserved reservation bit is set.
    pub open spec fn locked_spec(self) -> bool {
        self.bits & PTE_LOCKED != 0
    }

    /// The physical frame number held in bits 10..54.
    pub open spec fn pfn_spec(self) -> u64 {
        (self.bits >> PTE_PFN_SHIFT) & PTE_PFN_MASK
    }

    /// The state this entry is in.  Classification is total: every 64-bit
    /// value falls in exactly one state.
    pub open spec fn entry_type(self) -> TableEntryType {
        if !self.valid_spec() {
            if self.locked_spec() {
                TableEntryType::Locked
            } else if self.pfn_spec() != 0 {
                TableEntryType::Invalidated
            } else {
                TableEntryType::Unused
            }
        } else if !self.leaf_spec() {
            TableEntryType::Table
        } else {
            TableEntryType::Leaf
        }
    }

    /// An entry with the given raw bits.
    pub fn from_bits(bits: u64) -> (r: Self)
        ensures
            r.bits_spec() == bits,
    {
        Self { bits }
    }

    /// A zero entry, which classifies as `Unused`.
    pub fn zero() -> (r: Self)
        ensures
            r.bits_spec() == 0,
            r.entry_type() == TableEntryType::Unused,
    {
        proof {
            assert(0u64 & PTE_VALID == 0 && 0u64 & PTE_LOCKED == 0 && (0u64 >> PTE_PFN_SHIFT)
                & PTE_PFN_MASK == 0) by (bit_vector);
        }
        Self { bits: 0 }
    }

    /// Returns the raw bits of the entry.
    #[verifier::when_used_as_spec(bits_spec)]
    pub fn bits(self) -> (r: u64)
        ensures
            r == self.bits_spec(),
    {
        self.bits
    }

    /// Returns whether the entry is valid.
    #[verifier::when_used_as_spec(valid_spec)]
    pub fn valid(self) -> (r: bool)
        ensures
            r == self.valid_spec(),
    {
        self.bits & PTE_VALID != 0
    }

    /// Returns whether the entry has any permission bit set.
    #[verifier::when_used_as_spec(leaf_spec)]
    pub fn leaf(self) -> (r: bool)
        ensures
            r == self.leaf_spec(),
    {
        self.bits & PTE_RWX_MASK != 0
    }

    /// Returns whether the reservation bit is set.
    #[verifier::when_used_as_spec(locked_spec)]
    pub fn locked(self) -> (r: bool)
        ensures
            r == self.locked_spec(),
    {
        self.bits & PTE_LOCKED != 0
    }

    /// Returns the physical frame number field.
    #[verifier::when_used_as_spec(pfn_spec)]
    pub fn pfn(self) -> (r: u64)
        ensures
            r == self.pfn_spec(),
    {
        (self.bits >> PTE_PFN_SHIFT) & PTE_PFN_MASK
    }

    /// Returns the state of the entry.
    pub fn state(self) -> (r: TableEntryType)
        ensures
            r == self.entry_type(),
    {
        if !self.valid() {
            if self.locked() {
                TableEntryType::Locked
            } else if self.pfn() != 0 {
                TableEntryType::Invalidated
            } else {
                TableEntryType::Unused
            }
        } else if !self.leaf() {
            TableEntryType::Table
        } else {
            TableEntryType::Leaf
        }
    }

    /// Overwrites the entry with the given frame number and status bits.
    pub fn set(&mut self, pfn: u64, status: &PteFieldBits)
        requires
            pfn <= PTE_PFN_MASK,
            status.wf(),
        ensures
            final(self).bits_spec() == (pfn << PTE_PFN_SHIFT) | status.bits_spec(),
            final(self).pfn_spec() == pfn,
            final(self).valid_spec() == (status.bits_spec() & PTE_VALID != 0),
            final(self).leaf_spec() == (status.bits_spec() & PTE_RWX_MASK != 0),
            final(self).locked_spec() == (status.bits_spec() & PTE_LOCKED != 0),
    {
        let bits = (pfn << PTE_PFN_SHIFT) | status.bits;
        proof {
            let s = status.bits_spec();
            let b = (pfn << 10) | s;
            assert(pfn <= 0xFFF_FFFF_FFFFu64 && s < 0x400 ==> (b >> 10) & 0xFFF_FFFF_FFFFu64
                == pfn) by (bit_vector)
                requires
                    b == (pfn << 10) | s,
            ;
            assert(s < 0x400 ==> b & 0x1 == s & 0x1) by (bit_vector)
                requires
                    b == (pfn << 10) | s,
            ;
            assert(s < 0x400 ==> b & 0xE == s & 0xE) by (bit_vector)
                requires
                    b == (pfn << 10) | s,
            ;
            assert(s < 0x400 ==> b & 0x100 == s & 0x100) by (bit_vector)
                requires
                    b == (pfn << 10) | s,
            ;
        }
        self.bits = bits;
    }

    /// Sets the reservation bit, leaving every other bit unchanged.
    pub fn lock(&mut self)
        ensures
            final(self).bits_spec() == old(self).bits_spec() | PTE_LOCKED,
            final(self).valid_spec() == old(self).valid_spec(),
            final(self).leaf_spec() == old(self).leaf_spec(),
            final(self).pfn_spec() == old(self).pfn_spec(),
            final(self).locked_spec(),
    {
        proof {
            let b = old(self).bits;
            assert(((b | 0x100) & 0x1 == b & 0x1) && ((b | 0x100) & 0xE == b & 0xE) && (((b
                | 0x100) >> 10) & 0xFFF_FFFF_FFFFu64 == (b >> 10) & 0xFFF_FFFF_FFFFu64) && ((b
                | 0x100) & 0x100 != 0)) by (bit_vector);
        }
        self.bits = self.bits | PTE_LOCKED;
    }

    /// Clears the reservation bit, leaving every other bit unchanged.
    pub fn unlock(&mut self)
        ensures
            final(self).bits_spec() == old(self).bits_spec() & !PTE_LOCKED,
            final(self).valid_spec() == old(self).valid_spec(),
            final(self).leaf_spec() == old(self).leaf_spec(),
            final(self).pfn_spec() == old(self).pfn_spec(),
            !final(self).locked_spec(),
            old(self).locked_spec() ==> (final(self).bits_spec() | PTE_LOCKED) == old(
                self,
            ).bits_spec(),
    {
        proof {
            let b = old(self).bits;
            assert((((b & !0x100) & 0x1 == b & 0x1) && ((b & !0x100) & 0xE == b & 0xE) && (((b
                & !0x100) >> 10) & 0xFFF_FFFF_FFFFu64 == (b >> 10) & 0xFFF_FFFF_FFFFu64) && ((b
                & !0x100) & 0x100 == 0)) && (b & 0x100 != 0 ==> ((b & !0x100) | 0x100) == b))
                by (bit_vector);
        }
        self.bits = self.bits & !PTE_LOCKED;
    }

    /// Clears the valid bit, leaving every other bit (the frame number in
    /// particular) unchanged.
    pub fn invalidate(&mut self)
        ensures
            final(self).bits_spec() == old(self).bits_spec() & !PTE_VALID,
            !final(self).valid_spec(),
            final(self).leaf_spec() == old(self).leaf_spec(),
            final(self).pfn_spec() == old(self).pfn_spec(),
            final(self).locked_spec() == old(self).locked_spec(),
    {
        proof {
            let b = old(self).bits;
            assert((((b & !0x1) & 0x1 == 0) && ((b & !0x1) & 0xE == b & 0xE) && (((b & !0x1) >> 10)
                & 0xFFF_FFFF_FFFFu64 == (b >> 10) & 0xFFF_FFFF_FFFFu64) && ((b & !0x1) & 0x100 == b
                & 0x100))) by (bit_vector);
        }
        self.bits = self.bits & !PTE_VALID;
    }
}

/// An all-zero entry classifies as `Unused`.
pub proof fn lemma_zero_pte_unused(pte: Pte)
    requires
        pte.bits_spec() == 0,
    ensures
        pte.entry_type() == TableEntryType::Unused,
        !pte.valid_spec(),
        !pte.locked_spec(),
        pte.pfn_spec() == 0,
{
    let b = pte.bits;
    assert(b == 0 ==> b & 0x1 == 0 && b & 0x100 == 0 && (b >> 10) & 0xFFF_FFFF_FFFFu64 == 0)
        by (bit_vector);
}

/// A frame number extracted from an entry always fits its 44-bit field.
pub proof fn lemma_pfn_bound(pte: Pte)
    ensures
        pte.pfn_spec() <= PTE_PFN_MASK,
{
    let b = pte.bits;
    assert((b >> 10) & 0xFFF_FFFF_FFFFu64 <= 0xFFF_FFFF_FFFFu64) by (bit_vector);
}

/// Classification is total and mutually exclusive: for every 64-bit entry,
/// exactly one of the five state conditions holds, and `entry_type` returns
/// the state whose condition holds.
pub proof fn lemma_entry_type_total(pte: Pte)
    ensures
        (pte.entry_type() == TableEntryType::Unused) <==> (!pte.valid_spec() && !pte.locked_spec()
            && pte.pfn_spec() == 0),
        (pte.entry_type() == TableEntryType::Invalidated) <==> (!pte.valid_spec()
            && !pte.locked_spec() && pte.pfn_spec() != 0),
        (pte.entry_type() == TableEntryType::Locked) <==> (!pte.valid_spec()
            && pte.locked_spec()),
        (pte.entry_type() == TableEntryType::Leaf) <==> (pte.valid_spec() && pte.leaf_spec()),
        (pte.entry_type() == TableEntryType::Table) <==> (pte.valid_spec() && !pte.leaf_spec()),
{
}

/// The transitions legal from each state land in their declared target
/// state: reserving an unused or invalidated entry makes it locked,
/// releasing a reservation makes it unused or invalidated according to
/// the remembered frame, invalidating a leaf keeps its frame and makes it
/// invalidated, installing a bare valid entry over a frame number makes a
/// table pointer, and installing permission bits makes a leaf.
pub proof fn lemma_transition_closure(pte: Pte, pfn: u64, perms: PteLeafPerms)
    requires
        pfn != 0,
        pfn <= PTE_PFN_MASK,
    ensures
        pte.entry_type() == TableEntryType::Unused || pte.entry_type()
            == TableEntryType::Invalidated ==> (Pte {
            bits: pte.bits_spec() | PTE_LOCKED,
        }).entry_type() == TableEntryType::Locked,
        pte.entry_type() == TableEntryType::Locked ==> (Pte {
            bits: pte.bits_spec() & !PTE_LOCKED,
        }).entry_type() == (if pte.pfn_spec() == 0 {
            TableEntryType::Unused
        } else {
            TableEntryType::Invalidated
        }),
        pte.entry_type() == TableEntryType::Leaf && !pte.locked_spec() && pte.pfn_spec() != 0
            ==> (Pte { bits: pte.bits_spec() & !PTE_VALID }).entry_type()
            == TableEntryType::Invalidated,
        (Pte { bits: (pfn << PTE_PFN_SHIFT) | PTE_VALID }).entry_type()
            == TableEntryType::Table,
        (Pte {
            bits: (pfn << PTE_PFN_SHIFT) | (PTE_VALID | perms.bits_spec() | PTE_ACCESSED
                | PTE_DIRTY | PTE_USER),
        }).entry_type() == TableEntryType::Leaf,
{
    let b = pte.bits;
    assert(((b | 0x100) & 0x1 == b & 0x1) && ((b | 0x100) & 0x100 != 0)) by (bit_vector);
    assert((((b & !0x100) & 0x1 == b & 0x1) && ((b & !0x100) & 0x100 == 0) && (((b & !0x100)
        >> 10) & 0xFFF_FFFF_FFFFu64 == (b >> 10) & 0xFFF_FFFF_FFFFu64)) && (((b & !0x1) & 0x1
        == 0) && ((b & !0x1) & 0x100 == b & 0x100) && (((b & !0x1) >> 10) & 0xFFF_FFFF_FFFFu64
        == (b >> 10) & 0xFFF_FFFF_FFFFu64))) by (bit_vector);
    let t = (pfn << 10) | 0x1u64;
    assert(pfn != 0 && pfn <= 0xFFF_FFFF_FFFFu64 ==> (t & 0x1 != 0) && (t & 0xE == 0))
        by (bit_vector)
        requires
            t == (pfn << 10) | 0x1u64,
    ;
    let p = perms.bits_spec();
    assert(p == 0x2 || p == 0x6 || p == 0xA || p == 0xE);
    let s = 0x1u64 | p | 0x40 | 0x80 | 0x10;
    let l = (pfn << 10) | s;
    assert((p == 0x2 || p == 0x6 || p == 0xA || p == 0xE) ==> (l & 0x1 != 0) && (l & 0xE != 0))
        by (bit_vector)
        requires
            s == 0x1u64 | p | 0x40 | 0x80 | 0x10,
            l == (pfn << 10) | s,
    ;
}

/// Reserving an `Unused` or `Invalidated` entry and then releasing the
/// reservation restores the entry bit for bit, and with it the entry's
/// original state.
pub proof fn lemma_lock_unlock_round_trip(pte: Pte)
    requires
        pte.entry_type() == TableEntryType::Unused || pte.entry_type()
            == TableEntryType::Invalidated,
    ensures
        ((pte.bits_spec() | PTE_LOCKED) & !PTE_LOCKED) == pte.bits_spec(),
        (Pte { bits: (pte.bits_spec() | PTE_LOCKED) & !PTE_LOCKED }).entry_type()
            == pte.entry_type(),
{
    let b = pte.bits;
    assert(b & 0x100 == 0 ==> ((b | 0x100) & !0x100) == b) by (bit_vector);
}

} // verus!
