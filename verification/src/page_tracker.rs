//! Ownership bookkeeping for physical frames.
//!
//! The tracker records, for every donated frame, which owner holds it and
//! where it stands in the conversion lifecycle: mapped, converted at some
//! TLB version, converted and exclusively locked, or released.  The paging
//! hierarchy consults it before unmapping and before handing out converted
//! frames, and returns every owned frame to it on teardown.

use vstd::prelude::*;

use crate::pages::{frame_addr_wf, MemType, PageOwnerId};

verus! {

/// A monotonic counter advanced on global TLB shootdowns.  A frame
/// converted at version `v` may be handed out only once the counter has
/// moved strictly past `v`, which proves no stale translation remains.
#[derive(Clone, Copy, PartialEq, Eq, Structural, Debug)]
pub struct TlbVersion {
    pub version: u64,
}

impl TlbVersion {
    /// The initial version.
    pub fn new() -> (r: Self)
        ensures
            r.version == 0,
    {
        Self { version: 0 }
    }

    /// The next version.
    pub fn next(self) -> (r: Self)
        requires
            self.version < u64::MAX,
        ensures
            r.version == self.version + 1,
    {
        Self { version: self.version + 1 }
    }
}

/// Where a tracked frame stands in its lifecycle.
#[derive(Clone, Copy, PartialEq, Eq, Structural, Debug)]
pub enum FrameState {
    /// Owned and usable by its owner; may be mapped into the owner's
    /// hierarchy.
    Mapped,
    /// Invalidated and converted at the recorded TLB version, awaiting
    /// reclaim.
    Converted { at: TlbVersion },
    /// Converted and exclusively locked by a holder of a locked page
    /// list.
    ConvertedLocked { at: TlbVersion },
    /// Released back to the tracker.
    Free,
}

/// The tracker's record of one physical frame.
#[derive(Clone, Copy, PartialEq, Eq, Structural, Debug)]
pub struct FrameInfo {
    pub addr: u64,
    pub owner: PageOwnerId,
    pub mem_type: MemType,
    pub state: FrameState,
}

/// Whether some record in `s` is for the frame at `addr`.
pub open spec fn tracks(s: Seq<FrameInfo>, addr: u64) -> bool {
    exists|i: int| 0 <= i < s.len() && s[i].addr == addr
}

/// The index of the record for the frame at `addr`.
pub open spec fn tracked_index(s: Seq<FrameInfo>, addr: u64) -> int {
    choose|i: int| 0 <= i < s.len() && s[i].addr == addr
}

/// The record for the frame at `addr`.
pub open spec fn frame_of(s: Seq<FrameInfo>, addr: u64) -> FrameInfo {
    s[tracked_index(s, addr)]
}

/// A shared ledger of physical-frame ownership.
pub struct PageTracker {
    frames: Vec<FrameInfo>,
}

impl View for PageTracker {
    type V = Seq<FrameInfo>;

    closed spec fn view(&self) -> Seq<FrameInfo> {
        self.frames@
    }
}

impl PageTracker {
    /// Records are per frame: no two records name the same address, and
    /// every recorded address is a usable frame address.
    pub open spec fn wf(self) -> bool {
        &&& forall|i: int, j: int|
            0 <= i < self@.len() && 0 <= j < self@.len() && i != j ==> self@[i].addr
                != self@[j].addr
        &&& forall|i: int| 0 <= i < self@.len() ==> frame_addr_wf(#[trigger] self@[i].addr)
    }

    /// An empty ledger.
    pub fn new() -> (r: Self)
        ensures
            r@ =~= Seq::<FrameInfo>::empty(),
            r.wf(),
    {
        Self { frames: Vec::new() }
    }

    /// Finds the position of the record for `addr`, if one exists.
    fn find_frame(&self, addr: u64) -> (r: Option<usize>)
        requires
            self.wf(),
        ensures
            match r {
                Some(i) => i < self@.len() && self@[i as int].addr == addr && tracks(self@, addr)
                    && tracked_index(self@, addr) == i,
                None => !tracks(self@, addr),
            },
    {
        let mut i: usize = 0;
        while i < self.frames.len()
            invariant
                self.wf(),
                i <= self@.len(),
                forall|j: int| 0 <= j < i ==> self@[j].addr != addr,
            decreases self@.len() - i,
        {
            if self.frames[i].addr == addr {
                proof {
                    let k = tracked_index(self@, addr);
                    assert(0 <= k < self@.len() && self@[k].addr == addr);
                    assert(k == i);
                }
                return Some(i);
            }
            i = i + 1;
        }
        None
    }

    /// Whether `addr` is a frame assigned to `owner` with memory type
    /// `mem_type` in the mapped state.
    pub open spec fn is_mapped_page_spec(self, addr: u64, owner: PageOwnerId, mem_type: MemType) -> bool {
        &&& tracks(self@, addr)
        &&& frame_of(self@, addr).owner == owner
        &&& frame_of(self@, addr).mem_type == mem_type
        &&& frame_of(self@, addr).state == FrameState::Mapped
    }

    /// Returns whether `addr` is mapped for `owner` with the given memory
    /// type.
    pub fn is_mapped_page(&self, addr: u64, owner: PageOwnerId, mem_type: MemType) -> (r: bool)
        requires
            self.wf(),
        ensures
            r == self.is_mapped_page_spec(addr, owner, mem_type),
    {
        match self.find_frame(addr) {
            Some(i) => {
                let f = self.frames[i];
                f.owner.id == owner.id && f.mem_type == mem_type && matches!(f.state, FrameState::Mapped)
            },
            None => false,
        }
    }

    /// Whether `addr` is a frame of `owner` converted at a TLB version
    /// strictly older than `tlb_version`.
    pub open spec fn is_converted_page_spec(
        self,
        addr: u64,
        owner: PageOwnerId,
        mem_type: MemType,
        tlb_version: TlbVersion,
    ) -> bool {
        &&& tracks(self@, addr)
        &&& frame_of(self@, addr).owner == owner
        &&& frame_of(self@, addr).mem_type == mem_type
        &&& frame_of(self@, addr).state matches FrameState::Converted { at } && at.version
            < tlb_version.version
    }

    /// Returns whether `addr` was converted for `owner` at a version
    /// strictly older than `tlb_version`.
    pub fn is_converted_page(
        &self,
        addr: u64,
        owner: PageOwnerId,
        mem_type: MemType,
        tlb_version: TlbVersion,
    ) -> (r: bool)
        requires
            self.wf(),
        ensures
            r == self.is_converted_page_spec(addr, owner, mem_type, tlb_version),
    {
        match self.find_frame(addr) {
            Some(i) => {
                let f = self.frames[i];
                f.owner.id == owner.id && f.mem_type == mem_type && match f.state {
                    FrameState::Converted { at } => at.version < tlb_version.version,
                    _ => false,
                }
            },
            None => false,
        }
    }

    /// Registers the frame at `addr` as mapped for `owner`.  Refused when
    /// the frame is already held in a non-free state.
    pub fn assign_page(&mut self, addr: u64, owner: PageOwnerId, mem_type: MemType) -> (r: bool)
        requires
            old(self).wf(),
            frame_addr_wf(addr),
        ensures
            final(self).wf(),
            r == (!tracks(old(self)@, addr) || frame_of(old(self)@, addr).state
                == FrameState::Free),
            r ==> tracks(final(self)@, addr) && frame_of(final(self)@, addr) == (FrameInfo {
                addr,
                owner,
                mem_type,
                state: FrameState::Mapped,
            }),
            !r ==> final(self)@ =~= old(self)@,
            forall|a: u64|
                a != addr ==> tracks(final(self)@, a) == tracks(old(self)@, a) && (tracks(
                    old(self)@,
                    a,
                ) ==> frame_of(final(self)@, a) == frame_of(old(self)@, a)),
    {
        let info = FrameInfo { addr, owner, mem_type, state: FrameState::Mapped };
        match self.find_frame(addr) {
            Some(i) => {
                if matches!(self.frames[i].state, FrameState::Free) {
                    self.frames[i] = info;
                    proof {
                        lemma_update_preserves_others(old(self)@, self@, i as int);
                    }
                    true
                } else {
                    false
                }
            },
            None => {
                self.frames.push(info);
                proof {
                    lemma_push_preserves_others(old(self)@, self@);
                }
                true
            },
        }
    }

    /// Marks the mapped frame at `addr` as converted at version `at`.
    /// Refused unless the frame is mapped for `owner`.
    pub fn convert_page(
        &mut self,
        addr: u64,
        owner: PageOwnerId,
        mem_type: MemType,
        at: TlbVersion,
    ) -> (r: bool)
        requires
            old(self).wf(),
        ensures
            final(self).wf(),
            r == old(self).is_mapped_page_spec(addr, owner, mem_type),
            r ==> tracks(final(self)@, addr) && frame_of(final(self)@, addr) == (FrameInfo {
                addr,
                owner,
                mem_type,
                state: FrameState::Converted { at },
            }),
            !r ==> final(self)@ =~= old(self)@,
            forall|a: u64|
                a != addr ==> tracks(final(self)@, a) == tracks(old(self)@, a) && (tracks(
                    old(self)@,
                    a,
                ) ==> frame_of(final(self)@, a) == frame_of(old(self)@, a)),
    {
        if self.is_mapped_page(addr, owner, mem_type) {
            let i = match self.find_frame(addr) {
                Some(i) => i,
                None => { return false },
            };
            self.frames[i] = FrameInfo { addr, owner, mem_type, state: FrameState::Converted { at } };
            proof {
                lemma_update_preserves_others(old(self)@, self@, i as int);
            }
            true
        } else {
            false
        }
    }

    /// Whether the frame at `addr` is held by `owner` in a state that can
    /// be released: any non-free state.
    pub open spec fn releasable_spec(self, addr: u64, owner: PageOwnerId) -> bool {
        &&& tracks(self@, addr)
        &&& frame_of(self@, addr).owner == owner
        &&& frame_of(self@, addr).state != FrameState::Free
    }

    /// Returns the frame at `addr` to the tracker.  Refused unless the
    /// frame is held by `owner`.
    pub fn release_page_by_addr(&mut self, addr: u64, owner: PageOwnerId) -> (r: bool)
        requires
            old(self).wf(),
        ensures
            final(self).wf(),
            r == old(self).releasable_spec(addr, owner),
            r ==> tracks(final(self)@, addr) && frame_of(final(self)@, addr) == (FrameInfo {
                addr,
                owner,
                mem_type: frame_of(old(self)@, addr).mem_type,
                state: FrameState::Free,
            }),
            !r ==> final(self)@ =~= old(self)@,
            forall|a: u64|
                a != addr ==> tracks(final(self)@, a) == tracks(old(self)@, a) && (tracks(
                    old(self)@,
                    a,
                ) ==> frame_of(final(self)@, a) == frame_of(old(self)@, a)),
    {
        match self.find_frame(addr) {
            Some(i) => {
                let f = self.frames[i];
                if f.owner.id == owner.id && !matches!(f.state, FrameState::Free) {
                    self.frames[i] = FrameInfo {
                        addr,
                        owner: f.owner,
                        mem_type: f.mem_type,
                        state: FrameState::Free,
                    };
                    proof {
                        lemma_update_preserves_others(old(self)@, self@, i as int);
                    }
                    true
                } else {
                    false
                }
            },
            None => false,
        }
    }

    /// Locks the frame at `addr` for exclusive reclaim.  Succeeds exactly
    /// when the frame is converted for `owner` at a version strictly older
    /// than `tlb_version`.
    pub fn get_converted_page(
        &mut self,
        addr: u64,
        owner: PageOwnerId,
        mem_type: MemType,
        tlb_version: TlbVersion,
    ) -> (r: bool)
        requires
            old(self).wf(),
        ensures
            final(self).wf(),
            r == old(self).is_converted_page_spec(addr, owner, mem_type, tlb_version),
            r ==> tracks(final(self)@, addr) && frame_of(final(self)@, addr) == (FrameInfo {
                addr,
                owner,
                mem_type,
                state: FrameState::ConvertedLocked {
                    at: frame_of(old(self)@, addr).state->Converted_at,
                },
            }),
            !r ==> final(self)@ =~= old(self)@,
            forall|a: u64|
                a != addr ==> tracks(final(self)@, a) == tracks(old(self)@, a) && (tracks(
                    old(self)@,
                    a,
                ) ==> frame_of(final(self)@, a) == frame_of(old(self)@, a)),
    {
        match self.find_frame(addr) {
            Some(i) => {
                let f = self.frames[i];
                let converted_at = match f.state {
                    FrameState::Converted { at } => at,
                    _ => { return false },
                };
                if f.owner.id == owner.id && f.mem_type == mem_type && converted_at.version
                    < tlb_version.version {
                    self.frames[i] = FrameInfo {
                        addr,
                        owner,
                        mem_type,
                        state: FrameState::ConvertedLocked { at: converted_at },
                    };
                    proof {
                        lemma_update_preserves_others(old(self)@, self@, i as int);
                    }
                    true
                } else {
                    false
                }
            },
            None => false,
        }
    }

    /// Releases the exclusive lock taken by `get_converted_page`, leaving
    /// the frame converted as before.  Refused unless the frame is locked
    /// for `owner`.
    pub fn unlock_converted_page(&mut self, addr: u64, owner: PageOwnerId) -> (r: bool)
        requires
            old(self).wf(),
        ensures
            final(self).wf(),
            r == (tracks(old(self)@, addr) && frame_of(old(self)@, addr).owner == owner
                && frame_of(old(self)@, addr).state matches FrameState::ConvertedLocked { at }),
            r ==> tracks(final(self)@, addr) && frame_of(final(self)@, addr) == (FrameInfo {
                addr,
                owner,
                mem_type: frame_of(old(self)@, addr).mem_type,
                state: FrameState::Converted {
                    at: frame_of(old(self)@, addr).state->ConvertedLocked_at,
                },
            }),
            !r ==> final(self)@ =~= old(self)@,
            forall|a: u64|
                a != addr ==> tracks(final(self)@, a) == tracks(old(self)@, a) && (tracks(
                    old(self)@,
                    a,
                ) ==> frame_of(final(self)@, a) == frame_of(old(self)@, a)),
    {
        match self.find_frame(addr) {
            Some(i) => {
                let f = self.frames[i];
                let locked_at = match f.state {
                    FrameState::ConvertedLocked { at } => at,
                    _ => { return false },
                };
                if f.owner.id == owner.id {
                    self.frames[i] = FrameInfo {
                        addr,
                        owner,
                        mem_type: f.mem_type,
                        state: FrameState::Converted { at: locked_at },
                    };
                    proof {
                        lemma_update_preserves_others(old(self)@, self@, i as int);
                    }
                    true
                } else {
                    false
                }
            },
            None => false,
        }
    }
}

/// Updating one record in place leaves every other address's record as it
/// was.
proof fn lemma_update_preserves_others(s0: Seq<FrameInfo>, s1: Seq<FrameInfo>, i: int)
    requires
        0 <= i < s0.len(),
        s1.len() == s0.len(),
        forall|j: int| 0 <= j < s0.len() && j != i ==> s1[j] == s0[j],
        s1[i].addr == s0[i].addr,
        forall|j: int, k: int|
            0 <= j < s0.len() && 0 <= k < s0.len() && j != k ==> s0[j].addr != s0[k].addr,
    ensures
        tracks(s1, s0[i].addr) && tracked_index(s1, s0[i].addr) == i,
        forall|a: u64|
            a != s0[i].addr ==> tracks(s1, a) == tracks(s0, a) && (tracks(s0, a) ==> frame_of(
                s1,
                a,
            ) == frame_of(s0, a)),
{
    assert(0 <= i < s1.len() && s1[i].addr == s0[i].addr);
    let k = tracked_index(s1, s0[i].addr);
    assert(0 <= k < s1.len() && s1[k].addr == s0[i].addr);
    assert(k == i);
    assert forall|a: u64| a != s0[i].addr implies tracks(s1, a) == tracks(s0, a) && (tracks(s0, a)
        ==> frame_of(s1, a) == frame_of(s0, a)) by {
        if tracks(s0, a) {
            let j = tracked_index(s0, a);
            assert(0 <= j < s0.len() && s0[j].addr == a);
            assert(j != i);
            assert(s1[j].addr == a);
            assert(tracks(s1, a));
            let j1 = tracked_index(s1, a);
            assert(0 <= j1 < s1.len() && s1[j1].addr == a);
            assert(j1 != i);
            assert(s0[j1].addr == a);
            assert(j1 == j);
        }
        if tracks(s1, a) {
            let j = tracked_index(s1, a);
            assert(0 <= j < s1.len() && s1[j].addr == a);
            assert(j != i);
            assert(s0[j].addr == a);
            assert(tracks(s0, a));
        }
    }
}

/// Appending a record for a fresh address leaves every other address's
/// record as it was.
proof fn lemma_push_preserves_others(s0: Seq<FrameInfo>, s1: Seq<FrameInfo>)
    requires
        s1.len() == s0.len() + 1,
        forall|j: int| 0 <= j < s0.len() ==> s1[j] == s0[j],
        !tracks(s0, s1[s0.len() as int].addr),
        forall|j: int, k: int|
            0 <= j < s0.len() && 0 <= k < s0.len() && j != k ==> s0[j].addr != s0[k].addr,
    ensures
        tracks(s1, s1[s0.len() as int].addr) && tracked_index(s1, s1[s0.len() as int].addr)
            == s0.len(),
        forall|a: u64|
            a != s1[s0.len() as int].addr ==> tracks(s1, a) == tracks(s0, a) && (tracks(s0, a)
                ==> frame_of(s1, a) == frame_of(s0, a)),
{
    let n = s0.len() as int;
    let addr = s1[n].addr;
    assert(0 <= n < s1.len() && s1[n].addr == addr);
    let k = tracked_index(s1, addr);
    assert(0 <= k < s1.len() && s1[k].addr == addr);
    if k != n {
        assert(s0[k].addr == addr);
        assert(tracks(s0, addr));
        assert(false);
    }
    assert forall|a: u64| a != addr implies tracks(s1, a) == tracks(s0, a) && (tracks(s0, a)
        ==> frame_of(s1, a) == frame_of(s0, a)) by {
        if tracks(s0, a) {
            let j = tracked_index(s0, a);
            assert(0 <= j < s0.len() && s0[j].addr == a);
            assert(s1[j].addr == a);
            assert(tracks(s1, a));
            let j1 = tracked_index(s1, a);
            assert(0 <= j1 < s1.len() && s1[j1].addr == a);
            assert(j1 != n);
            assert(s0[j1].addr == a);
            assert(j1 == j || s0[j1].addr != s0[j].addr);
        }
        if tracks(s1, a) {
            let j = tracked_index(s1, a);
            assert(0 <= j < s1.len() && s1[j].addr == a);
            assert(j != n);
            assert(s0[j].addr == a);
            assert(tracks(s0, a));
        }
    }
}

/// A list of frames handed back by a bulk invalidation, in range order.
pub struct PageList {
    pub mem_type: MemType,
    pub pages: Vec<u64>,
}

impl View for PageList {
    type V = Seq<u64>;

    open spec fn view(&self) -> Seq<u64> {
        self.pages@
    }
}

impl PageList {
    /// An empty list for frames of the given memory type.
    pub fn new(mem_type: MemType) -> (r: Self)
        ensures
            r@ =~= Seq::<u64>::empty(),
            r.mem_type == mem_type,
    {
        Self { mem_type, pages: Vec::new() }
    }

    /// Returns the number of frames on the list.
    pub fn len(&self) -> (r: usize)
        ensures
            r == self@.len(),
    {
        self.pages.len()
    }

    /// Returns the address of the `i`-th frame on the list.
    pub fn get(&self, i: usize) -> (r: u64)
        requires
            i < self@.len(),
        ensures
            r == self@[i as int],
    {
        self.pages[i]
    }
}

/// A list of converted frames locked for exclusive reclaim, in range
/// order.  The locks were taken in the tracker; the holder owns the frames
/// until it releases them.
pub struct LockedPageList {
    pub mem_type: MemType,
    pub pages: Vec<u64>,
}

impl View for LockedPageList {
    type V = Seq<u64>;

    open spec fn view(&self) -> Seq<u64> {
        self.pages@
    }
}

impl LockedPageList {
    /// An empty list for frames of the given memory type.
    pub fn new(mem_type: MemType) -> (r: Self)
        ensures
            r@ =~= Seq::<u64>::empty(),
            r.mem_type == mem_type,
    {
        Self { mem_type, pages: Vec::new() }
    }

    /// Returns the number of frames on the list.
    pub fn len(&self) -> (r: usize)
        ensures
            r == self@.len(),
    {
        self.pages.len()
    }

    /// Returns the address of the `i`-th frame on the list.
    pub fn get(&self, i: usize) -> (r: u64)
        requires
            i < self@.len(),
        ensures
            r == self@[i as int],
    {
        self.pages[i]
    }
}

} // verus!
