//! Physical frames and the bitmap frame allocator.

use vstd::prelude::*;
use crate::memory::{DirectMap, MemoryRegion, MemoryRegionKind, PhysicalAddr, PhysicalMemory};
use crate::memory::phys::{mem_frames, frame_is_zero};

verus! {

/// The size of a physical frame and of a page.
pub const FRAME_SIZE: u64 = 4096;

/// The largest frame index whose start address fits in a machine word.
pub const MAX_FRAME_INDEX: u64 = 0xF_FFFF_FFFF_FFFF;

pub open spec fn spec_align_up(addr: u64) -> Option<u64> {
    if addr + 4095 <= u64::MAX {
        Some(((addr + 4095) / 4096 * 4096) as u64)
    } else {
        None
    }
}

pub open spec fn spec_align_down(addr: u64) -> u64 {
    (addr / 4096 * 4096) as u64
}

/// Rounds `addr` up to a frame boundary; `None` if that overflows.
pub fn align_up_to_frame(addr: u64) -> (r: Option<u64>)
    ensures
        r == spec_align_up(addr),
{
    match addr.checked_add(FRAME_SIZE - 1) {
        Some(a) => {
            let r = a & 0xffff_ffff_ffff_f000u64;
            assert(a & 0xffff_ffff_ffff_f000u64 == a / 4096 * 4096) by (bit_vector);
            Some(r)
        },
        None => None,
    }
}

/// Rounds `addr` down to a frame boundary.
pub fn align_down_to_frame(addr: u64) -> (r: u64)
    ensures
        r == spec_align_down(addr),
{
    assert(addr & 0xffff_ffff_ffff_f000u64 == addr / 4096 * 4096) by (bit_vector);
    addr & 0xffff_ffff_ffff_f000u64
}

/// What the allocator knows of one frame.
#[derive(Clone, Copy, Debug, PartialEq, Eq, Structural)]
pub enum FrameState {
    Reserved,
    Free,
    Allocated,
}

/// The two bits that encode `state` in the bitmap.
pub open spec fn spec_state_bits(state: FrameState) -> u8 {
    match state {
        FrameState::Reserved => 0,
        FrameState::Free => 1,
        FrameState::Allocated => 2,
    }
}

pub open spec fn decode_state(bits: u8) -> FrameState {
    if bits == 1 {
        FrameState::Free
    } else if bits == 2 {
        FrameState::Allocated
    } else {
        FrameState::Reserved
    }
}

fn state_bits(state: FrameState) -> (r: u8)
    ensures
        r == spec_state_bits(state),
        decode_state(r) == state,
        r < 3,
{
    match state {
        FrameState::Reserved => 0,
        FrameState::Free => 1,
        FrameState::Allocated => 2,
    }
}

/// The number of entries of `s` equal to `st`.
pub open spec fn count_state(s: Seq<FrameState>, st: FrameState) -> nat
    decreases s.len(),
{
    if s.len() == 0 {
        0
    } else {
        count_state(s.drop_last(), st) + if s.last() == st {
            1nat
        } else {
            0nat
        }
    }
}

pub proof fn lemma_count_update(s: Seq<FrameState>, i: int, v: FrameState, st: FrameState)
    requires
        0 <= i < s.len(),
    ensures
        count_state(s.update(i, v), st) + (if s[i] == st {
            1nat
        } else {
            0nat
        }) == count_state(s, st) + (if v == st {
            1nat
        } else {
            0nat
        }),
    decreases s.len(),
{
    if i == s.len() - 1 {
        assert(s.update(i, v).drop_last() =~= s.drop_last());
    } else {
        lemma_count_update(s.drop_last(), i, v, st);
        assert(s.update(i, v).drop_last() =~= s.drop_last().update(i, v));
    }
}

pub proof fn lemma_count_positive(s: Seq<FrameState>, i: int, st: FrameState)
    requires
        0 <= i < s.len(),
        s[i] == st,
    ensures
        count_state(s, st) > 0,
    decreases s.len(),
{
    if i < s.len() - 1 {
        lemma_count_positive(s.drop_last(), i, st);
    }
}

pub proof fn lemma_count_le_len(s: Seq<FrameState>, st: FrameState)
    ensures
        count_state(s, st) <= s.len(),
    decreases s.len(),
{
    if s.len() > 0 {
        lemma_count_le_len(s.drop_last(), st);
    }
}

pub proof fn lemma_count_absent(s: Seq<FrameState>, st: FrameState)
    requires
        forall|i: int| 0 <= i < s.len() ==> s[i] != st,
    ensures
        count_state(s, st) == 0,
    decreases s.len(),
{
    if s.len() > 0 {
        lemma_count_absent(s.drop_last(), st);
    }
}

/// No frame in `[start, end)` is free.
pub open spec fn no_free_in(s: Seq<FrameState>, start: int, end: int) -> bool {
    forall|i: int| start <= i < end && 0 <= i < s.len() ==> s[i] != FrameState::Free
}

/// Some frame is free.
pub open spec fn has_free(s: Seq<FrameState>) -> bool {
    exists|i: int| 0 <= i < s.len() && s[i] == FrameState::Free
}

/// `idx` is the frame that the allocator hands out next: the first free
/// frame at or after `next`, or failing that the first free frame before it.
pub open spec fn chosen_free(s: Seq<FrameState>, next: int, idx: int) -> bool {
    &&& 0 <= idx < s.len()
    &&& s[idx] == FrameState::Free
    &&& if idx >= next {
        no_free_in(s, next, idx)
    } else {
        no_free_in(s, next, s.len() as int) && no_free_in(s, 0, idx)
    }
}

proof fn lemma_field_set(b: u8, s: u8, v: u8, t: u8)
    requires
        s < 8,
        s % 2 == 0,
        v < 4,
        t < 8,
        t % 2 == 0,
    ensures
        (((b & !(3u8 << s)) | (v << s)) >> s) & 3u8 == v,
        t != s ==> (((b & !(3u8 << s)) | (v << s)) >> t) & 3u8 == (b >> t) & 3u8,
{
    assert((((b & !(3u8 << s)) | (v << s)) >> s) & 3u8 == v) by (bit_vector)
        requires
            s < 8,
            s % 2 == 0,
            v < 4,
    ;
    if t != s {
        assert((((b & !(3u8 << s)) | (v << s)) >> t) & 3u8 == (b >> t) & 3u8) by (bit_vector)
            requires
                s < 8,
                s % 2 == 0,
                t < 8,
                t % 2 == 0,
                t != s,
                v < 4,
        ;
    }
}

/// Two bits per frame, four frames per byte.
struct Bitmap {
    bytes: Vec<u8>,
    frame_count: u64,
}

impl Bitmap {
    spec fn field(&self, i: nat) -> u8 {
        (self.bytes@[(i / 4) as int] >> (((i % 4) * 2) as u8)) & 3u8
    }

    spec fn wf(&self) -> bool {
        &&& self.frame_count <= self.bytes@.len() * 4
        &&& forall|i: nat| i < self.frame_count ==> #[trigger] self.field(i) != 3
    }

    spec fn view(&self) -> Seq<FrameState> {
        Seq::new(self.frame_count as nat, |i: int| decode_state(self.field(i as nat)))
    }

    /// A bitmap of `frame_count` reserved frames in `byte_count` bytes.
    fn new(byte_count: u64, frame_count: u64) -> (r: Self)
        requires
            frame_count <= byte_count * 4,
        ensures
            r.wf(),
            r.frame_count == frame_count,
            forall|i: int| 0 <= i < frame_count ==> r.view()[i] == FrameState::Reserved,
    {
        let mut bytes: Vec<u8> = Vec::new();
        let mut i: u64 = 0;
        while i < byte_count
            invariant
                i <= byte_count,
                bytes@.len() == i,
                forall|j: int| 0 <= j < i ==> bytes@[j] == 0,
            decreases byte_count - i,
        {
            bytes.push(0);
            i = i + 1;
        }
        let r = Self { bytes, frame_count };
        assert forall|i: nat| i < frame_count implies #[trigger] r.field(i) == 0 by {
            let s = ((i % 4) * 2) as u8;
            assert((0u8 >> s) & 3u8 == 0) by (bit_vector);
        }
        r
    }

    fn state(&self, frame_idx: u64) -> (r: FrameState)
        requires
            self.wf(),
            frame_idx < self.frame_count,
        ensures
            r == self.view()[frame_idx as int],
    {
        let n = self.bytes.len();
        assert(frame_idx / 4 < n);
        let byte = self.bytes[(frame_idx / 4) as usize];
        let shift = ((frame_idx % 4) * 2) as u8;
        let bits = (byte >> shift) & 3u8;
        assert((byte >> shift) & 3u8 < 4) by (bit_vector);
        assert(bits == self.field(frame_idx as nat));
        assert(self.field(frame_idx as nat) != 3);
        if bits == 0 {
            FrameState::Reserved
        } else if bits == 1 {
            FrameState::Free
        } else {
            FrameState::Allocated
        }
    }

    fn set_state(&mut self, frame_idx: u64, state: FrameState)
        requires
            old(self).wf(),
            frame_idx < old(self).frame_count,
        ensures
            final(self).wf(),
            final(self).frame_count == old(self).frame_count,
            final(self).view() == old(self).view().update(frame_idx as int, state),
    {
        let n = self.bytes.len();
        assert(frame_idx / 4 < n);
        let byte_idx = (frame_idx / 4) as usize;
        let shift = ((frame_idx % 4) * 2) as u8;
        let byte = self.bytes[byte_idx];
        let bits = state_bits(state);
        let new_byte = (byte & !(3u8 << shift)) | (bits << shift);
        let ghost old_bm = *self;
        self.bytes.set(byte_idx, new_byte);
        proof {
            assert forall|i: nat| i < self.frame_count implies #[trigger] self.field(i) == if i == frame_idx {
                bits
            } else {
                old_bm.field(i)
            } by {
                let t = ((i % 4) * 2) as u8;
                lemma_field_set(byte, shift, bits, t);
                if i / 4 == frame_idx / 4 && i != frame_idx {
                    assert(t != shift);
                }
            }
            assert(self.view() =~= old_bm.view().update(frame_idx as int, state));
        }
    }
}

/// The frames of `region` that lie wholly inside it, as a half-open range of
/// frame indices; `None` where the region's end or its first frame boundary
/// overflows.
pub open spec fn spec_usable_frame_range(region: MemoryRegion) -> Option<(u64, u64)> {
    if region.start.0 + region.length > u64::MAX {
        None
    } else {
        match spec_align_up(region.start.0) {
            None => None,
            Some(start) => Some(
                (
                    (start / 4096) as u64,
                    (spec_align_down((region.start.0 + region.length) as u64) / 4096) as u64,
                ),
            ),
        }
    }
}

pub open spec fn spec_should_track(kind: MemoryRegionKind) -> bool {
    kind == MemoryRegionKind::Usable || kind == MemoryRegionKind::BootloaderReclaimable
        || kind == MemoryRegionKind::AcpiReclaimable
}

/// The end of the highest tracked, non-empty frame range among the first `k`
/// regions.
pub open spec fn highest_end(regions: Seq<MemoryRegion>, k: nat) -> Option<u64>
    decreases k,
{
    if k == 0 {
        None
    } else {
        let prev = highest_end(regions, (k - 1) as nat);
        let region = regions[k - 1];
        if !spec_should_track(region.kind) {
            prev
        } else {
            match spec_usable_frame_range(region) {
                Some((start, end)) if start < end => match prev {
                    None => Some(end),
                    Some(h) => Some(if h >= end { h } else { end }),
                },
                _ => prev,
            }
        }
    }
}

/// Some tracked region's range overflows.
pub open spec fn tracked_overflow(regions: Seq<MemoryRegion>) -> bool {
    exists|j: int|
        0 <= j < regions.len() && spec_should_track(#[trigger] regions[j].kind)
            && spec_usable_frame_range(regions[j]) is None
}

/// The number of whole frames in the usable regions among the first `k`,
/// counted region by region.
pub open spec fn usable_total(regions: Seq<MemoryRegion>, k: nat) -> nat
    decreases k,
{
    if k == 0 {
        0
    } else {
        let prev = usable_total(regions, (k - 1) as nat);
        let region = regions[k - 1];
        if region.kind != MemoryRegionKind::Usable {
            prev
        } else {
            match spec_usable_frame_range(region) {
                Some((start, end)) if start < end => prev + (end - start) as nat,
                _ => prev,
            }
        }
    }
}

proof fn lemma_usable_total_grows(regions: Seq<MemoryRegion>, i: nat, k: nat)
    requires
        i <= k,
    ensures
        usable_total(regions, i) <= usable_total(regions, k),
    decreases k - i,
{
    if i < k {
        lemma_usable_total_grows(regions, i, (k - 1) as nat);
    }
}

/// The number of frames that a bitmap for `frame_count` frames occupies.
pub open spec fn bitmap_frames(frame_count: u64) -> u64 {
    ((((frame_count + 3) / 4) + 4095) / 4096) as u64
}

/// The start of the first usable region, among the first `k`, that can hold
/// `count` frames.
pub open spec fn bitmap_home(regions: Seq<MemoryRegion>, k: nat, count: u64) -> Option<u64>
    decreases k,
{
    if k == 0 {
        None
    } else {
        match bitmap_home(regions, (k - 1) as nat, count) {
            Some(s) => Some(s),
            None => {
                let region = regions[k - 1];
                if region.kind != MemoryRegionKind::Usable {
                    None
                } else {
                    match spec_usable_frame_range(region) {
                        Some((start, end)) if start < end && end - start >= count => Some(start),
                        _ => None,
                    }
                }
            },
        }
    }
}

/// Frame `f` lies in a usable region among the first `k` and outside the
/// bitmap's own frames `[bs, be)`.
pub open spec fn initially_free(regions: Seq<MemoryRegion>, k: nat, f: nat, bs: nat, be: nat) -> bool {
    &&& !(bs <= f < be)
    &&& exists|j: int|
        0 <= j < k && j < regions.len() && (#[trigger] regions[j]).kind == MemoryRegionKind::Usable
            && match spec_usable_frame_range(regions[j]) {
            Some((start, end)) => start <= f < end,
            None => false,
        }
}

/// Why the allocator could not be set up.
#[derive(Debug, PartialEq, Eq, Structural)]
pub enum FrameAllocatorInitError {
    AddressOverflow,
    NoUsableFrames,
    NoBitmapStorage,
    BitmapOutsideDirectMap,
}

/// A physical frame, named by its start address.
#[derive(Clone, Copy, Debug, PartialEq, Eq, Structural)]
pub struct FrameAddr(pub PhysicalAddr);

impl FrameAddr {
    /// The address is frame-aligned.
    pub open spec fn wf(self) -> bool {
        self.0.0 % 4096 == 0
    }

    /// The frame's index.
    pub open spec fn spec_index(self) -> nat {
        self.0.0 as nat / 4096
    }

    pub fn from_start_address(address: PhysicalAddr) -> (r: Option<Self>)
        ensures
            r == if address.0 % 4096 == 0 {
                Some(FrameAddr(address))
            } else {
                None::<FrameAddr>
            },
    {
        if address.as_usize() % FRAME_SIZE != 0 {
            return None;
        }
        Some(Self(address))
    }

    pub fn start_address(&self) -> (r: PhysicalAddr)
        ensures
            r == self.0,
    {
        self.0
    }

    pub fn from_index(index: u64) -> (r: Self)
        requires
            index <= MAX_FRAME_INDEX,
        ensures
            r.wf(),
            r.spec_index() == index,
            r.0.0 == index * 4096,
    {
        Self(PhysicalAddr::new(index * FRAME_SIZE))
    }

    pub fn index(&self) -> (r: u64)
        ensures
            r == self.spec_index(),
    {
        self.0.as_usize() / FRAME_SIZE
    }
}

/// Sole ownership of an allocated frame. Deliberately neither `Clone` nor
/// `Copy`: a frame has one owner, which hands it back to the allocator.
pub struct OwnedFrame {
    frame: FrameAddr,
}

impl OwnedFrame {
    pub closed spec fn spec_frame(&self) -> FrameAddr {
        self.frame
    }

    fn new(frame: FrameAddr) -> (r: Self)
        ensures
            r.spec_frame() == frame,
    {
        Self { frame }
    }

    /// Gives up ownership, keeping only the frame's address.
    pub fn into_raw(self) -> (r: FrameAddr)
        ensures
            r == self.spec_frame(),
    {
        self.frame
    }

    /// Takes ownership of `frame` again; the library does so only for frames
    /// whose ownership it handed out through `into_raw`.
    pub(crate) fn from_raw(frame: FrameAddr) -> (r: Self)
        ensures
            r.spec_frame() == frame,
    {
        Self { frame }
    }

    pub fn frame_address(&self) -> (r: FrameAddr)
        ensures
            r == self.spec_frame(),
    {
        self.frame
    }

    pub fn index(&self) -> (r: u64)
        ensures
            r == self.spec_frame().spec_index(),
    {
        self.frame.index()
    }
}

/// A bitmap allocator of physical frames.
pub struct FrameAllocator {
    bitmap: Bitmap,
    next_search: u64,
    allocatable_frames: u64,
    free_frames: u64,
    direct_map: DirectMap,
}

impl View for FrameAllocator {
    type V = Seq<FrameState>;

    /// The state of each frame, by index.
    closed spec fn view(&self) -> Seq<FrameState> {
        self.bitmap.view()
    }
}

impl FrameAllocator {
    pub closed spec fn spec_next_search(&self) -> nat {
        self.next_search as nat
    }

    pub closed spec fn spec_free_frames(&self) -> nat {
        self.free_frames as nat
    }

    pub closed spec fn spec_allocatable_frames(&self) -> nat {
        self.allocatable_frames as nat
    }

    pub closed spec fn spec_direct_map(&self) -> DirectMap {
        self.direct_map
    }

    /// The allocator's internal invariant: the bitmap is well formed, the
    /// counters bound the number of free and handed-out frames, and every
    /// frame's start address fits in a machine word.
    pub closed spec fn wf(&self) -> bool {
        &&& self.bitmap.wf()
        &&& self.bitmap.frame_count <= MAX_FRAME_INDEX
        &&& self.next_search <= self.bitmap.frame_count
        &&& count_state(self.bitmap.view(), FrameState::Free) <= self.free_frames
        &&& self.free_frames + count_state(self.bitmap.view(), FrameState::Allocated) <= self.allocatable_frames
        &&& self.allocatable_frames + count_state(self.bitmap.view(), FrameState::Reserved) <= u64::MAX
    }

    /// Every frame that the allocator manages lies in `mem` and is visible
    /// through the direct map.
    pub open spec fn backed_by(&self, mem: Seq<u64>) -> bool {
        &&& self@.len() <= mem_frames(mem)
        &&& self@.len() * 4096 + self.spec_direct_map().spec_offset() <= u64::MAX + 1
    }

    pub proof fn lemma_wf_len(&self)
        requires
            self.wf(),
        ensures
            self@.len() <= MAX_FRAME_INDEX,
            self.spec_next_search() <= self@.len(),
    {
    }

    fn should_track(kind: MemoryRegionKind) -> (r: bool)
        ensures
            r == spec_should_track(kind),
    {
        matches!(
            kind,
            MemoryRegionKind::Usable | MemoryRegionKind::BootloaderReclaimable
                | MemoryRegionKind::AcpiReclaimable
        )
    }

    fn can_store_bitmap(kind: MemoryRegionKind) -> (r: bool)
        ensures
            r == (kind == MemoryRegionKind::Usable),
    {
        kind == MemoryRegionKind::Usable
    }

    fn is_initially_free(kind: MemoryRegionKind) -> (r: bool)
        ensures
            r == (kind == MemoryRegionKind::Usable),
    {
        kind == MemoryRegionKind::Usable
    }

    /// Whether [`FrameAllocator::new`] can count the frames of `regions`:
    /// their usable frames, with room for any frame index, fit in 64 bits.
    pub fn frames_countable(regions: &[MemoryRegion]) -> (r: bool)
        ensures
            r == (usable_total(regions@, regions@.len()) + MAX_FRAME_INDEX <= u64::MAX),
    {
        let n = regions.len();
        let mut total: u64 = 0;
        let mut i: usize = 0;
        while i < n
            invariant
                n == regions@.len(),
                i <= n,
                total == usable_total(regions@, i as nat),
                total + MAX_FRAME_INDEX <= u64::MAX,
            decreases n - i,
        {
            let region = regions[i];
            if region.kind == MemoryRegionKind::Usable {
                match Self::usable_frame_range(region) {
                    Ok((start, end)) => {
                        if start < end {
                            if end - start > u64::MAX - MAX_FRAME_INDEX - total {
                                proof {
                                    lemma_usable_total_grows(regions@, (i + 1) as nat, n as nat);
                                }
                                return false;
                            }
                            total = total + (end - start);
                        }
                    },
                    Err(_) => {},
                }
            }
            i = i + 1;
        }
        true
    }

    fn usable_frame_range(region: MemoryRegion) -> (r: Result<(u64, u64), FrameAllocatorInitError>)
        ensures
            match spec_usable_frame_range(region) {
                Some(range) => r == Ok::<(u64, u64), FrameAllocatorInitError>(range),
                None => r == Err::<(u64, u64), FrameAllocatorInitError>(
                    FrameAllocatorInitError::AddressOverflow,
                ),
            },
            r is Ok ==> r->Ok_0.1 <= MAX_FRAME_INDEX,
    {
        let region_end = match region.start.as_usize().checked_add(region.length) {
            Some(e) => e,
            None => return Err(FrameAllocatorInitError::AddressOverflow),
        };
        let start = match align_up_to_frame(region.start.as_usize()) {
            Some(s) => s,
            None => return Err(FrameAllocatorInitError::AddressOverflow),
        };
        let end = align_down_to_frame(region_end);
        Ok((start / FRAME_SIZE, end / FRAME_SIZE))
    }

    /// The first free frame in `[start, end)`.
    fn find_free_in(&self, start: u64, end: u64) -> (r: Option<u64>)
        requires
            self.wf(),
            end <= self@.len(),
        ensures
            match r {
                Some(i) => start <= i < end && self@[i as int] == FrameState::Free && no_free_in(
                    self@,
                    start as int,
                    i as int,
                ),
                None => no_free_in(self@, start as int, end as int),
            },
    {
        let mut index = start;
        while index < end
            invariant
                self.wf(),
                end <= self@.len(),
                start <= index || end <= index,
                no_free_in(self@, start as int, index as int),
            decreases end - index,
        {
            if self.bitmap.state(index) == FrameState::Free {
                return Some(index);
            }
            index = index + 1;
        }
        None
    }

    /// The frame that the next allocation hands out: the first free one at
    /// or after the search cursor, or else the first free one before it.
    fn find_free_frame(&self) -> (r: Option<u64>)
        requires
            self.wf(),
        ensures
            match r {
                Some(i) => chosen_free(self@, self.spec_next_search() as int, i as int),
                None => !has_free(self@),
            },
    {
        match self.find_free_in(self.next_search, self.bitmap.frame_count) {
            Some(i) => Some(i),
            None => self.find_free_in(0, self.next_search),
        }
    }

    /// Allocates a frame without clearing it.
    pub fn alloc_nozero(&mut self) -> (r: Option<OwnedFrame>)
        requires
            old(self).wf(),
        ensures
            final(self).wf(),
            final(self).spec_direct_map() == old(self).spec_direct_map(),
            final(self).spec_allocatable_frames() == old(self).spec_allocatable_frames(),
            match r {
                None => !has_free(old(self)@) && final(self)@ == old(self)@
                    && final(self).spec_next_search() == old(self).spec_next_search()
                    && final(self).spec_free_frames() == old(self).spec_free_frames(),
                Some(frame) => {
                    let i = frame.spec_frame().spec_index();
                    &&& frame.spec_frame().wf()
                    &&& chosen_free(old(self)@, old(self).spec_next_search() as int, i as int)
                    &&& final(self)@ == old(self)@.update(i as int, FrameState::Allocated)
                    &&& final(self).spec_next_search() == i + 1
                    &&& final(self).spec_free_frames() + 1 == old(self).spec_free_frames()
                },
            },
    {
        if self.free_frames == 0 {
            proof {
                if has_free(self@) {
                    let i = choose|i: int| 0 <= i < self@.len() && self@[i] == FrameState::Free;
                    lemma_count_positive(self@, i, FrameState::Free);
                }
            }
            return None;
        }
        let frame_idx = match self.find_free_frame() {
            Some(i) => i,
            None => return None,
        };
        let ghost old_view = self@;
        proof {
            lemma_count_update(old_view, frame_idx as int, FrameState::Allocated, FrameState::Free);
            lemma_count_update(old_view, frame_idx as int, FrameState::Allocated, FrameState::Allocated);
            lemma_count_update(old_view, frame_idx as int, FrameState::Allocated, FrameState::Reserved);
        }
        self.bitmap.set_state(frame_idx, FrameState::Allocated);
        self.free_frames = self.free_frames - 1;
        self.next_search = frame_idx.saturating_add(1);
        Some(OwnedFrame::new(FrameAddr::from_index(frame_idx)))
    }

    /// Allocates a frame and fills it with zeros.
    pub fn alloc_zeroed(&mut self, mem: &mut PhysicalMemory) -> (r: Option<OwnedFrame>)
        requires
            old(self).wf(),
            old(self).backed_by(old(mem)@),
        ensures
            final(self).wf(),
            final(self).backed_by(final(mem)@),
            final(self).spec_direct_map() == old(self).spec_direct_map(),
            final(self).spec_allocatable_frames() == old(self).spec_allocatable_frames(),
            final(mem)@.len() == old(mem)@.len(),
            match r {
                None => !has_free(old(self)@) && final(self)@ == old(self)@
                    && final(self).spec_next_search() == old(self).spec_next_search()
                    && final(self).spec_free_frames() == old(self).spec_free_frames()
                    && final(mem)@ == old(mem)@,
                Some(frame) => {
                    let i = frame.spec_frame().spec_index();
                    &&& frame.spec_frame().wf()
                    &&& chosen_free(old(self)@, old(self).spec_next_search() as int, i as int)
                    &&& final(self)@ == old(self)@.update(i as int, FrameState::Allocated)
                    &&& final(self).spec_next_search() == i + 1
                    &&& final(self).spec_free_frames() + 1 == old(self).spec_free_frames()
                    &&& frame_is_zero(final(mem)@, i)
                    &&& forall|w: int|
                        0 <= w < old(mem)@.len() && !(i * 512 <= w < i * 512 + 512) ==> #[trigger] final(mem)@[w]
                            == old(mem)@[w]
                },
            },
    {
        let frame = match self.alloc_nozero() {
            Some(f) => f,
            None => return None,
        };
        let index = frame.index();
        proof {
            assert(index < self@.len());
            assert(index * 4096 + self.direct_map.spec_offset() <= u64::MAX) by (nonlinear_arith)
                requires
                    index < self@.len(),
                    self@.len() * 4096 + self.direct_map.spec_offset() <= u64::MAX + 1,
            ;
        }
        let start = self.direct_map.translate(frame.frame_address().start_address());
        assert(start is Some);
        mem.zero_frame(index);
        Some(frame)
    }

    /// Returns an allocated frame to the allocator.
    pub fn dealloc(&mut self, frame: OwnedFrame)
        requires
            old(self).wf(),
            frame.spec_frame().spec_index() < old(self)@.len(),
            old(self)@[frame.spec_frame().spec_index() as int] == FrameState::Allocated,
        ensures
            final(self).wf(),
            final(self).spec_direct_map() == old(self).spec_direct_map(),
            final(self).spec_allocatable_frames() == old(self).spec_allocatable_frames(),
            final(self)@ == old(self)@.update(frame.spec_frame().spec_index() as int, FrameState::Free),
            final(self).spec_free_frames() == old(self).spec_free_frames() + 1,
            final(self).spec_next_search() == if old(self).spec_next_search() <= frame.spec_frame().spec_index() {
                old(self).spec_next_search()
            } else {
                frame.spec_frame().spec_index()
            },
    {
        let frame_idx = frame.index();
        let ghost old_view = self@;
        proof {
            lemma_count_update(old_view, frame_idx as int, FrameState::Free, FrameState::Free);
            lemma_count_update(old_view, frame_idx as int, FrameState::Free, FrameState::Allocated);
            lemma_count_update(old_view, frame_idx as int, FrameState::Free, FrameState::Reserved);
            lemma_count_positive(old_view, frame_idx as int, FrameState::Allocated);
        }
        let state = self.bitmap.state(frame_idx);
        match state {
            FrameState::Allocated => {
                self.bitmap.set_state(frame_idx, FrameState::Free);
                self.free_frames = self.free_frames + 1;
                self.next_search = if self.next_search <= frame_idx {
                    self.next_search
                } else {
                    frame_idx
                };
            },
            FrameState::Free => {
                assert(false);
            },
            FrameState::Reserved => {
                assert(false);
            },
        }
    }

    /// What setting up an allocator over `regions` leads to: the number of
    /// frames to track and the first frame of the bitmap's storage, or the
    /// error.
    pub open spec fn spec_init_outcome(regions: Seq<MemoryRegion>, direct_map: DirectMap) -> Result<
        (u64, u64),
        FrameAllocatorInitError,
    > {
        if tracked_overflow(regions) {
            Err(FrameAllocatorInitError::AddressOverflow)
        } else {
            match highest_end(regions, regions.len()) {
                None => Err(FrameAllocatorInitError::NoUsableFrames),
                Some(highest) => match bitmap_home(regions, regions.len(), bitmap_frames(highest)) {
                    None => Err(FrameAllocatorInitError::NoBitmapStorage),
                    Some(start) => if start * 4096 + direct_map.spec_offset() > u64::MAX {
                        Err(FrameAllocatorInitError::BitmapOutsideDirectMap)
                    } else {
                        Ok((highest, start))
                    },
                },
            }
        }
    }

    /// Sets up an allocator over the boot memory map. It tracks every frame
    /// up to the end of the highest usable or reclaimable region; the frames
    /// of usable regions start free, all others reserved. The bitmap's own
    /// storage is the start of the first usable region large enough to hold
    /// it, and those frames stay reserved.
    pub fn new(regions: &[MemoryRegion], direct_map: DirectMap) -> (r: Result<Self, FrameAllocatorInitError>)
        requires
            usable_total(regions@, regions@.len()) + MAX_FRAME_INDEX <= u64::MAX,
        ensures
            match Self::spec_init_outcome(regions@, direct_map) {
                Err(e) => r == Err::<Self, FrameAllocatorInitError>(e),
                Ok((highest, start)) => r is Ok && {
                    let a = r->Ok_0;
                    let end = start + bitmap_frames(highest);
                    &&& a.wf()
                    &&& a@.len() == highest
                    &&& a.spec_direct_map() == direct_map
                    &&& a.spec_next_search() == end
                    &&& forall|f: int|
                        0 <= f < highest ==> #[trigger] a@[f] == if initially_free(
                            regions@,
                            regions@.len(),
                            f as nat,
                            start as nat,
                            end as nat,
                        ) {
                            FrameState::Free
                        } else {
                            FrameState::Reserved
                        }
                },
            },
    {
        let n = regions.len();
        // The end of the highest tracked region.
        let mut highest_frame: Option<u64> = None;
        let mut i: usize = 0;
        while i < n
            invariant
                n == regions@.len(),
                i <= n,
                highest_frame == highest_end(regions@, i as nat),
                forall|j: int| 0 <= j < i && spec_should_track(#[trigger] regions@[j].kind) ==> spec_usable_frame_range(regions@[j]) is Some,
                match highest_frame {
                    Some(h) => 0 < h <= MAX_FRAME_INDEX,
                    None => true,
                },
                forall|j: int| 0 <= j < i && spec_should_track(#[trigger] regions@[j].kind) ==> match spec_usable_frame_range(regions@[j]) {
                    Some((a, b)) => a < b ==> match highest_frame {
                        Some(h) => b <= h,
                        None => false,
                    },
                    None => true,
                },
            decreases n - i,
        {
            let region = regions[i];
            if Self::should_track(region.kind) {
                let range = match Self::usable_frame_range(region) {
                    Ok(r) => r,
                    Err(e) => {
                        assert(tracked_overflow(regions@)) by {
                            assert(spec_should_track(regions@[i as int].kind));
                        }
                        return Err(e);
                    },
                };
                if range.0 < range.1 {
                    highest_frame = match highest_frame {
                        None => Some(range.1),
                        Some(current) => Some(if current >= range.1 { current } else { range.1 }),
                    };
                }
            }
            i = i + 1;
        }
        assert(!tracked_overflow(regions@));
        let highest_frame = match highest_frame {
            Some(h) => h,
            None => return Err(FrameAllocatorInitError::NoUsableFrames),
        };

        let bitmap_bytes = highest_frame / 4 + if highest_frame % 4 == 0 { 0 } else { 1 };
        let bitmap_frame_count = bitmap_bytes / FRAME_SIZE + if bitmap_bytes % FRAME_SIZE == 0 { 0 } else { 1 };
        assert(bitmap_frame_count == bitmap_frames(highest_frame));
        assert(bitmap_frame_count * 4096 <= u64::MAX && bitmap_frame_count * 4096 >= bitmap_bytes
            && bitmap_bytes * 4 >= highest_frame) by (nonlinear_arith)
            requires
                highest_frame <= MAX_FRAME_INDEX,
                bitmap_bytes == highest_frame / 4 + if highest_frame % 4 == 0 { 0int } else { 1int },
                bitmap_frame_count == bitmap_bytes / 4096 + if bitmap_bytes % 4096 == 0 { 0int } else { 1int },
        ;
        let bitmap_storage_bytes = match bitmap_frame_count.checked_mul(FRAME_SIZE) {
            Some(b) => b,
            None => return Err(FrameAllocatorInitError::AddressOverflow),
        };

        let mut bitmap_start_frame: Option<u64> = None;
        let mut i: usize = 0;
        while i < n && bitmap_start_frame.is_none()
            invariant
                n == regions@.len(),
                i <= n,
                bitmap_start_frame == bitmap_home(regions@, i as nat, bitmap_frame_count),
                !tracked_overflow(regions@),
                match bitmap_start_frame {
                    Some(s) => s + bitmap_frame_count <= highest_frame,
                    None => true,
                },
                forall|j: int| 0 <= j < n && spec_should_track(#[trigger] regions@[j].kind) ==> match spec_usable_frame_range(regions@[j]) {
                    Some((a, b)) => a < b ==> b <= highest_frame,
                    None => false,
                },
            decreases n - i,
        {
            let region = regions[i];
            if Self::can_store_bitmap(region.kind) {
                assert(spec_should_track(regions@[i as int].kind));
                let range = match Self::usable_frame_range(region) {
                    Ok(r) => r,
                    Err(e) => return Err(e),
                };
                if range.0 < range.1 && range.1 - range.0 >= bitmap_frame_count {
                    bitmap_start_frame = Some(range.0);
                }
            }
            i = i + 1;
        }
        proof {
            if i < n {
                lemma_home_stable(regions@, i as nat, n as nat, bitmap_frame_count);
            }
        }
        let bitmap_start_frame = match bitmap_start_frame {
            Some(s) => s,
            None => return Err(FrameAllocatorInitError::NoBitmapStorage),
        };
        let bitmap_physical_addr = PhysicalAddr::new(bitmap_start_frame * FRAME_SIZE);
        let bitmap_virtual = match direct_map.translate(bitmap_physical_addr) {
            Some(v) => v,
            None => return Err(FrameAllocatorInitError::BitmapOutsideDirectMap),
        };
        let mut bitmap = Bitmap::new(bitmap_storage_bytes, highest_frame);
        let bitmap_end_frame = match bitmap_start_frame.checked_add(bitmap_frame_count) {
            Some(e) => e,
            None => return Err(FrameAllocatorInitError::AddressOverflow),
        };

        let mut allocatable_frames: u64 = 0;
        let mut free_frames: u64 = 0;
        proof {
            lemma_count_absent(bitmap.view(), FrameState::Free);
            lemma_count_absent(bitmap.view(), FrameState::Allocated);
        }
        let ghost bs = bitmap_start_frame as nat;
        let ghost be = bitmap_end_frame as nat;
        let mut i: usize = 0;
        while i < n
            invariant
                n == regions@.len(),
                usable_total(regions@, n as nat) + MAX_FRAME_INDEX <= u64::MAX,
                i <= n,
                bitmap.wf(),
                bitmap.frame_count == highest_frame,
                highest_frame <= MAX_FRAME_INDEX,
                bs == bitmap_start_frame,
                be == bitmap_end_frame,
                be <= highest_frame,
                forall|j: int| 0 <= j < n && spec_should_track(#[trigger] regions@[j].kind) ==> match spec_usable_frame_range(regions@[j]) {
                    Some((a, b)) => a < b ==> b <= highest_frame,
                    None => false,
                },
                forall|f: int| 0 <= f < highest_frame ==> #[trigger] bitmap.view()[f] == if initially_free(regions@, i as nat, f as nat, bs, be) {
                    FrameState::Free
                } else {
                    FrameState::Reserved
                },
                free_frames == allocatable_frames,
                allocatable_frames <= usable_total(regions@, i as nat),
                count_state(bitmap.view(), FrameState::Free) <= free_frames,
                count_state(bitmap.view(), FrameState::Allocated) == 0,
            decreases n - i,
        {
            let region = regions[i];
            if Self::is_initially_free(region.kind) {
                assert(spec_should_track(regions@[i as int].kind));
                let range = match Self::usable_frame_range(region) {
                    Ok(r) => r,
                    Err(e) => return Err(e),
                };
                let mut frame_idx = range.0;
                let ghost prefix = allocatable_frames;
                while frame_idx < range.1
                    invariant
                        n == regions@.len(),
                        i < n,
                        regions@[i as int] == region,
                        region.kind == MemoryRegionKind::Usable,
                        spec_usable_frame_range(region) == Some(range),
                        range.0 <= frame_idx || range.1 <= frame_idx,
                        frame_idx <= range.1 || frame_idx == range.0,
                        usable_total(regions@, n as nat) + MAX_FRAME_INDEX <= u64::MAX,
                        range.0 < range.1 ==> range.1 <= highest_frame,
                        bitmap.wf(),
                        bitmap.frame_count == highest_frame,
                        highest_frame <= MAX_FRAME_INDEX,
                        bs == bitmap_start_frame,
                        be == bitmap_end_frame,
                        forall|f: int| 0 <= f < highest_frame ==> #[trigger] bitmap.view()[f] == if initially_free(regions@, i as nat, f as nat, bs, be)
                            || (range.0 <= f < frame_idx && !(bs <= f < be)) {
                            FrameState::Free
                        } else {
                            FrameState::Reserved
                        },
                        free_frames == allocatable_frames,
                        prefix <= usable_total(regions@, i as nat),
                        allocatable_frames <= prefix + (if frame_idx >= range.0 { frame_idx - range.0 } else { 0int }),
                        count_state(bitmap.view(), FrameState::Free) <= free_frames,
                        count_state(bitmap.view(), FrameState::Allocated) == 0,
                    decreases range.1 - frame_idx,
                {
                    let is_bitmap_storage = frame_idx >= bitmap_start_frame && frame_idx < bitmap_end_frame;
                    if !is_bitmap_storage {
                        let ghost old_view = bitmap.view();
                        proof {
                            lemma_count_update(old_view, frame_idx as int, FrameState::Free, FrameState::Free);
                            lemma_count_update(old_view, frame_idx as int, FrameState::Free, FrameState::Allocated);
                            if old_view[frame_idx as int] == FrameState::Allocated {
                                lemma_count_positive(old_view, frame_idx as int, FrameState::Allocated);
                            }
                            lemma_usable_total_grows(regions@, (i + 1) as nat, n as nat);
                            assert(usable_total(regions@, (i + 1) as nat) == usable_total(regions@, i as nat) + (range.1 - range.0));
                            assert(prefix + (frame_idx - range.0) + 1 <= u64::MAX);
                        }
                        bitmap.set_state(frame_idx, FrameState::Free);
                        allocatable_frames = allocatable_frames + 1;
                        free_frames = free_frames + 1;
                    }
                    frame_idx = frame_idx + 1;
                }
                proof {
                    assert(allocatable_frames <= usable_total(regions@, (i + 1) as nat)) by {
                        if range.0 < range.1 {
                            assert(usable_total(regions@, (i + 1) as nat) == usable_total(regions@, i as nat) + (range.1 - range.0));
                        } else {
                            assert(usable_total(regions@, (i + 1) as nat) == usable_total(regions@, i as nat));
                        }
                    }
                    assert forall|f: int| 0 <= f < highest_frame implies #[trigger] bitmap.view()[f] == if initially_free(regions@, (i + 1) as nat, f as nat, bs, be) {
                        FrameState::Free
                    } else {
                        FrameState::Reserved
                    } by {
                        if initially_free(regions@, (i + 1) as nat, f as nat, bs, be) && !initially_free(regions@, i as nat, f as nat, bs, be) {
                            let j = choose|j: int|
                                0 <= j < i + 1 && j < regions@.len() && (#[trigger] regions@[j]).kind == MemoryRegionKind::Usable
                                    && match spec_usable_frame_range(regions@[j]) {
                                    Some((start, end)) => start <= f < end,
                                    None => false,
                                };
                            assert(j == i);
                        }
                        if range.0 <= f < frame_idx && !(bs <= f < be) {
                            assert(regions@[i as int].kind == MemoryRegionKind::Usable);
                        }
                    }
                }
            } else {
                proof {
                    assert(usable_total(regions@, (i + 1) as nat) == usable_total(regions@, i as nat));
                    assert forall|f: int| 0 <= f < highest_frame implies #[trigger] bitmap.view()[f] == if initially_free(regions@, (i + 1) as nat, f as nat, bs, be) {
                        FrameState::Free
                    } else {
                        FrameState::Reserved
                    } by {
                        if initially_free(regions@, (i + 1) as nat, f as nat, bs, be) {
                            let j = choose|j: int|
                                0 <= j < i + 1 && j < regions@.len() && (#[trigger] regions@[j]).kind == MemoryRegionKind::Usable
                                    && match spec_usable_frame_range(regions@[j]) {
                                    Some((start, end)) => start <= f < end,
                                    None => false,
                                };
                            assert(j != i);
                        }
                    }
                }
            }
            i = i + 1;
        }
        proof {
            lemma_count_le_len(bitmap.view(), FrameState::Reserved);
            assert(allocatable_frames + count_state(bitmap.view(), FrameState::Reserved) <= u64::MAX);
        }
        Ok(Self {
            bitmap,
            next_search: bitmap_start_frame + bitmap_frame_count,
            allocatable_frames,
            free_frames,
            direct_map,
        })
    }

    /// Frees the still-reserved frames of every region of kind
    /// `region_kind`, which must be a reclaimable kind; for any other kind
    /// nothing changes.
    pub fn reclaim_regions(&mut self, memory_map: &[MemoryRegion], region_kind: MemoryRegionKind)
        requires
            old(self).wf(),
            region_kind == MemoryRegionKind::BootloaderReclaimable || region_kind
                == MemoryRegionKind::AcpiReclaimable ==> forall|j: int|
                0 <= j < memory_map@.len() && (#[trigger] memory_map@[j]).kind == region_kind
                    ==> match spec_usable_frame_range(memory_map@[j]) {
                    Some((a, b)) => b <= old(self)@.len() || b <= a,
                    None => false,
                },
        ensures
            final(self).wf(),
            final(self).spec_direct_map() == old(self).spec_direct_map(),
            final(self)@.len() == old(self)@.len(),
            final(self).spec_next_search() <= old(self).spec_next_search(),
            !(region_kind == MemoryRegionKind::BootloaderReclaimable || region_kind == MemoryRegionKind::AcpiReclaimable)
                ==> *final(self) == *old(self),
            forall|f: int| 0 <= f < old(self)@.len() && #[trigger] final(self)@[f] != old(self)@[f] ==> final(self).spec_next_search() <= f,
            final(self).spec_next_search() == old(self).spec_next_search() || (final(self).spec_next_search() < old(self)@.len()
                && final(self)@[final(self).spec_next_search() as int] != old(self)@[final(self).spec_next_search() as int]),
            final(self).spec_free_frames() + count_state(final(self)@, FrameState::Reserved) == old(self).spec_free_frames()
                + count_state(old(self)@, FrameState::Reserved),
            final(self).spec_allocatable_frames() + count_state(final(self)@, FrameState::Reserved)
                == old(self).spec_allocatable_frames() + count_state(old(self)@, FrameState::Reserved),
            forall|f: int| 0 <= f < old(self)@.len() ==> #[trigger] final(self)@[f] == if old(self)@[f]
                == FrameState::Reserved && (region_kind == MemoryRegionKind::BootloaderReclaimable
                || region_kind == MemoryRegionKind::AcpiReclaimable) && exists|j: int|
                0 <= j < memory_map@.len() && (#[trigger] memory_map@[j]).kind == region_kind
                    && match spec_usable_frame_range(memory_map@[j]) {
                    Some((a, b)) => a <= f < b,
                    None => false,
                } {
                FrameState::Free
            } else {
                old(self)@[f]
            },
    {
        if !matches!(
            region_kind,
            MemoryRegionKind::BootloaderReclaimable | MemoryRegionKind::AcpiReclaimable
        ) {
            return;
        }
        let ghost start_view = self@;
        let n = memory_map.len();
        let mut i: usize = 0;
        while i < n
            invariant
                n == memory_map@.len(),
                i <= n,
                self.wf(),
                self.spec_direct_map() == old(self).spec_direct_map(),
                start_view == old(self)@,
                self@.len() == start_view.len(),
                self.spec_free_frames() + count_state(self@, FrameState::Reserved) == old(self).spec_free_frames()
                    + count_state(start_view, FrameState::Reserved),
                self.spec_allocatable_frames() + count_state(self@, FrameState::Reserved)
                    == old(self).spec_allocatable_frames() + count_state(start_view, FrameState::Reserved),
                self.spec_next_search() <= old(self).spec_next_search(),
                forall|f: int| 0 <= f < start_view.len() && #[trigger] self@[f] != start_view[f] ==> self.spec_next_search() <= f,
                self.spec_next_search() == old(self).spec_next_search() || (self.spec_next_search() < start_view.len()
                    && self@[self.spec_next_search() as int] != start_view[self.spec_next_search() as int]),
                forall|j: int|
                    0 <= j < memory_map@.len() && (#[trigger] memory_map@[j]).kind == region_kind
                        ==> match spec_usable_frame_range(memory_map@[j]) {
                        Some((a, b)) => b <= start_view.len() || b <= a,
                        None => false,
                    },
                forall|f: int| 0 <= f < start_view.len() ==> #[trigger] self@[f] == if start_view[f]
                    == FrameState::Reserved && exists|j: int|
                    0 <= j < i && (#[trigger] memory_map@[j]).kind == region_kind
                        && match spec_usable_frame_range(memory_map@[j]) {
                        Some((a, b)) => a <= f < b,
                        None => false,
                    } {
                    FrameState::Free
                } else {
                    start_view[f]
                },
            decreases n - i,
        {
            let region = memory_map[i];
            if region.kind == region_kind {
                let range = match Self::usable_frame_range(region) {
                    Ok(r) => r,
                    Err(_) => {
                        assert(false);
                        return;
                    },
                };
                let mut frame_idx = range.0;
                while frame_idx < range.1
                    invariant
                        n == memory_map@.len(),
                        i < n,
                        memory_map@[i as int] == region,
                        region.kind == region_kind,
                        spec_usable_frame_range(region) == Some(range),
                        range.0 <= frame_idx || range.1 <= frame_idx,
                        frame_idx <= range.1 || frame_idx == range.0,
                        range.0 < range.1 ==> range.1 <= start_view.len(),
                        self.wf(),
                        self.spec_direct_map() == old(self).spec_direct_map(),
                        self@.len() == start_view.len(),
                        start_view == old(self)@,
                        self.spec_free_frames() + count_state(self@, FrameState::Reserved) == old(self).spec_free_frames()
                            + count_state(start_view, FrameState::Reserved),
                        self.spec_allocatable_frames() + count_state(self@, FrameState::Reserved)
                            == old(self).spec_allocatable_frames() + count_state(start_view, FrameState::Reserved),
                        self.spec_next_search() <= old(self).spec_next_search(),
                        forall|f: int| 0 <= f < start_view.len() && #[trigger] self@[f] != start_view[f] ==> self.spec_next_search() <= f,
                        self.spec_next_search() == old(self).spec_next_search() || (self.spec_next_search() < start_view.len()
                            && self@[self.spec_next_search() as int] != start_view[self.spec_next_search() as int]),
                        forall|f: int| 0 <= f < start_view.len() ==> #[trigger] self@[f] == if start_view[f]
                            == FrameState::Reserved && ((exists|j: int|
                            0 <= j < i && (#[trigger] memory_map@[j]).kind == region_kind
                                && match spec_usable_frame_range(memory_map@[j]) {
                                Some((a, b)) => a <= f < b,
                                None => false,
                            }) || range.0 <= f < frame_idx) {
                            FrameState::Free
                        } else {
                            start_view[f]
                        },
                    decreases range.1 - frame_idx,
                {
                    if self.bitmap.state(frame_idx) == FrameState::Reserved {
                        let ghost old_view = self@;
                        proof {
                            lemma_count_update(old_view, frame_idx as int, FrameState::Free, FrameState::Free);
                            lemma_count_update(old_view, frame_idx as int, FrameState::Free, FrameState::Allocated);
                            lemma_count_update(old_view, frame_idx as int, FrameState::Free, FrameState::Reserved);
                        }
                        self.bitmap.set_state(frame_idx, FrameState::Free);
                        self.allocatable_frames = self.allocatable_frames + 1;
                        self.free_frames = self.free_frames + 1;
                        self.next_search = if self.next_search <= frame_idx {
                            self.next_search
                        } else {
                            frame_idx
                        };
                    }
                    frame_idx = frame_idx + 1;
                }
                proof {
                    assert forall|f: int| 0 <= f < start_view.len() implies #[trigger] self@[f] == if start_view[f]
                        == FrameState::Reserved && exists|j: int|
                        0 <= j < i + 1 && (#[trigger] memory_map@[j]).kind == region_kind
                            && match spec_usable_frame_range(memory_map@[j]) {
                            Some((a, b)) => a <= f < b,
                            None => false,
                        } {
                        FrameState::Free
                    } else {
                        start_view[f]
                    } by {
                        if range.0 <= f < frame_idx {
                            assert(memory_map@[i as int].kind == region_kind);
                        }
                    }
                }
            } else {
                proof {
                    assert forall|f: int| 0 <= f < start_view.len() implies #[trigger] self@[f] == if start_view[f]
                        == FrameState::Reserved && exists|j: int|
                        0 <= j < i + 1 && (#[trigger] memory_map@[j]).kind == region_kind
                            && match spec_usable_frame_range(memory_map@[j]) {
                            Some((a, b)) => a <= f < b,
                            None => false,
                        } {
                        FrameState::Free
                    } else {
                        start_view[f]
                    } by {
                        assert(memory_map@[i as int].kind != region_kind);
                    }
                }
            }
            i = i + 1;
        }
    }
}

/// Once a bitmap home is found among the first `k1` regions, it stays the
/// home among any longer prefix.
proof fn lemma_home_stable(regions: Seq<MemoryRegion>, k1: nat, k2: nat, count: u64)
    requires
        k1 <= k2,
        bitmap_home(regions, k1, count) is Some,
    ensures
        bitmap_home(regions, k2, count) == bitmap_home(regions, k1, count),
    decreases k2 - k1,
{
    if k1 < k2 {
        lemma_home_stable(regions, k1, (k2 - 1) as nat, count);
    }
}

} // verus!
