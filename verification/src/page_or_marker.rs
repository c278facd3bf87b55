//! The content of one page list slot, packed into 32 bits.

use vstd::prelude::*;

use crate::pmm_model::arenas_ok;
use crate::pmm_node::{indexed_page, lemma_index_round_trip, page_index, valid_index, PmmNode};
use crate::vm_page::VmPagePtr;

verus! {

/// Sentinel types that are used to represent a sparse page interval.
#[derive(PartialEq, Eq, Structural, Clone, Copy, Debug)]
pub enum SentinelType {
    /// Represents a single page interval.
    Slot,
    /// The first page of a multi-page interval.
    Start,
    /// The last page of a multi-page interval.
    End,
}

/// The types of sparse page intervals that are supported.
#[derive(PartialEq, Eq, Structural, Clone, Copy, Debug)]
pub enum IntervalType {
    /// Represents a range of zero pages.
    Zero,
}

/// The dirty states that a zero interval can be in. An awaiting-clean state is not one of them:
/// it is carried by a non-zero awaiting-clean length, which makes intervals easier to split and
/// to merge.
#[derive(PartialEq, Eq, Structural, Clone, Copy, Debug)]
pub enum ZeroRangeDirtyState {
    /// Dirty state is untracked.
    Untracked,
    /// Range is clean.
    Clean,
    /// Range is dirty.
    Dirty,
}

/// What a slot holds.
///
/// The awaiting-clean length of an interval is counted in pages.
pub enum SlotContent {
    Empty,
    Page { index: u32 },
    Reference { value: u32 },
    Marker { share_count: u32 },
    ParentContent,
    Interval { sentinel: SentinelType, state: ZeroRangeDirtyState, awaiting: int },
}

impl SlotContent {
    pub open spec fn is_slot(self) -> bool {
        self is Interval && self->sentinel == SentinelType::Slot
    }

    pub open spec fn is_start(self) -> bool {
        self is Interval && self->sentinel == SentinelType::Start
    }

    pub open spec fn is_end(self) -> bool {
        self is Interval && self->sentinel == SentinelType::End
    }

    /// The same interval content under another sentinel.
    pub open spec fn with_sentinel(self, sentinel: SentinelType) -> SlotContent {
        SlotContent::Interval { sentinel, state: self->state, awaiting: self->awaiting }
    }

    /// The same interval content with another awaiting-clean length.
    pub open spec fn with_awaiting(self, awaiting: int) -> SlotContent {
        SlotContent::Interval { sentinel: self->sentinel, state: self->state, awaiting }
    }
}

/// The number of page counts that fit in the awaiting-clean length field.
pub open spec fn awaiting_limit() -> int {
    0x80_0000
}

/// The page count that the awaiting-clean length field keeps of `pages`.
pub open spec fn stored_awaiting(pages: int) -> int {
    pages % awaiting_limit()
}

pub open spec fn sentinel_of(bits: int) -> SentinelType {
    if bits == 0 {
        SentinelType::Slot
    } else if bits == 1 {
        SentinelType::Start
    } else {
        SentinelType::End
    }
}

pub open spec fn sentinel_bits(sentinel: SentinelType) -> int {
    match sentinel {
        SentinelType::Slot => 0,
        SentinelType::Start => 1,
        SentinelType::End => 2,
    }
}

pub open spec fn state_of(bits: int) -> ZeroRangeDirtyState {
    if bits == 0 {
        ZeroRangeDirtyState::Untracked
    } else if bits == 1 {
        ZeroRangeDirtyState::Clean
    } else {
        ZeroRangeDirtyState::Dirty
    }
}

pub open spec fn state_bits(state: ZeroRangeDirtyState) -> int {
    match state {
        ZeroRangeDirtyState::Untracked => 0,
        ZeroRangeDirtyState::Clean => 1,
        ZeroRangeDirtyState::Dirty => 2,
    }
}

impl ZeroRangeDirtyState {
    fn to_bits(self) -> (bits: u32)
        ensures
            bits == state_bits(self),
    {
        match self {
            ZeroRangeDirtyState::Untracked => 0,
            ZeroRangeDirtyState::Clean => 1,
            ZeroRangeDirtyState::Dirty => 2,
        }
    }
}

impl SentinelType {
    fn to_bits(self) -> (bits: u32)
        ensures
            bits == sentinel_bits(self),
    {
        match self {
            SentinelType::Slot => 0,
            SentinelType::Start => 1,
            SentinelType::End => 2,
        }
    }
}

/// The bit fields of an interval slot, as quotients and remainders.
proof fn lemma_fields(raw: u32)
    ensures
        raw & 7 == raw % 8,
        raw >> 3 == raw / 8,
        (raw >> 3) & 3 == (raw / 8) % 4,
        (raw >> 5) & 3 == (raw / 32) % 4,
        (raw & 0x180) >> 7 == (raw / 128) % 4,
        raw & !7 == raw - raw % 8,
        raw & 127 == raw % 128,
        raw & !127 == raw - raw % 128,
        raw & !127 == (raw / 128) * 128,
        raw / 512 < 0x80_0000,
{
    assert(raw & 7 == raw % 8) by (bit_vector);
    assert(raw >> 3 == raw / 8) by (bit_vector);
    assert((raw >> 3) & 3 == (raw / 8) % 4) by (bit_vector);
    assert((raw >> 5) & 3 == (raw / 32) % 4) by (bit_vector);
    assert((raw & 0x180) >> 7 == (raw / 128) % 4) by (bit_vector);
    assert(raw & !7 == raw - raw % 8) by (bit_vector);
    assert(raw & 127 == raw % 128) by (bit_vector);
    assert(raw & !127 == raw - raw % 128) by (bit_vector);
}

/// Joining two values that share no set bit adds them.
proof fn lemma_join(high: u32, low: u32, unit: u32)
    requires
        unit == 8 || unit == 32 || unit == 128 || unit == 512,
        high % unit == 0,
        low < unit,
    ensures
        high | low == high + low,
        low | high == high + low,
{
    assert((high | low == high + low) && (low | high == high + low)) by (bit_vector)
        requires
            unit == 8 || unit == 32 || unit == 128 || unit == 512,
            high % unit == 0,
            low < unit,
    ;
}

/// The part of an interval slot that belongs to the kind of interval: for a range of zero pages
/// its dirty state and the length, if any, that is awaiting clean.
#[derive(PartialEq, Eq, Structural, Clone, Copy, Debug)]
pub struct ZeroRange {
    value: u32,
}

impl ZeroRange {
    /// The low bits of a zero range are left to the slot that holds it.
    pub const ALIGN_BITS: u32 = 7;

    pub const ALIGN_MASK: u32 = 127;

    const DIRTY_STATE_SHIFT: u32 = 7;

    const DIRTY_STATE_MASK: u32 = 0x180;

    const AWAITING_CLEAN_LENGTH_SHIFT: u32 = 9;

    const AWAITING_CLEAN_LENGTH_MASK: u32 = 0xffff_fe00;

    const PAGE_SHIFT: u32 = 12;

    pub closed spec fn bits(self) -> u32 {
        self.value
    }

    /// The low bits are clear and the dirty state is one that exists.
    pub open spec fn wf(self) -> bool {
        &&& self.bits() % 128 == 0
        &&& (self.bits() / 128) % 4 <= 2
    }

    pub open spec fn state(self) -> ZeroRangeDirtyState {
        state_of(((self.bits() / 128) % 4) as int)
    }

    /// The awaiting-clean length in pages.
    pub open spec fn awaiting(self) -> int {
        (self.bits() / 512) as int
    }

    /// Creates a new `ZeroRange` with a raw aligned value.
    pub fn new(val: u32) -> (range: Self)
        requires
            val % 128 == 0,
        ensures
            range.bits() == val,
    {
        ZeroRange { value: val }
    }

    /// Creates a `ZeroRange` with a raw aligned value and initial dirty state.
    pub fn new_with_state(val: u32, state: ZeroRangeDirtyState) -> (range: Self)
        requires
            val % 128 == 0,
            state != ZeroRangeDirtyState::Clean,
        ensures
            range.wf(),
            range.state() == state,
            range.awaiting() == val / 512,
    {
        let mut this = ZeroRange::new(val);
        this.set_dirty_state(state);
        this
    }

    /// Returns the raw packed `u32` value.
    pub fn value(&self) -> (value: u32)
        ensures
            value == self.bits(),
    {
        self.value
    }

    /// Returns the `ZeroRangeDirtyState`.
    pub fn dirty_state(&self) -> (state: ZeroRangeDirtyState)
        requires
            self.wf(),
        ensures
            state == self.state(),
    {
        let state_bits: u32 = (self.value & Self::DIRTY_STATE_MASK) >> Self::DIRTY_STATE_SHIFT;
        proof {
            lemma_fields(self.value);
        }
        match state_bits {
            0 => ZeroRangeDirtyState::Untracked,
            1 => ZeroRangeDirtyState::Clean,
            _ => ZeroRangeDirtyState::Dirty,
        }
    }

    /// Sets the `ZeroRangeDirtyState`. Only dirty and untracked zero ranges are allowed for now.
    pub fn set_dirty_state(&mut self, state: ZeroRangeDirtyState)
        requires
            old(self).bits() % 128 == 0,
            state != ZeroRangeDirtyState::Clean,
        ensures
            final(self).wf(),
            final(self).state() == state,
            final(self).awaiting() == old(self).awaiting(),
    {
        let bits: u32 = state.to_bits();
        let value: u32 = self.value;
        self.value = (value & !Self::DIRTY_STATE_MASK) | (bits << Self::DIRTY_STATE_SHIFT);
        proof {
            let new_value = (value & !0x180u32) | (bits << 7u32);
            assert(new_value % 128 == 0 && (new_value / 128) % 4 == bits && new_value / 512
                == value / 512) by (bit_vector)
                requires
                    value % 128 == 0,
                    bits == 0 || bits == 2,
                    new_value == (value & !0x180u32) | (bits << 7u32),
            ;
        }
    }

    /// Sets the page-aligned awaiting clean length. Only the page count is stored, in as many bits
    /// as there are left.
    pub fn set_awaiting_clean_length(&mut self, len: u64)
        requires
            old(self).wf(),
            len == 0 || old(self).state() == ZeroRangeDirtyState::Dirty,
            len % 4096 == 0,
        ensures
            final(self).wf(),
            final(self).state() == old(self).state(),
            final(self).awaiting() == stored_awaiting(len as int / 4096),
    {
        let value: u32 = self.value;
        let encoded_len: u32 = #[verifier::truncate] (((len >> Self::PAGE_SHIFT)
            << Self::AWAITING_CLEAN_LENGTH_SHIFT) as u32);
        self.value = (value & !Self::AWAITING_CLEAN_LENGTH_MASK) | (encoded_len
            & Self::AWAITING_CLEAN_LENGTH_MASK);
        proof {
            let new_value = (value & !0xffff_fe00u32) | (encoded_len & 0xffff_fe00u32);
            assert(new_value % 128 == 0 && (new_value / 128) % 4 == (value / 128) % 4
                && new_value / 512 == (len / 4096) % 0x80_0000) by (bit_vector)
                requires
                    value % 128 == 0,
                    encoded_len == ((len >> 12u32) << 9u32) as u32,
                    new_value == (value & !0xffff_fe00u32) | (encoded_len & 0xffff_fe00u32),
            ;
        }
    }

    /// Returns the page-aligned awaiting clean length.
    pub fn awaiting_clean_length(&self) -> (len: u64)
        ensures
            len == self.awaiting() * 4096,
    {
        let value: u32 = self.value;
        let len_bits: u64 = (value & Self::AWAITING_CLEAN_LENGTH_MASK) as u64;
        proof {
            assert((((value & 0xffff_fe00u32) as u64) >> 9u32) << 12u32 == (value / 512) * 4096)
                by (bit_vector);
        }
        (len_bits >> Self::AWAITING_CLEAN_LENGTH_SHIFT) << Self::PAGE_SHIFT
    }
}

/// Minimal wrapper around a `u32` to keep references from being mixed up with other values.
#[derive(PartialEq, Eq, Structural, Clone, Copy, Debug)]
pub struct ReferenceValue {
    value: u32,
}

impl ReferenceValue {
    /// The number of low bits in a reference that must be zero, so that a slot can use them.
    pub const ALIGN_BITS: u32 = 3;

    pub const ALIGN_MASK: u32 = 7;

    pub closed spec fn view(&self) -> u32 {
        self.value
    }

    /// Creates a new `ReferenceValue`.
    pub fn new(val: u32) -> (reference: Self)
        requires
            val % 8 == 0,
        ensures
            reference@ == val,
    {
        ReferenceValue { value: val }
    }

    /// Returns the raw value.
    pub fn value(&self) -> (value: u32)
        ensures
            value == self@,
    {
        self.value
    }

    /// References with the same raw value are the same.
    pub proof fn lemma_equal(a: ReferenceValue, b: ReferenceValue)
        requires
            a@ == b@,
        ensures
            a == b,
    {
    }
}

/// The content that a raw slot value stands for.
pub open spec fn content_of(raw: u32) -> SlotContent {
    if raw == 0 {
        SlotContent::Empty
    } else if raw % 8 == 0 {
        SlotContent::Page { index: raw }
    } else if raw % 8 == 1 {
        SlotContent::Marker { share_count: raw / 8 }
    } else if raw % 8 == 2 {
        SlotContent::Reference { value: (raw - 2) as u32 }
    } else if raw % 8 == 3 {
        SlotContent::Interval {
            sentinel: sentinel_of(((raw / 8) % 4) as int),
            state: state_of(((raw / 128) % 4) as int),
            awaiting: (raw / 512) as int,
        }
    } else {
        SlotContent::ParentContent
    }
}

/// The contents that slots take. Intervals are dirty or untracked, and only dirty ones are awaiting
/// clean.
pub open spec fn content_ok(c: SlotContent) -> bool {
    match c {
        SlotContent::Empty => true,
        SlotContent::Page { index } => index != 0 && index % 8 == 0,
        SlotContent::Reference { value } => value % 8 == 0,
        SlotContent::Marker { share_count } => share_count < 0x2000_0000,
        SlotContent::ParentContent => true,
        SlotContent::Interval { sentinel, state, awaiting } => {
            &&& state != ZeroRangeDirtyState::Clean
            &&& 0 <= awaiting < awaiting_limit()
            &&& awaiting > 0 ==> state == ZeroRangeDirtyState::Dirty
        },
    }
}

/// The raw values that slots take: those that stand for a content that slots take, with no stray
/// bits set.
pub open spec fn raw_wf(raw: u32) -> bool {
    &&& raw % 8 <= 4
    &&& raw % 8 == 4 ==> raw == 4
    &&& raw % 8 == 3 ==> {
        &&& (raw / 8) % 4 <= 2
        &&& (raw / 32) % 4 == 0
        &&& (raw / 128) % 4 == 0 || (raw / 128) % 4 == 2
        &&& raw / 512 > 0 ==> (raw / 128) % 4 == 2
    }
}

/// The content of one slot of a page list. It is in one of these states:
///  * Empty: holds nothing.
///  * Page: owns a page, known by its index in the physical memory manager.
///  * Reference: owns a reference to some content.
///  * Marker: not a page, but not empty either; it tells "the page here is zero" apart from
///    "nothing is here".
///  * ParentContent: there might be content for this slot in the parent's page list.
///  * Interval: one end of a sparse page interval, or all of it where it spans a single page. All
///    offsets between a start and its end are empty.
///
/// The low three bits of the packed value are the type. A page with a zero index is Empty.
#[derive(Debug)]
pub struct VmPageOrMarker {
    raw: u32,
}

impl View for VmPageOrMarker {
    type V = SlotContent;

    closed spec fn view(&self) -> SlotContent {
        content_of(self.raw)
    }
}

impl VmPageOrMarker {
    const TYPE_BITS: u32 = 3;

    const TYPE_MASK: u32 = 7;

    pub const PAGE_TYPE: u32 = 0;

    const ZERO_MARKER_TYPE: u32 = 1;

    const REFERENCE_TYPE: u32 = 2;

    const INTERVAL_TYPE: u32 = 3;

    const PARENT_CONTENT_TYPE: u32 = 4;

    const MARKER_SHARE_COUNT_MASK: u32 = 0xffff_fff8;

    const MARKER_SHARE_COUNT_STEP: u32 = 8;

    const INTERVAL_SENTINEL_SHIFT: u32 = 3;

    const INTERVAL_SENTINEL_MASK: u32 = 3;

    const INTERVAL_MASK: u32 = 127;

    pub closed spec fn bits(self) -> u32 {
        self.raw
    }

    /// The packed value is one that the operations on slots produce.
    pub closed spec fn wf(self) -> bool {
        raw_wf(self.raw)
    }

    fn get_type(&self) -> (kind: u32)
        ensures
            kind == self.raw % 8,
    {
        proof {
            lemma_fields(self.raw);
        }
        self.raw & Self::TYPE_MASK
    }

    /// Creates an empty `VmPageOrMarker`.
    pub fn empty() -> (slot: Self)
        ensures
            slot.wf(),
            slot@ == SlotContent::Empty,
            slot.bits() == 0,
    {
        VmPageOrMarker { raw: Self::PAGE_TYPE }
    }

    /// Creates a `VmPageOrMarker` from a page of `pmm`, which `page` will return again.
    pub fn from_page(pmm: &PmmNode, p: VmPagePtr) -> (slot: Self)
        requires
            pmm.wf(),
            pmm@.pages.contains_key(p),
        ensures
            slot.wf(),
            slot@ == (SlotContent::Page { index: page_index(pmm@.arenas, p) as u32 }),
            slot.holds_page(pmm, p),
    {
        proof {
            lemma_index_round_trip(pmm@.arenas, p);
        }
        let raw: u32 = pmm.page_to_index(p);
        VmPageOrMarker { raw }
    }

    /// The slot holds this page of `pmm`.
    pub open spec fn holds_page(self, pmm: &PmmNode, p: VmPagePtr) -> bool {
        &&& self@ is Page
        &&& valid_index(pmm@.arenas, self@->index)
        &&& indexed_page(pmm@.arenas, self@->index) == p
    }

    /// Creates a `VmPageOrMarker` from a reference.
    ///
    /// Unlike a page index, a reference of zero is valid and may be stored.
    pub fn from_reference(ref_val: ReferenceValue) -> (slot: Self)
        requires
            ref_val@ % 8 == 0,
        ensures
            slot.wf(),
            slot@ == (SlotContent::Reference { value: ref_val@ }),
    {
        let value: u32 = ref_val.value();
        proof {
            lemma_join(value, 2, 8);
        }
        VmPageOrMarker { raw: value | Self::REFERENCE_TYPE }
    }

    /// Creates a marker `VmPageOrMarker`.
    pub fn marker() -> (slot: Self)
        ensures
            slot.wf(),
            slot@ == (SlotContent::Marker { share_count: 0 }),
    {
        VmPageOrMarker { raw: Self::ZERO_MARKER_TYPE }
    }

    /// Creates a marker `VmPageOrMarker` with a share count, of which the low 29 bits are kept.
    pub fn marker_with_share_count(share_count: u32) -> (slot: Self)
        ensures
            slot.wf(),
            slot@ == (SlotContent::Marker { share_count: share_count % 0x2000_0000 }),
    {
        let raw: u32 = Self::ZERO_MARKER_TYPE | ((share_count << Self::TYPE_BITS)
            & Self::MARKER_SHARE_COUNT_MASK);
        proof {
            assert(raw % 8 == 1 && raw / 8 == share_count % 0x2000_0000) by (bit_vector)
                requires
                    raw == 1u32 | ((share_count << 3u32) & 0xffff_fff8u32),
            ;
        }
        VmPageOrMarker { raw }
    }

    /// Creates a parent content `VmPageOrMarker`.
    pub fn parent_content() -> (slot: Self)
        ensures
            slot.wf(),
            slot@ == SlotContent::ParentContent,
    {
        VmPageOrMarker { raw: Self::PARENT_CONTENT_TYPE }
    }

    /// Creates a zero interval `VmPageOrMarker`, of which nothing is awaiting clean.
    pub fn zero_interval(sentinel: SentinelType, state: ZeroRangeDirtyState) -> (slot: Self)
        requires
            state != ZeroRangeDirtyState::Clean,
        ensures
            slot.wf(),
            slot@ == (SlotContent::Interval { sentinel, state, awaiting: 0 }),
    {
        let sentinel_bits: u32 = sentinel.to_bits();
        let zr: ZeroRange = ZeroRange::new_with_state(0, state);
        let value: u32 = zr.value();
        let raw: u32 = value | (sentinel_bits << Self::INTERVAL_SENTINEL_SHIFT)
            | Self::INTERVAL_TYPE;
        proof {
            assert(raw % 8 == 3 && (raw / 8) % 4 == sentinel_bits && (raw / 32) % 4 == 0 && raw
                / 128 == value / 128 && raw / 512 == value / 512) by (bit_vector)
                requires
                    value % 128 == 0,
                    sentinel_bits <= 2,
                    raw == value | (sentinel_bits << 3u32) | 3u32,
            ;
        }
        VmPageOrMarker { raw }
    }

    /// Returns true if this is empty.
    pub fn is_empty(&self) -> (result: bool)
        requires
            self.wf(),
        ensures
            result == (self@ is Empty),
    {
        self.raw == Self::PAGE_TYPE
    }

    /// Returns true if this is a page.
    pub fn is_page(&self) -> (result: bool)
        requires
            self.wf(),
        ensures
            result == (self@ is Page),
    {
        !self.is_empty() && (self.get_type() == Self::PAGE_TYPE)
    }

    /// Returns true if this is a reference.
    pub fn is_reference(&self) -> (result: bool)
        requires
            self.wf(),
        ensures
            result == (self@ is Reference),
    {
        self.get_type() == Self::REFERENCE_TYPE
    }

    /// Returns true if this is a page or a reference.
    pub fn is_page_or_ref(&self) -> (result: bool)
        requires
            self.wf(),
        ensures
            result == (self@ is Page || self@ is Reference),
    {
        self.is_page() || self.is_reference()
    }

    /// Returns true if this is a marker.
    pub fn is_marker(&self) -> (result: bool)
        requires
            self.wf(),
        ensures
            result == (self@ is Marker),
    {
        self.get_type() == Self::ZERO_MARKER_TYPE
    }

    /// Returns true if this is parent content.
    pub fn is_parent_content(&self) -> (result: bool)
        requires
            self.wf(),
        ensures
            result == (self@ is ParentContent),
    {
        self.get_type() == Self::PARENT_CONTENT_TYPE
    }

    /// Returns the marker share count.
    pub fn marker_share_count(&self) -> (count: u32)
        requires
            self.wf(),
            self@ is Marker,
        ensures
            count == self@->share_count,
    {
        proof {
            lemma_fields(self.raw);
        }
        self.raw >> Self::TYPE_BITS
    }

    /// Sets the marker share count, of which the low 29 bits are kept.
    pub fn set_marker_share_count(&mut self, share_count: u32)
        requires
            old(self).wf(),
            old(self)@ is Marker,
        ensures
            final(self).wf(),
            final(self)@ == (SlotContent::Marker { share_count: share_count % 0x2000_0000 }),
    {
        let raw: u32 = self.raw;
        self.raw = (raw & !Self::MARKER_SHARE_COUNT_MASK) | ((share_count << Self::TYPE_BITS)
            & Self::MARKER_SHARE_COUNT_MASK);
        proof {
            let new_raw = (raw & !0xffff_fff8u32) | ((share_count << 3u32) & 0xffff_fff8u32);
            assert(new_raw % 8 == 1 && new_raw / 8 == share_count % 0x2000_0000) by (bit_vector)
                requires
                    raw % 8 == 1,
                    new_raw == (raw & !0xffff_fff8u32) | ((share_count << 3u32) & 0xffff_fff8u32),
            ;
        }
    }

    /// Increments the marker share count.
    pub fn increment_marker_share_count(&mut self)
        requires
            old(self).wf(),
            old(self)@ is Marker,
            old(self)@->share_count < 0x1fff_ffff,
        ensures
            final(self).wf(),
            final(self)@ == (SlotContent::Marker {
                share_count: (old(self)@->share_count + 1) as u32,
            }),
    {
        self.raw = self.raw + Self::MARKER_SHARE_COUNT_STEP;
    }

    /// Decrements the marker share count. It is invalid to decrement it from zero.
    pub fn decrement_marker_share_count(&mut self)
        requires
            old(self).wf(),
            old(self)@ is Marker,
            old(self)@->share_count > 0,
        ensures
            final(self).wf(),
            final(self)@ == (SlotContent::Marker {
                share_count: (old(self)@->share_count - 1) as u32,
            }),
    {
        self.raw = self.raw - Self::MARKER_SHARE_COUNT_STEP;
    }

    /// Returns true if this is an interval.
    pub fn is_interval(&self) -> (result: bool)
        requires
            self.wf(),
        ensures
            result == (self@ is Interval),
    {
        self.get_type() == Self::INTERVAL_TYPE
    }

    /// Returns the interval sentinel type.
    fn interval_sentinel(&self) -> (sentinel: SentinelType)
        requires
            self.wf(),
            self@ is Interval,
        ensures
            sentinel == self@->sentinel,
    {
        proof {
            lemma_fields(self.raw);
        }
        let bits: u32 = (self.raw >> Self::INTERVAL_SENTINEL_SHIFT) & Self::INTERVAL_SENTINEL_MASK;
        match bits {
            0 => SentinelType::Slot,
            1 => SentinelType::Start,
            _ => SentinelType::End,
        }
    }

    /// Sets the interval sentinel type.
    fn set_interval_sentinel(&mut self, sentinel: SentinelType)
        requires
            old(self).wf(),
            old(self)@ is Interval,
        ensures
            final(self).wf(),
            final(self)@ == old(self)@.with_sentinel(sentinel),
    {
        let raw: u32 = self.raw;
        let bits: u32 = sentinel.to_bits();
        self.raw = (raw & !(Self::INTERVAL_SENTINEL_MASK << Self::INTERVAL_SENTINEL_SHIFT)) | (bits
            << Self::INTERVAL_SENTINEL_SHIFT);
        proof {
            let new_raw = (raw & !(3u32 << 3u32)) | (bits << 3u32);
            assert(new_raw % 8 == raw % 8 && (new_raw / 8) % 4 == bits && new_raw / 32 == raw / 32
                && new_raw / 128 == raw / 128 && new_raw / 512 == raw / 512) by (bit_vector)
                requires
                    bits <= 2,
                    new_raw == (raw & !(3u32 << 3u32)) | (bits << 3u32),
            ;
        }
    }

    /// Returns the interval type. There is only one for now.
    fn interval_type(&self) -> (kind: IntervalType)
        requires
            self.wf(),
            self@ is Interval,
        ensures
            kind == IntervalType::Zero,
    {
        IntervalType::Zero
    }

    /// Returns true if this is the start of an interval.
    pub fn is_interval_start(&self) -> (result: bool)
        requires
            self.wf(),
        ensures
            result == self@.is_start(),
    {
        self.is_interval() && self.interval_sentinel() == SentinelType::Start
    }

    /// Returns true if this is the end of an interval.
    pub fn is_interval_end(&self) -> (result: bool)
        requires
            self.wf(),
        ensures
            result == self@.is_end(),
    {
        self.is_interval() && self.interval_sentinel() == SentinelType::End
    }

    /// Returns true if this is an interval slot.
    pub fn is_interval_slot(&self) -> (result: bool)
        requires
            self.wf(),
        ensures
            result == self@.is_slot(),
    {
        self.is_interval() && self.interval_sentinel() == SentinelType::Slot
    }

    /// Returns true if this is a zero interval.
    pub fn is_interval_zero(&self) -> (result: bool)
        requires
            self.wf(),
        ensures
            result == (self@ is Interval),
    {
        self.is_interval() && self.interval_type() == IntervalType::Zero
    }

    /// The part of an interval slot that describes its zero range.
    fn zero_range(&self) -> (range: ZeroRange)
        requires
            self.wf(),
            self@ is Interval,
        ensures
            range.wf(),
            range.bits() == self.raw - self.raw % 128,
            range.state() == self@->state,
            range.awaiting() == self@->awaiting,
    {
        proof {
            lemma_fields(self.raw);
        }
        ZeroRange::new(self.raw & !Self::INTERVAL_MASK)
    }

    /// Returns true if this zero interval is clean.
    pub fn is_zero_interval_clean(&self) -> (result: bool)
        requires
            self.wf(),
            self@ is Interval,
        ensures
            result == (self@->state == ZeroRangeDirtyState::Clean),
    {
        self.zero_range().dirty_state() == ZeroRangeDirtyState::Clean
    }

    /// Returns true if this zero interval is dirty.
    pub fn is_zero_interval_dirty(&self) -> (result: bool)
        requires
            self.wf(),
            self@ is Interval,
        ensures
            result == (self@->state == ZeroRangeDirtyState::Dirty),
    {
        self.zero_range().dirty_state() == ZeroRangeDirtyState::Dirty
    }

    /// Returns true if this zero interval is untracked.
    pub fn is_zero_interval_untracked(&self) -> (result: bool)
        requires
            self.wf(),
            self@ is Interval,
        ensures
            result == (self@->state == ZeroRangeDirtyState::Untracked),
    {
        self.zero_range().dirty_state() == ZeroRangeDirtyState::Untracked
    }

    /// Returns the dirty state of this zero interval.
    pub fn zero_interval_dirty_state(&self) -> (state: ZeroRangeDirtyState)
        requires
            self.wf(),
            self@ is Interval,
        ensures
            state == self@->state,
    {
        self.zero_range().dirty_state()
    }

    /// Sets the awaiting-clean length of this zero interval.
    pub fn set_zero_interval_awaiting_clean_length(&mut self, len: u64)
        requires
            old(self).wf(),
            old(self)@.is_start() || old(self)@.is_slot(),
            len == 0 || old(self)@->state == ZeroRangeDirtyState::Dirty,
            len % 4096 == 0,
        ensures
            final(self).wf(),
            final(self)@ == old(self)@.with_awaiting(stored_awaiting(len as int / 4096)),
    {
        let raw: u32 = self.raw;
        let mut zr: ZeroRange = self.zero_range();
        zr.set_awaiting_clean_length(len);
        let value: u32 = zr.value();
        self.raw = (raw & Self::INTERVAL_MASK) | value;
        proof {
            let new_raw = (raw & 127u32) | value;
            assert(new_raw % 8 == raw % 8 && (new_raw / 8) % 4 == (raw / 8) % 4 && (new_raw / 32) % 4
                == (raw / 32) % 4 && new_raw / 128 == value / 128 && new_raw / 512 == value / 512)
                by (bit_vector)
                requires
                    value % 128 == 0,
                    new_raw == (raw & 127u32) | value,
            ;
        }
    }

    /// Returns the awaiting-clean length of this zero interval.
    pub fn zero_interval_awaiting_clean_length(&self) -> (len: u64)
        requires
            self.wf(),
            self@.is_start() || self@.is_slot(),
        ensures
            len == self@->awaiting * 4096,
    {
        self.zero_range().awaiting_clean_length()
    }

    /// Changes the interval sentinel type of an existing interval, and keeps the rest of its
    /// state. The only transitions are from Slot to Start or End and back, as these are the ones
    /// that extending and clipping intervals take.
    pub fn change_interval_sentinel(&mut self, new_sentinel: SentinelType)
        requires
            old(self).wf(),
            old(self)@ is Interval,
            (old(self)@->sentinel == SentinelType::Slot) != (new_sentinel == SentinelType::Slot),
        ensures
            final(self).wf(),
            final(self)@ == old(self)@.with_sentinel(new_sentinel),
    {
        self.set_interval_sentinel(new_sentinel);
    }

    /// Returns the underlying page.
    pub fn page(&self, pmm: &PmmNode) -> (page: VmPagePtr)
        requires
            self.wf(),
            pmm.wf(),
            self@ is Page,
            valid_index(pmm@.arenas, self@->index),
        ensures
            self.holds_page(pmm, page),
            pmm@.pages.contains_key(page),
    {
        pmm.index_to_page(self.raw)
    }

    /// Returns the physical address of the page.
    pub fn page_as_paddr(&self, pmm: &PmmNode) -> (paddr: u64)
        requires
            self.wf(),
            pmm.wf(),
            self@ is Page,
            valid_index(pmm@.arenas, self@->index),
        ensures
            self.holds_page(pmm, VmPagePtr { paddr }),
    {
        pmm.index_to_paddr(self.raw)
    }

    /// Returns the underlying reference.
    pub fn reference(&self) -> (reference: ReferenceValue)
        requires
            self.wf(),
            self@ is Reference,
        ensures
            reference@ == self@->value,
            reference@ % 8 == 0,
    {
        proof {
            lemma_fields(self.raw);
        }
        ReferenceValue::new(self.raw & !ReferenceValue::ALIGN_MASK)
    }

    /// Resets `self` to Empty and returns the raw underlying representation, which gives up
    /// ownership of any contained page or reference.
    pub fn release(&mut self) -> (raw: u32)
        ensures
            raw == old(self).bits(),
            final(self).wf(),
            final(self)@ is Empty,
    {
        let ret: u32 = self.raw;
        self.raw = Self::PAGE_TYPE;
        ret
    }

    /// Moves the underlying page out and returns it. After this the slot is empty.
    pub fn release_page(&mut self, pmm: &PmmNode) -> (page: VmPagePtr)
        requires
            old(self).wf(),
            pmm.wf(),
            old(self)@ is Page,
            valid_index(pmm@.arenas, old(self)@->index),
        ensures
            old(self).holds_page(pmm, page),
            pmm@.pages.contains_key(page),
            final(self).wf(),
            final(self)@ is Empty,
    {
        let raw: u32 = self.release();
        pmm.index_to_page(raw)
    }

    /// Moves the underlying reference out and returns it. After this the slot is empty.
    pub fn release_reference(&mut self) -> (reference: ReferenceValue)
        requires
            old(self).wf(),
            old(self)@ is Reference,
        ensures
            reference@ == old(self)@->value,
            reference@ % 8 == 0,
            final(self).wf(),
            final(self)@ is Empty,
    {
        let raw: u32 = self.release();
        proof {
            lemma_fields(raw);
        }
        ReferenceValue::new(raw & !ReferenceValue::ALIGN_MASK)
    }

    /// Changes the content from a reference to a page and returns the original reference.
    pub fn swap_reference_for_page(&mut self, pmm: &PmmNode, p: VmPagePtr) -> (reference:
        ReferenceValue)
        requires
            old(self).wf(),
            old(self)@ is Reference,
            pmm.wf(),
            pmm@.pages.contains_key(p),
        ensures
            reference@ == old(self)@->value,
            reference@ % 8 == 0,
            final(self).wf(),
            final(self)@ == (SlotContent::Page { index: page_index(pmm@.arenas, p) as u32 }),
            final(self).holds_page(pmm, p),
    {
        let ref_val: ReferenceValue = self.release_reference();
        *self = Self::from_page(pmm, p);
        ref_val
    }

    /// Changes the content from a page to a reference and returns the original page.
    pub fn swap_page_for_reference(&mut self, pmm: &PmmNode, ref_val: ReferenceValue) -> (page:
        VmPagePtr)
        requires
            old(self).wf(),
            pmm.wf(),
            old(self)@ is Page,
            valid_index(pmm@.arenas, old(self)@->index),
            ref_val@ % 8 == 0,
        ensures
            old(self).holds_page(pmm, page),
            pmm@.pages.contains_key(page),
            final(self).wf(),
            final(self)@ == (SlotContent::Reference { value: ref_val@ }),
    {
        let page = self.release_page(pmm);
        *self = Self::from_reference(ref_val);
        page
    }

    /// Changes the content from one reference to a different one and returns the original
    /// reference.
    pub fn swap_reference_for_reference(&mut self, ref_val: ReferenceValue) -> (reference:
        ReferenceValue)
        requires
            old(self).wf(),
            old(self)@ is Reference,
            ref_val@ % 8 == 0,
        ensures
            reference@ == old(self)@->value,
            reference@ % 8 == 0,
            final(self).wf(),
            final(self)@ == (SlotContent::Reference { value: ref_val@ }),
    {
        let old_ref: ReferenceValue = self.release_reference();
        *self = Self::from_reference(ref_val);
        old_ref
    }

    /// Swaps content with another `VmPageOrMarker`, returning the previous value of `self`.
    pub fn swap(&mut self, other: Self) -> (previous: Self)
        ensures
            *final(self) == other,
            previous == *old(self),
    {
        let mut other: Self = other;
        let ret: u32 = self.raw;
        self.raw = other.release();
        VmPageOrMarker { raw: ret }
    }
}

/// What a slot holds is always a content that slots take.
pub proof fn lemma_slot_content(slot: VmPageOrMarker)
    requires
        slot.wf(),
    ensures
        content_ok(slot@),
{
    lemma_fields(slot.raw);
}

/// How each content is packed: the type is in the lowest three bits, and what there is besides is
/// above them. Of an interval that is the sentinel from bit 3 on, the dirty state from bit 7 on, and
/// the number of pages that are awaiting clean from bit 9 on.
pub proof fn lemma_packed_form(slot: VmPageOrMarker)
    requires
        slot.wf(),
    ensures
        match slot@ {
            SlotContent::Empty => slot.bits() == 0,
            SlotContent::Page { index } => slot.bits() == index,
            SlotContent::Marker { share_count } => slot.bits() == share_count * 8 + 1,
            SlotContent::Reference { value } => slot.bits() == value + 2,
            SlotContent::Interval { sentinel, state, awaiting } => slot.bits() == 3 + 8 * (
            match sentinel {
                SentinelType::Slot => 0int,
                SentinelType::Start => 1,
                SentinelType::End => 2,
            }) + 128 * (match state {
                ZeroRangeDirtyState::Untracked => 0int,
                ZeroRangeDirtyState::Clean => 1,
                ZeroRangeDirtyState::Dirty => 2,
            }) + 512 * awaiting,
            SlotContent::ParentContent => slot.bits() == 4,
        },
{
    let raw = slot.raw;
    assert(raw == raw % 8 + 8 * ((raw / 8) % 4) + 32 * ((raw / 32) % 4) + 128 * ((raw / 128) % 4)
        + 512 * (raw / 512)) by (bit_vector);
}

/// To change one part of an interval leaves its other parts as they are, and what is no more than
/// the field can take is kept as it is.
pub proof fn lemma_changed_part(c: SlotContent, sentinel: SentinelType, pages: int)
    requires
        c is Interval,
        0 <= pages,
    ensures
        c.with_sentinel(sentinel) == (SlotContent::Interval {
            sentinel,
            state: c->state,
            awaiting: c->awaiting,
        }),
        c.with_awaiting(pages) == (SlotContent::Interval {
            sentinel: c->sentinel,
            state: c->state,
            awaiting: pages,
        }),
        pages < 0x80_0000 ==> stored_awaiting(pages) == pages,
        0 <= stored_awaiting(pages) < 0x80_0000,
        (pages - stored_awaiting(pages)) % 0x80_0000 == 0,
        c.is_slot() <==> c->sentinel == SentinelType::Slot,
        c.is_start() <==> c->sentinel == SentinelType::Start,
        c.is_end() <==> c->sentinel == SentinelType::End,
{
}

/// A slot holds one page only: the one that its number leads to, in the arena and at the position
/// that the number tells.
pub proof fn lemma_held_page(slot: VmPageOrMarker, pmm: &PmmNode, p: VmPagePtr)
    requires
        slot.holds_page(pmm, p),
        arenas_ok(pmm@.arenas),
    ensures
        ({
            let index = slot@->index as int;
            let arena = pmm@.arenas[index / 8 % 16];
            &&& slot@ is Page
            &&& index / 8 % 16 < pmm@.arenas.len()
            &&& 1 <= index / 128
            &&& p.paddr == arena.base + (index / 128 - 1) * 4096
            &&& p.paddr + 4096 <= arena.base + arena.size
        }),
{
    let i = slot@->index as int / 8 % 16;
    assert(pmm@.arenas[i].wf());
}

/// The bits of a zero range are its dirty state, from bit 7 on, and the number of pages that are
/// awaiting clean, from bit 9 on.
pub proof fn lemma_zero_range_bits(range: ZeroRange)
    requires
        range.wf(),
    ensures
        range.bits() == 128 * (match range.state() {
            ZeroRangeDirtyState::Untracked => 0int,
            ZeroRangeDirtyState::Clean => 1,
            ZeroRangeDirtyState::Dirty => 2,
        }) + 512 * range.awaiting(),
{
    let bits = range.bits();
    assert(bits % 128 == 0 ==> bits == 128 * ((bits / 128) % 4) + 512 * (bits / 512))
        by (bit_vector);
}

/// Every content has one packed form: two slots that hold the same are equal.
pub proof fn lemma_content_determines_slot(a: VmPageOrMarker, b: VmPageOrMarker)
    requires
        a.wf(),
        b.wf(),
        a@ == b@,
    ensures
        a == b,
{
    let x = a.raw;
    let y = b.raw;
    assert((x / 8) % 4 == (y / 8) % 4 && (x / 32) % 4 == (y / 32) % 4 && (x / 128) % 4 == (y / 128)
        % 4 && x / 512 == y / 512 && x % 8 == y % 8 ==> x == y) by (bit_vector);
}

/// Limited reference to a `VmPageOrMarker`. It gives unrestricted read access to the slot, but of
/// the ways to change it only those that do not clear it to the Empty state. Traversals that are
/// not meant to clear entries hand these out.
pub struct VmPageOrMarkerRef<'a> {
    pub slot: &'a mut VmPageOrMarker,
}

impl<'a> VmPageOrMarkerRef<'a> {
    /// The content of the slot as it is now.
    pub open spec fn view(&self) -> SlotContent {
        self.slot@
    }

    pub open spec fn wf(&self) -> bool {
        self.slot.wf()
    }

    /// Creates a new `VmPageOrMarkerRef` wrapping `slot`.
    pub fn new(slot: &'a mut VmPageOrMarker) -> (slot_ref: Self)
        ensures
            *slot_ref.slot == *old(slot),
            *final(slot_ref.slot) == *final(slot),
    {
        VmPageOrMarkerRef { slot }
    }

    /// Changing the kind of content is an allowed mutation: this takes ownership of the page and
    /// returns ownership of the previous reference.
    pub fn swap_reference_for_page(&mut self, pmm: &PmmNode, page: VmPagePtr) -> (reference:
        ReferenceValue)
        requires
            old(self).wf(),
            old(self)@ is Reference,
            pmm.wf(),
            pmm@.pages.contains_key(page),
        ensures
            reference@ == old(self)@->value,
            reference@ % 8 == 0,
            final(self).wf(),
            final(self)@ == (SlotContent::Page { index: page_index(pmm@.arenas, page) as u32 }),
            final(self).slot.holds_page(pmm, page),
            *final(final(self).slot) == *final(old(self).slot),
    {
        self.slot.swap_reference_for_page(pmm, page)
    }

    /// Takes ownership of the reference and returns ownership of the previous page.
    pub fn swap_page_for_reference(&mut self, pmm: &PmmNode, ref_val: ReferenceValue) -> (page:
        VmPagePtr)
        requires
            old(self).wf(),
            pmm.wf(),
            old(self)@ is Page,
            valid_index(pmm@.arenas, old(self)@->index),
            ref_val@ % 8 == 0,
        ensures
            old(self).slot.holds_page(pmm, page),
            pmm@.pages.contains_key(page),
            final(self).wf(),
            final(self)@ == (SlotContent::Reference { value: ref_val@ }),
            *final(final(self).slot) == *final(old(self).slot),
    {
        self.slot.swap_page_for_reference(pmm, ref_val)
    }

    /// Changes one reference for another, and returns ownership of the previous one.
    pub fn swap_reference_for_reference(&mut self, ref_val: ReferenceValue) -> (reference:
        ReferenceValue)
        requires
            old(self).wf(),
            old(self)@ is Reference,
            ref_val@ % 8 == 0,
        ensures
            reference@ == old(self)@->value,
            reference@ % 8 == 0,
            final(self).wf(),
            final(self)@ == (SlotContent::Reference { value: ref_val@ }),
            *final(final(self).slot) == *final(old(self).slot),
    {
        self.slot.swap_reference_for_reference(ref_val)
    }

    /// Replaces the content of the slot with some non-empty content, and returns what was
    /// previously present. The previous content is allowed to be empty.
    pub fn swap_content(&mut self, other: VmPageOrMarker) -> (previous: VmPageOrMarker)
        requires
            other.wf(),
            !(other@ is Empty),
        ensures
            previous == *old(self).slot,
            *final(self).slot == other,
            *final(final(self).slot) == *final(old(self).slot),
    {
        self.slot.swap(other)
    }

    /// Sets the awaiting-clean length of a zero interval.
    pub fn set_zero_interval_awaiting_clean_length(&mut self, len: u64)
        requires
            old(self).wf(),
            old(self)@.is_start() || old(self)@.is_slot(),
            len == 0 || old(self)@->state == ZeroRangeDirtyState::Dirty,
            len % 4096 == 0,
        ensures
            final(self).wf(),
            final(self)@ == old(self)@.with_awaiting(stored_awaiting(len as int / 4096)),
            *final(final(self).slot) == *final(old(self).slot),
    {
        self.slot.set_zero_interval_awaiting_clean_length(len);
    }

    /// Returns the share count of this marker.
    pub fn marker_share_count(&self) -> (count: u32)
        requires
            self.wf(),
            self@ is Marker,
        ensures
            count == self@->share_count,
    {
        self.slot.marker_share_count()
    }

    /// Increments the share count of this marker.
    pub fn increment_marker_share_count(&mut self)
        requires
            old(self).wf(),
            old(self)@ is Marker,
            old(self)@->share_count < 0x1fff_ffff,
        ensures
            final(self).wf(),
            final(self)@ == (SlotContent::Marker {
                share_count: (old(self)@->share_count + 1) as u32,
            }),
            *final(final(self).slot) == *final(old(self).slot),
    {
        self.slot.increment_marker_share_count();
    }

    /// Decrements the share count of this marker.
    pub fn decrement_marker_share_count(&mut self)
        requires
            old(self).wf(),
            old(self)@ is Marker,
            old(self)@->share_count > 0,
        ensures
            final(self).wf(),
            final(self)@ == (SlotContent::Marker {
                share_count: (old(self)@->share_count - 1) as u32,
            }),
            *final(final(self).slot) == *final(old(self).slot),
    {
        self.slot.decrement_marker_share_count();
    }
}

impl<'a> std::ops::Deref for VmPageOrMarkerRef<'a> {
    type Target = VmPageOrMarker;

    fn deref(&self) -> (slot: &VmPageOrMarker)
        ensures
            slot@ == self@,
            slot.wf() == self.wf(),
    {
        self.slot
    }
}

} // verus!
