//! Memory structure and layout for Type 2 Tags.
//!
//! Type 2 Tags use a block-based memory model:
//! - Block = 4 bytes
//! - Sector = 256 blocks = 1024 bytes
//! - Static memory: 16 blocks (64 bytes)
//! - Dynamic memory: >16 blocks, up to 255 sectors
//!
//! The 255 sectors span more than 16 bits of byte addresses, so the areas of a
//! layout carry 32-bit ones.

use super::cc::CapabilityContainer;
use super::tlv::{LockControlValue, MemoryControlValue, Tlv, TlvView};
use vstd::arithmetic::power2::pow2;
use vstd::prelude::*;

verus! {

/// Block size in bytes.
pub const BLOCK_SIZE: usize = 4;

/// Number of blocks per sector.
pub const BLOCKS_PER_SECTOR: usize = 256;

/// Sector size in bytes (256 blocks * 4 bytes).
pub const SECTOR_SIZE: usize = BLOCK_SIZE * BLOCKS_PER_SECTOR;

/// Block number of the Capability Container.
pub const CC_BLOCK: u8 = 3;

/// First block of the data area.
pub const DATA_START_BLOCK: u8 = 4;

/// Byte address of the first byte of the data area.
pub const DATA_START: u32 = 16;

/// Data area size for static memory structure (blocks 4 to 15 = 48 bytes).
pub const STATIC_DATA_AREA_SIZE: usize = 48;

/// Static memory total size (16 blocks = 64 bytes).
pub const STATIC_MEMORY_SIZE: usize = 64;

/// Byte address of static lock bytes (block 2, bytes 2 and 3).
pub const STATIC_LOCK_BYTE_ADDR: u16 = 10;

/// Last sector that can be selected: sector number 0xFF is reserved.
pub const MAX_SECTOR: u8 = 0xFE;

/// First byte address past the last sector that can be selected.
pub const ADDRESS_SPACE_END: u32 = 261_120;

/// Number of lock areas, and of reserved areas, that a layout can hold.
pub const AREA_CAPACITY: usize = 8;

/// A lock area descriptor.
///
/// Describes a contiguous region of lock bytes that protect data bytes.
#[derive(Debug, Clone, Copy, PartialEq, Eq, Structural)]
pub struct LockArea {
    /// Byte address of the first lock byte.
    pub byte_address: u32,
    /// Number of lock bits in this area.
    pub size_in_bits: u16,
    /// Number of data bytes each lock bit protects.
    pub bytes_per_lock_bit: u16,
}

impl LockArea {
    /// Number of lock bytes: one for each eight lock bits, the last one possibly partly used.
    pub open spec fn lock_bytes(self) -> int {
        (self.size_in_bits + 7) / 8
    }

    /// Byte address past the last lock byte.
    pub open spec fn end(self) -> int {
        self.byte_address + self.lock_bytes()
    }

    /// Whether the number of lock bytes and the end address can be computed.
    pub open spec fn in_bounds(self) -> bool {
        self.size_in_bits + 7 <= u16::MAX && self.end() <= u32::MAX
    }

    /// Whether it can be computed if a byte address is in this area: the end is looked at only
    /// for an address that does not lie before the area.
    pub open spec fn tells(self, addr: int) -> bool {
        self.byte_address <= addr ==> self.in_bounds()
    }

    /// Whether a byte address is that of a lock byte of this area.
    pub open spec fn covers(self, addr: int) -> bool {
        self.byte_address <= addr < self.end()
    }

    /// The area that a Lock Control TLV value describes.
    pub open spec fn of_control(lc: LockControlValue) -> LockArea {
        LockArea {
            byte_address: lc.start() as u32,
            size_in_bits: lc.size_in_bits,
            bytes_per_lock_bit: pow2(lc.bytes_locked_per_bit as nat) as u16,
        }
    }

    /// Number of lock bytes (ceiling of bits / 8).
    pub fn lock_byte_count(&self) -> (r: u16)
        requires
            self.size_in_bits + 7 <= u16::MAX,
        ensures
            r == self.lock_bytes(),
    {
        (self.size_in_bits + 7) / 8
    }

    /// Byte address past the last lock byte.
    pub fn end_address(&self) -> (r: u32)
        requires
            self.in_bounds(),
        ensures
            r == self.end(),
    {
        self.byte_address + self.lock_byte_count() as u32
    }

    /// Create from a parsed Lock Control TLV value.
    pub fn from_lock_control(lc: &LockControlValue) -> (r: Self)
        requires
            lc.in_bounds(),
        ensures
            r == Self::of_control(*lc),
            r.byte_address == lc.start(),
            r.size_in_bits == lc.size_in_bits,
            r.bytes_per_lock_bit == pow2(lc.bytes_locked_per_bit as nat),
    {
        LockArea {
            byte_address: lc.byte_address(),
            size_in_bits: lc.size_in_bits,
            bytes_per_lock_bit: lc.bytes_per_lock_bit(),
        }
    }

    /// Check if a byte address falls within this lock area.
    pub fn contains(&self, addr: u32) -> (r: bool)
        requires
            self.tells(addr as int),
        ensures
            r == self.covers(addr as int),
    {
        addr >= self.byte_address && addr < self.end_address()
    }
}

impl LockArea {
    /// A byte address is in a lock area if a lock bit is there: the area has a byte for every
    /// eight bits, and one more for what is left of them.
    pub proof fn law_lock_bytes(self, addr: int)
        ensures
            self.covers(addr) <==> self.byte_address <= addr && 8 * (addr - self.byte_address)
                < self.size_in_bits,
            self.lock_bytes() * 8 >= self.size_in_bits > (self.lock_bytes() - 1) * 8,
            self.end() == self.byte_address + self.lock_bytes(),
            self.in_bounds() <==> self.size_in_bits <= 65528 && self.end() <= 0xFFFF_FFFF,
            self.tells(addr) <==> addr < self.byte_address || self.in_bounds(),
    {
    }

    /// The area of a Lock Control TLV value starts in the page that it names, and has its bits.
    pub proof fn law_of_control(lc: LockControlValue)
        requires
            lc.bytes_locked_per_bit < 16,
            lc.page_addr * pow2(lc.bytes_per_page as nat) + lc.byte_offset <= 0xFFFF_FFFF,
        ensures
            Self::of_control(lc).byte_address == lc.page_addr * pow2(lc.bytes_per_page as nat)
                + lc.byte_offset,
            Self::of_control(lc).size_in_bits == lc.size_in_bits,
            Self::of_control(lc).bytes_per_lock_bit == pow2(lc.bytes_locked_per_bit as nat),
    {
        lc.lemma_start_nonnegative();
        vstd::bits::lemma_u16_pow2_no_overflow(lc.bytes_locked_per_bit as nat);
    }
}

/// A reserved memory area descriptor.
#[derive(Debug, Clone, Copy, PartialEq, Eq, Structural)]
pub struct ReservedArea {
    /// Byte address of the first reserved byte.
    pub byte_address: u32,
    /// Number of reserved bytes.
    pub size: u16,
}

impl ReservedArea {
    /// Byte address past the last reserved byte.
    pub open spec fn end(self) -> int {
        self.byte_address + self.size
    }

    /// Whether the end address can be computed.
    pub open spec fn in_bounds(self) -> bool {
        self.end() <= u32::MAX
    }

    /// Whether it can be computed if a byte address is in this area: the end is looked at only
    /// for an address that does not lie before the area.
    pub open spec fn tells(self, addr: int) -> bool {
        self.byte_address <= addr ==> self.in_bounds()
    }

    /// Whether a byte address is that of a byte of this area.
    pub open spec fn covers(self, addr: int) -> bool {
        self.byte_address <= addr < self.end()
    }

    /// The area that a Memory Control TLV value describes.
    pub open spec fn of_control(mc: MemoryControlValue) -> ReservedArea {
        ReservedArea { byte_address: mc.start() as u32, size: mc.size_in_bytes }
    }

    /// Byte address past the last reserved byte.
    pub fn end_address(&self) -> (r: u32)
        requires
            self.in_bounds(),
        ensures
            r == self.end(),
    {
        self.byte_address + self.size as u32
    }

    /// Create from a parsed Memory Control TLV value.
    pub fn from_memory_control(mc: &MemoryControlValue) -> (r: Self)
        requires
            mc.in_bounds(),
        ensures
            r == Self::of_control(*mc),
            r.byte_address == mc.start(),
            r.size == mc.size_in_bytes,
    {
        ReservedArea { byte_address: mc.byte_address(), size: mc.size_in_bytes }
    }

    /// Check if a byte address falls within this reserved area.
    pub fn contains(&self, addr: u32) -> (r: bool)
        requires
            self.tells(addr as int),
        ensures
            r == self.covers(addr as int),
    {
        addr >= self.byte_address && addr < self.end_address()
    }
}

impl ReservedArea {
    /// A byte address is in a reserved area if it is one of as many as the area has bytes, from
    /// the first on.
    pub proof fn law_reserved_bytes(self, addr: int)
        ensures
            self.covers(addr) <==> 0 <= addr - self.byte_address < self.size,
            self.end() == self.byte_address + self.size,
            self.in_bounds() <==> self.end() <= 0xFFFF_FFFF,
            self.tells(addr) <==> addr < self.byte_address || self.in_bounds(),
    {
    }

    /// The area of a Memory Control TLV value starts in the page that it names, and has its bytes.
    pub proof fn law_of_control(mc: MemoryControlValue)
        requires
            mc.page_addr * pow2(mc.bytes_per_page as nat) + mc.byte_offset <= 0xFFFF_FFFF,
        ensures
            Self::of_control(mc).byte_address == mc.page_addr * pow2(mc.bytes_per_page as nat)
                + mc.byte_offset,
            Self::of_control(mc).size == mc.size_in_bytes,
    {
        mc.lemma_start_nonnegative();
    }
}

/// The lock areas of a layout.
pub type LockAreas = heapless::Vec<LockArea, AREA_CAPACITY>;

/// The reserved areas of a layout.
pub type ReservedAreas = heapless::Vec<ReservedArea, AREA_CAPACITY>;

/// The areas that a [`LockAreas`] holds, in order.
pub uninterp spec fn lock_area_items(v: LockAreas) -> Seq<LockArea>;

/// The areas that a [`ReservedAreas`] holds, in order.
pub uninterp spec fn reserved_area_items(v: ReservedAreas) -> Seq<ReservedArea>;

/// `heapless::Vec::new`: the new vector is empty.
#[verifier::external_body]
fn lock_areas_new() -> (v: LockAreas)
    ensures
        lock_area_items(v) == Seq::<LockArea>::empty(),
{
    heapless::Vec::new()
}

/// `heapless::Vec::as_slice`: the whole vector as a slice, which is never longer than the
/// capacity.
#[verifier::external_body]
fn lock_areas_slice(v: &LockAreas) -> (s: &[LockArea])
    ensures
        s@ == lock_area_items(*v),
        s@.len() <= AREA_CAPACITY,
{
    v.as_slice()
}

/// `heapless::Vec::push`: appends the area while there is room, and hands it back otherwise.
#[verifier::external_body]
fn lock_areas_push(v: &mut LockAreas, area: LockArea) -> (r: Result<(), LockArea>)
    ensures
        match r {
            Ok(()) => lock_area_items(*old(v)).len() < AREA_CAPACITY && lock_area_items(*final(v))
                == lock_area_items(*old(v)).push(area),
            Err(back) => back == area && lock_area_items(*old(v)).len() == AREA_CAPACITY
                && lock_area_items(*final(v)) == lock_area_items(*old(v)),
        },
{
    v.push(area)
}

/// `heapless::Vec`'s `Clone`: the clone holds the same areas.
#[verifier::external_body]
fn lock_areas_clone(v: &LockAreas) -> (r: LockAreas)
    ensures
        lock_area_items(r) == lock_area_items(*v),
{
    v.clone()
}

/// `heapless::Vec::new`: the new vector is empty.
#[verifier::external_body]
fn reserved_areas_new() -> (v: ReservedAreas)
    ensures
        reserved_area_items(v) == Seq::<ReservedArea>::empty(),
{
    heapless::Vec::new()
}

/// `heapless::Vec::as_slice`: the whole vector as a slice, which is never longer than the
/// capacity.
#[verifier::external_body]
fn reserved_areas_slice(v: &ReservedAreas) -> (s: &[ReservedArea])
    ensures
        s@ == reserved_area_items(*v),
        s@.len() <= AREA_CAPACITY,
{
    v.as_slice()
}

/// `heapless::Vec::push`: appends the area while there is room, and hands it back otherwise.
#[verifier::external_body]
fn reserved_areas_push(v: &mut ReservedAreas, area: ReservedArea) -> (r: Result<
    (),
    ReservedArea,
>)
    ensures
        match r {
            Ok(()) => reserved_area_items(*old(v)).len() < AREA_CAPACITY && reserved_area_items(
                *final(v),
            ) == reserved_area_items(*old(v)).push(area),
            Err(back) => back == area && reserved_area_items(*old(v)).len() == AREA_CAPACITY
                && reserved_area_items(*final(v)) == reserved_area_items(*old(v)),
        },
{
    v.push(area)
}

/// `heapless::Vec`'s `Clone`: the clone holds the same areas.
#[verifier::external_body]
fn reserved_areas_clone(v: &ReservedAreas) -> (r: ReservedAreas)
    ensures
        reserved_area_items(r) == reserved_area_items(*v),
{
    v.clone()
}

/// Describes the complete memory layout of a Type 2 Tag.
///
/// Built from the Capability Container and TLV blocks found in the data area.
#[derive(Debug)]
pub struct MemoryLayout {
    /// Total data area size in bytes (from CC2 * 8).
    pub data_area_size: u16,
    /// Lock areas (from Lock Control TLVs, or the default one).
    pub lock_areas: LockAreas,
    /// Reserved areas (from Memory Control TLVs).
    pub reserved_areas: ReservedAreas,
}

impl Clone for MemoryLayout {
    fn clone(&self) -> (r: Self)
        ensures
            r@ == self@,
    {
        MemoryLayout {
            data_area_size: self.data_area_size,
            lock_areas: lock_areas_clone(&self.lock_areas),
            reserved_areas: reserved_areas_clone(&self.reserved_areas),
        }
    }
}

impl MemoryLayout {
    /// A layout stands for its size and all of its areas.
    pub proof fn law_view(&self)
        ensures
            self@.size == self.data_area_size,
            self@.locks == lock_area_items(self.lock_areas),
            self@.reserved == reserved_area_items(self.reserved_areas),
    {
    }
}

/// What a [`MemoryLayout`] stands for.
pub struct LayoutView {
    /// Number of bytes of the data area, lock and reserved bytes not counted.
    pub size: nat,
    /// The lock areas.
    pub locks: Seq<LockArea>,
    /// The reserved areas.
    pub reserved: Seq<ReservedArea>,
}

impl View for MemoryLayout {
    type V = LayoutView;

    open spec fn view(&self) -> LayoutView {
        LayoutView {
            size: self.data_area_size as nat,
            locks: lock_area_items(self.lock_areas),
            reserved: reserved_area_items(self.reserved_areas),
        }
    }
}

impl LayoutView {
    /// Whether the end address of every area can be computed.
    pub open spec fn in_bounds(self) -> bool {
        &&& forall|i: int| 0 <= i < self.locks.len() ==> (#[trigger] self.locks[i]).in_bounds()
        &&& forall|i: int|
            0 <= i < self.reserved.len() ==> (#[trigger] self.reserved[i]).in_bounds()
    }

    /// Whether it can be computed if a byte address lies in a lock or reserved area. The areas are
    /// looked at one after the other, up to the first that the address lies in.
    pub open spec fn tells(self, addr: int) -> bool {
        &&& forall|i: int|
            0 <= i < self.locks.len() && (forall|j: int|
                0 <= j < i ==> !(#[trigger] self.locks[j]).covers(addr)) ==> (
            #[trigger] self.locks[i]).tells(addr)
        &&& (forall|j: int|
            0 <= j < self.locks.len() ==> !(#[trigger] self.locks[j]).covers(addr)) ==> forall|
            i: int|
            0 <= i < self.reserved.len() && (forall|j: int|
                0 <= j < i ==> !(#[trigger] self.reserved[j]).covers(addr)) ==> (
            #[trigger] self.reserved[i]).tells(addr)
    }

    /// Whether a byte address lies in a lock or reserved area.
    pub open spec fn skips(self, addr: int) -> bool {
        ||| exists|i: int| 0 <= i < self.locks.len() && (#[trigger] self.locks[i]).covers(addr)
        ||| exists|i: int|
            0 <= i < self.reserved.len() && (#[trigger] self.reserved[i]).covers(addr)
    }

    /// The addresses from the start of the data area up to `to` that carry data, in order: those
    /// that lie in no lock or reserved area.
    pub open spec fn usable(self, to: int) -> Seq<int>
        decreases to,
    {
        if to <= DATA_START {
            seq![]
        } else if self.skips(to - 1) {
            self.usable(to - 1)
        } else {
            self.usable(to - 1).push(to - 1)
        }
    }

    /// The lock areas that Lock Control TLVs describe, as many as a layout can hold.
    pub open spec fn locks_of(tlvs: Seq<TlvView>) -> Seq<LockArea>
        decreases tlvs.len(),
    {
        if tlvs.len() == 0 {
            seq![]
        } else {
            let before = Self::locks_of(tlvs.drop_last());
            match tlvs.last() {
                TlvView::LockControl(lc) => if before.len() < AREA_CAPACITY {
                    before.push(LockArea::of_control(lc))
                } else {
                    before
                },
                _ => before,
            }
        }
    }

    /// The reserved areas that Memory Control TLVs describe, as many as a layout can hold.
    pub open spec fn reserved_of(tlvs: Seq<TlvView>) -> Seq<ReservedArea>
        decreases tlvs.len(),
    {
        if tlvs.len() == 0 {
            seq![]
        } else {
            let before = Self::reserved_of(tlvs.drop_last());
            match tlvs.last() {
                TlvView::MemoryControl(mc) => if before.len() < AREA_CAPACITY {
                    before.push(ReservedArea::of_control(mc))
                } else {
                    before
                },
                _ => before,
            }
        }
    }

    /// The lock area of a dynamic tag without a Lock Control TLV: right after a data area of
    /// `size` bytes, with a lock bit for every eight bytes beyond the static ones.
    pub open spec fn default_lock(size: nat) -> LockArea {
        LockArea {
            byte_address: (DATA_START + size) as u32,
            size_in_bits: if size <= STATIC_DATA_AREA_SIZE {
                0
            } else {
                ((size - STATIC_DATA_AREA_SIZE + 7) / 8) as u16
            },
            bytes_per_lock_bit: 8,
        }
    }

    /// The layout of a tag with this Capability Container and these TLV blocks.
    pub open spec fn of(cc: CapabilityContainer, tlvs: Seq<TlvView>) -> LayoutView {
        let locks = Self::locks_of(tlvs);
        LayoutView {
            size: cc.area_size(),
            locks: if cc.dynamic() && locks.len() == 0 {
                seq![Self::default_lock(cc.area_size())]
            } else {
                locks
            },
            reserved: Self::reserved_of(tlvs),
        }
    }

    /// The number of bytes of all lock areas.
    pub open spec fn lock_total(locks: Seq<LockArea>) -> int
        decreases locks.len(),
    {
        if locks.len() == 0 {
            0
        } else {
            Self::lock_total(locks.drop_last()) + locks.last().lock_bytes()
        }
    }

    /// The number of bytes of all reserved areas.
    pub open spec fn reserved_total(reserved: Seq<ReservedArea>) -> int
        decreases reserved.len(),
    {
        if reserved.len() == 0 {
            0
        } else {
            Self::reserved_total(reserved.drop_last()) + reserved.last().size
        }
    }

    /// The number of bytes of the tag: the blocks before the data area, the data area, and the
    /// lock and reserved bytes.
    pub open spec fn total_bytes(self) -> int {
        self.size + DATA_START + Self::lock_total(self.locks) + Self::reserved_total(self.reserved)
    }

    /// The end addresses of a layout's areas can be computed, and no area reaches outside the
    /// address space, if its TLV blocks describe only areas inside it.
    pub proof fn law_layout_in_bounds(cc: CapabilityContainer, tlvs: Seq<TlvView>)
        requires
            forall|i: int| 0 <= i < tlvs.len() ==> (#[trigger] tlvs[i]).area_in_space(),
        ensures
            Self::of(cc, tlvs).in_bounds(),
            forall|addr: int|
                Self::of(cc, tlvs).skips(addr) ==> 0 <= addr < ADDRESS_SPACE_END,
    {
        Self::lemma_areas_in_space(tlvs);
    }

    /// A dynamic tag without a Lock Control TLV has one lock area. It starts right behind the data
    /// area, and its lock bits stand for the bytes of the data area beyond the first 48, eight
    /// each, with none left over. So a byte behind the data area is one of the lock bytes if there
    /// are data bytes for it to lock.
    pub proof fn law_default_lock_area(cc: CapabilityContainer, tlvs: Seq<TlvView>)
        requires
            cc.size_field > 6,
            forall|i: int| 0 <= i < tlvs.len() ==> !((#[trigger] tlvs[i]) is LockControl),
        ensures
            Self::of(cc, tlvs).locks.len() == 1,
            ({
                let area = Self::of(cc, tlvs).locks[0];
                &&& area.byte_address == 16 + cc.size_field * 8
                &&& area.bytes_per_lock_bit == 8
                &&& area.size_in_bits * area.bytes_per_lock_bit == cc.size_field * 8 - 48
                &&& forall|n: int|
                    0 <= n ==> (#[trigger] area.covers(16 + cc.size_field * 8 + n) <==> 48 + 64 * n
                        < cc.size_field * 8)
            }),
    {
        Self::lemma_no_locks(tlvs);
    }

    proof fn lemma_no_locks(tlvs: Seq<TlvView>)
        requires
            forall|i: int| 0 <= i < tlvs.len() ==> !((#[trigger] tlvs[i]) is LockControl),
        ensures
            Self::locks_of(tlvs) == Seq::<LockArea>::empty(),
        decreases tlvs.len(),
    {
        if tlvs.len() > 0 {
            let before = tlvs.drop_last();
            assert forall|i: int| 0 <= i < before.len() implies !((
            #[trigger] before[i]) is LockControl) by {
                assert(before[i] == tlvs[i]);
            }
            Self::lemma_no_locks(before);
            assert(!(tlvs[tlvs.len() - 1] is LockControl));
        }
    }

    /// The addresses of a layout can be told if no area ends past the largest 32-bit number, and
    /// no lock area has more bits than can be rounded up to bytes.
    pub proof fn law_in_bounds(self)
        ensures
            self.in_bounds() <==> {
                &&& forall|i: int|
                    0 <= i < self.locks.len() ==> (#[trigger] self.locks[i]).size_in_bits <= 65528
                        && self.locks[i].byte_address + (self.locks[i].size_in_bits + 7) / 8
                        <= 0xFFFF_FFFF
                &&& forall|i: int|
                    0 <= i < self.reserved.len() ==> (#[trigger] self.reserved[i]).byte_address
                        + self.reserved[i].size <= 0xFFFF_FFFF
            },
            self.in_bounds() ==> forall|addr: int| #[trigger] self.tells(addr),
    {
        if self.in_bounds() {
            assert forall|i: int| 0 <= i < self.locks.len() implies (
            #[trigger] self.locks[i]).size_in_bits <= 65528 && self.locks[i].byte_address + (
            self.locks[i].size_in_bits + 7) / 8 <= 0xFFFF_FFFF by {
                assert(self.locks[i].in_bounds());
            }
            assert forall|i: int| 0 <= i < self.reserved.len() implies (
            #[trigger] self.reserved[i]).byte_address + self.reserved[i].size <= 0xFFFF_FFFF by {
                assert(self.reserved[i].in_bounds());
            }
        }
    }

    /// Whether an address is left out can be told if it can be told for every area, and also if it
    /// lies in the first lock area, whatever the others are.
    pub proof fn law_tells(self, addr: int)
        ensures
            (forall|i: int|
                0 <= i < self.locks.len() ==> addr < (#[trigger] self.locks[i]).byte_address
                    || self.locks[i].in_bounds()) && (forall|i: int|
                0 <= i < self.reserved.len() ==> addr < (#[trigger] self.reserved[i]).byte_address
                    || self.reserved[i].in_bounds()) ==> self.tells(addr),
            self.locks.len() > 0 && self.locks[0].in_bounds() && self.locks[0].covers(addr)
                ==> self.tells(addr),
    {
    }

    /// Each control block adds the area that it describes, in the order of the blocks, while there
    /// are less than eight of the kind. The first Lock Control TLV takes the place of the default
    /// lock area. Blocks of other kinds add nothing. The size is always that of the container.
    pub proof fn law_areas_in_order(cc: CapabilityContainer, tlvs: Seq<TlvView>, block: TlvView)
        ensures
            ({
                let (before, after) = (Self::of(cc, tlvs), Self::of(cc, tlvs.push(block)));
                let bare = forall|i: int|
                    0 <= i < tlvs.len() ==> !((#[trigger] tlvs[i]) is LockControl);
                &&& after.size == cc.size_field * 8
                &&& block is LockControl ==> {
                    let area = LockArea::of_control(block->LockControl_0);
                    &&& after.reserved == before.reserved
                    &&& bare ==> after.locks == seq![area]
                    &&& !bare && before.locks.len() < 8 ==> after.locks == before.locks.push(area)
                    &&& !bare && before.locks.len() >= 8 ==> after.locks == before.locks
                }
                &&& block is MemoryControl ==> {
                    let area = ReservedArea::of_control(block->MemoryControl_0);
                    &&& after.locks == before.locks
                    &&& before.reserved.len() < 8 ==> after.reserved == before.reserved.push(area)
                    &&& before.reserved.len() >= 8 ==> after.reserved == before.reserved
                }
                &&& !(block is LockControl) && !(block is MemoryControl) ==> after == before
            }),
            Self::of(cc, seq![]).size == cc.size_field * 8,
            Self::of(cc, seq![]).reserved.len() == 0,
            cc.size_field <= 6 ==> Self::of(cc, seq![]).locks.len() == 0,
    {
        let all = tlvs.push(block);
        assert(all.drop_last() =~= tlvs);
        if forall|i: int| 0 <= i < tlvs.len() ==> !((#[trigger] tlvs[i]) is LockControl) {
            Self::lemma_no_locks(tlvs);
        } else {
            let i = choose|i: int| 0 <= i < tlvs.len() && (#[trigger] tlvs[i]) is LockControl;
            Self::lemma_some_lock(tlvs, i);
        }
    }

    proof fn lemma_some_lock(tlvs: Seq<TlvView>, i: int)
        requires
            0 <= i < tlvs.len(),
            tlvs[i] is LockControl,
        ensures
            Self::locks_of(tlvs).len() > 0,
        decreases tlvs.len(),
    {
        if i < tlvs.len() - 1 {
            assert(tlvs.drop_last()[i] == tlvs[i]);
            Self::lemma_some_lock(tlvs.drop_last(), i);
        }
    }

    /// Whether a byte address is that of a byte that a block describes.
    pub open spec fn described(block: TlvView, addr: int) -> bool {
        match block {
            TlvView::LockControl(v) => {
                let first = v.page_addr * pow2(v.bytes_per_page as nat) + v.byte_offset;
                first <= addr && 8 * (addr - first) < v.size_in_bits
            },
            TlvView::MemoryControl(v) => {
                let first = v.page_addr * pow2(v.bytes_per_page as nat) + v.byte_offset;
                0 <= addr - first < v.size_in_bytes
            },
            _ => false,
        }
    }

    /// The bytes that are left out are those that some block describes: the lock bytes of Lock
    /// Control TLVs and the reserved bytes of Memory Control TLVs. On a dynamic tag without a Lock
    /// Control TLV those right behind the data area are left out too, one for every 64 bytes
    /// beyond the first 48.
    pub proof fn law_skipped_addresses(cc: CapabilityContainer, tlvs: Seq<TlvView>, addr: int)
        requires
            tlvs.len() <= 8,
            forall|i: int| 0 <= i < tlvs.len() ==> (#[trigger] tlvs[i]).area_in_space(),
        ensures
            Self::of(cc, tlvs).skips(addr) <==> {
                ||| exists|i: int|
                    0 <= i < tlvs.len() && Self::described(#[trigger] tlvs[i], addr)
                ||| cc.size_field > 6 && (forall|i: int|
                    0 <= i < tlvs.len() ==> !((#[trigger] tlvs[i]) is LockControl)) && addr >= 16
                    + cc.size_field * 8 && 48 + 64 * (addr - 16 - cc.size_field * 8)
                    < cc.size_field * 8
            },
    {
        let layout = Self::of(cc, tlvs);
        let own = Self::locks_of(tlvs);
        let reserved = Self::reserved_of(tlvs);
        let in_lock = exists|i: int|
            0 <= i < layout.locks.len() && (#[trigger] layout.locks[i]).covers(addr);
        let in_own = exists|i: int| 0 <= i < own.len() && (#[trigger] own[i]).covers(addr);
        let in_reserved = exists|i: int|
            0 <= i < reserved.len() && (#[trigger] reserved[i]).covers(addr);
        let is_described = exists|i: int|
            0 <= i < tlvs.len() && Self::described(#[trigger] tlvs[i], addr);
        Self::lemma_described(tlvs, addr);
        assert(in_own || in_reserved <==> is_described);
        assert(layout.reserved == reserved);
        assert(layout.skips(addr) <==> in_lock || in_reserved);
        if forall|i: int| 0 <= i < tlvs.len() ==> !((#[trigger] tlvs[i]) is LockControl) {
            Self::lemma_no_locks(tlvs);
            if cc.size_field > 6 {
                Self::law_default_lock_area(cc, tlvs);
                let n = addr - 16 - cc.size_field * 8;
                if n >= 0 {
                    assert(layout.locks[0].covers(16 + cc.size_field * 8 + n) <==> 48 + 64 * n
                        < cc.size_field * 8);
                }
                assert(layout.locks[0].covers(addr) <==> in_lock);
                layout.locks[0].law_lock_bytes(addr);
            }
            assert(!in_own);
        } else {
            let i = choose|i: int| 0 <= i < tlvs.len() && (#[trigger] tlvs[i]) is LockControl;
            Self::lemma_some_lock(tlvs, i);
            assert(layout.locks == own);
        }
    }

    proof fn lemma_described(tlvs: Seq<TlvView>, addr: int)
        requires
            tlvs.len() <= 8,
            forall|i: int| 0 <= i < tlvs.len() ==> (#[trigger] tlvs[i]).area_in_space(),
        ensures
            Self::locks_of(tlvs).len() <= tlvs.len(),
            Self::reserved_of(tlvs).len() <= tlvs.len(),
            (exists|i: int|
                0 <= i < Self::locks_of(tlvs).len() && (#[trigger] Self::locks_of(tlvs)[i]).covers(
                    addr,
                )) || (exists|i: int|
                0 <= i < Self::reserved_of(tlvs).len() && (#[trigger] Self::reserved_of(
                    tlvs,
                )[i]).covers(addr)) <==> exists|i: int|
                0 <= i < tlvs.len() && Self::described(#[trigger] tlvs[i], addr),
        decreases tlvs.len(),
    {
        if tlvs.len() > 0 {
            let before = tlvs.drop_last();
            let last = tlvs.last();
            let n = tlvs.len() - 1;
            let (locks, reserved) = (Self::locks_of(tlvs), Self::reserved_of(tlvs));
            let (locks0, reserved0) = (Self::locks_of(before), Self::reserved_of(before));
            assert forall|i: int| 0 <= i < before.len() implies (
            #[trigger] before[i]).area_in_space() by {
                assert(before[i] == tlvs[i]);
            }
            Self::lemma_described(before, addr);
            assert(tlvs[n].area_in_space());
            match last {
                TlvView::LockControl(v) => {
                    v.lemma_start_nonnegative();
                    LockArea::of_control(v).law_lock_bytes(addr);
                    assert(locks == locks0.push(LockArea::of_control(v)));
                },
                TlvView::MemoryControl(v) => {
                    v.lemma_start_nonnegative();
                    ReservedArea::of_control(v).law_reserved_bytes(addr);
                    assert(reserved == reserved0.push(ReservedArea::of_control(v)));
                },
                _ => {},
            }
            // What covers the address before does so still, and what describes it too.
            if exists|i: int| 0 <= i < locks0.len() && (#[trigger] locks0[i]).covers(addr) {
                let i = choose|i: int| 0 <= i < locks0.len() && (#[trigger] locks0[i]).covers(addr);
                assert(locks[i].covers(addr));
            }
            if exists|i: int| 0 <= i < reserved0.len() && (#[trigger] reserved0[i]).covers(addr) {
                let i = choose|i: int|
                    0 <= i < reserved0.len() && (#[trigger] reserved0[i]).covers(addr);
                assert(reserved[i].covers(addr));
            }
            if exists|i: int| 0 <= i < before.len() && Self::described(#[trigger] before[i], addr) {
                let i = choose|i: int|
                    0 <= i < before.len() && Self::described(#[trigger] before[i], addr);
                assert(Self::described(tlvs[i], addr));
            }
            if Self::described(last, addr) {
                assert(Self::described(tlvs[n], addr));
                if last is LockControl {
                    assert(locks[locks0.len() as int].covers(addr));
                } else {
                    assert(reserved[reserved0.len() as int].covers(addr));
                }
            }
            if exists|i: int| 0 <= i < locks.len() && (#[trigger] locks[i]).covers(addr) {
                let i = choose|i: int| 0 <= i < locks.len() && (#[trigger] locks[i]).covers(addr);
                if i < locks0.len() {
                    assert(locks0[i].covers(addr));
                } else {
                    assert(Self::described(tlvs[n], addr));
                }
            }
            if exists|i: int| 0 <= i < reserved.len() && (#[trigger] reserved[i]).covers(addr) {
                let i = choose|i: int|
                    0 <= i < reserved.len() && (#[trigger] reserved[i]).covers(addr);
                if i < reserved0.len() {
                    assert(reserved0[i].covers(addr));
                } else {
                    assert(Self::described(tlvs[n], addr));
                }
            }
            if exists|i: int| 0 <= i < tlvs.len() && Self::described(#[trigger] tlvs[i], addr) {
                let i = choose|i: int|
                    0 <= i < tlvs.len() && Self::described(#[trigger] tlvs[i], addr);
                if i < n {
                    assert(Self::described(before[i], addr));
                }
            }
        }
    }

    /// An address is left out if it lies in one of the areas: one more area leaves out its own
    /// bytes and no others, and without an area none is left out.
    pub proof fn law_skips(self, lock: LockArea, reserved: ReservedArea, addr: int)
        ensures
            self.locks.len() == 0 && self.reserved.len() == 0 ==> !self.skips(addr),
            (LayoutView { locks: self.locks.push(lock), ..self }).skips(addr) <==> self.skips(addr)
                || lock.covers(addr),
            (LayoutView { reserved: self.reserved.push(reserved), ..self }).skips(addr)
                <==> self.skips(addr) || reserved.covers(addr),
    {
        let with_lock = LayoutView { locks: self.locks.push(lock), ..self };
        let with_reserved = LayoutView { reserved: self.reserved.push(reserved), ..self };
        let (n, m) = (self.locks.len() as int, self.reserved.len() as int);
        assert(with_lock.locks[n] == lock && with_reserved.reserved[m] == reserved);
        assert forall|i: int| 0 <= i < n implies #[trigger] self.locks[i]
            == with_lock.locks[i] by {}
        assert forall|i: int| 0 <= i < m implies #[trigger] self.reserved[i]
            == with_reserved.reserved[i] by {}
        if self.skips(addr) {
            if exists|i: int| 0 <= i < n && (#[trigger] self.locks[i]).covers(addr) {
                let i = choose|i: int| 0 <= i < n && (#[trigger] self.locks[i]).covers(addr);
                assert(with_lock.locks[i].covers(addr) && with_reserved.locks[i].covers(addr));
            } else {
                let i = choose|i: int| 0 <= i < m && (#[trigger] self.reserved[i]).covers(addr);
                assert(with_lock.reserved[i].covers(addr));
                assert(with_reserved.reserved[i].covers(addr));
            }
        }
    }

    /// The usable addresses up to `to` are all addresses from 16 on that are not left out, each
    /// once and in increasing order.
    pub proof fn law_usable_addresses(self, to: int, addr: int)
        ensures
            self.usable(to).contains(addr) <==> 16 <= addr < to && !self.skips(addr),
            forall|i: int, j: int|
                0 <= i < j < self.usable(to).len() ==> #[trigger] self.usable(to)[i]
                    < #[trigger] self.usable(to)[j],
    {
        let all = self.usable(to);
        if 16 <= addr < to && !self.skips(addr) {
            self.lemma_usable_at(addr, to);
            assert(all[self.usable(addr).len() as int] == addr);
        }
        if all.contains(addr) {
            let k = choose|k: int| 0 <= k < all.len() && all[k] == addr;
            self.lemma_usable_index(k, to);
        }
        assert forall|i: int, j: int| 0 <= i < j < all.len() implies #[trigger] all[i]
            < #[trigger] all[j] by {
            self.lemma_usable_increasing(i, j, to);
        }
    }

    /// The bytes of a tag are the 16 before the data area, those of the data area, and those of
    /// every area: one more area adds its bytes.
    pub proof fn law_total_bytes(self, lock: LockArea, reserved: ReservedArea)
        ensures
            self.locks.len() == 0 && self.reserved.len() == 0 ==> self.total_bytes() == 16
                + self.size,
            (LayoutView { locks: self.locks.push(lock), ..self }).total_bytes()
                == self.total_bytes() + lock.lock_bytes(),
            (LayoutView { reserved: self.reserved.push(reserved), ..self }).total_bytes()
                == self.total_bytes() + reserved.size,
    {
        assert(self.locks.push(lock).drop_last() =~= self.locks);
        assert(self.reserved.push(reserved).drop_last() =~= self.reserved);
    }

    proof fn lemma_areas_in_space(tlvs: Seq<TlvView>)
        requires
            forall|i: int| 0 <= i < tlvs.len() ==> (#[trigger] tlvs[i]).area_in_space(),
        ensures
            forall|i: int|
                0 <= i < Self::locks_of(tlvs).len() ==> {
                    let a = #[trigger] Self::locks_of(tlvs)[i];
                    a.in_bounds() && a.end() <= ADDRESS_SPACE_END
                },
            forall|i: int|
                0 <= i < Self::reserved_of(tlvs).len() ==> {
                    let a = #[trigger] Self::reserved_of(tlvs)[i];
                    a.in_bounds() && a.end() <= ADDRESS_SPACE_END
                },
        decreases tlvs.len(),
    {
        if tlvs.len() > 0 {
            let before = tlvs.drop_last();
            assert forall|i: int| 0 <= i < before.len() implies (
            #[trigger] before[i]).area_in_space() by {
                assert(before[i] == tlvs[i]);
            }
            Self::lemma_areas_in_space(before);
            assert(tlvs.last() == tlvs[tlvs.len() - 1]);
            match tlvs.last() {
                TlvView::LockControl(lc) => {
                    lc.lemma_start_nonnegative();
                },
                TlvView::MemoryControl(mc) => {
                    mc.lemma_start_nonnegative();
                },
                _ => {},
            }
            assert forall|i: int| 0 <= i < Self::locks_of(tlvs).len() implies {
                let a = #[trigger] Self::locks_of(tlvs)[i];
                a.in_bounds() && a.end() <= ADDRESS_SPACE_END
            } by {
                if i < Self::locks_of(before).len() {
                    assert(Self::locks_of(tlvs)[i] == Self::locks_of(before)[i]);
                }
            }
            assert forall|i: int| 0 <= i < Self::reserved_of(tlvs).len() implies {
                let a = #[trigger] Self::reserved_of(tlvs)[i];
                a.in_bounds() && a.end() <= ADDRESS_SPACE_END
            } by {
                if i < Self::reserved_of(before).len() {
                    assert(Self::reserved_of(tlvs)[i] == Self::reserved_of(before)[i]);
                }
            }
        }
    }

    /// The usable addresses up to `to` come first among those up to a later address.
    pub proof fn lemma_usable_prefix(self, to: int, later: int)
        requires
            to <= later,
        ensures
            self.usable(to).len() <= self.usable(later).len(),
            self.usable(to) =~= self.usable(later).take(self.usable(to).len() as int),
        decreases later - to,
    {
        if to < later {
            self.lemma_usable_prefix(to, later - 1);
        }
    }

    /// A usable address is found at the position that counts the usable addresses before it.
    pub proof fn lemma_usable_at(self, addr: int, to: int)
        requires
            DATA_START <= addr < to,
            !self.skips(addr),
        ensures
            self.usable(addr).len() < self.usable(to).len(),
            self.usable(to)[self.usable(addr).len() as int] == addr,
    {
        self.lemma_usable_prefix(addr + 1, to);
        let k = self.usable(addr).len() as int;
        assert(self.usable(addr + 1)[k] == addr);
        assert(self.usable(to).take(k + 1)[k] == self.usable(to)[k]);
    }

    /// What stands at a position of the usable addresses is a usable address, and the position
    /// counts the usable addresses before it.
    pub proof fn lemma_usable_index(self, k: int, to: int)
        requires
            0 <= k < self.usable(to).len(),
        ensures
            DATA_START <= self.usable(to)[k] < to,
            !self.skips(self.usable(to)[k]),
            self.usable(self.usable(to)[k]).len() == k,
        decreases to,
    {
        if k < self.usable(to - 1).len() {
            self.lemma_usable_index(k, to - 1);
            assert(self.usable(to)[k] == self.usable(to - 1)[k]);
        }
    }

    /// Usable addresses grow with their position.
    pub proof fn lemma_usable_increasing(self, i: int, j: int, to: int)
        requires
            0 <= i < j < self.usable(to).len(),
        ensures
            self.usable(to)[i] < self.usable(to)[j],
        decreases to,
    {
        if j < self.usable(to - 1).len() {
            self.lemma_usable_increasing(i, j, to - 1);
        } else {
            self.lemma_usable_index(i, to - 1);
        }
    }
}

impl MemoryLayout {
    /// Build a memory layout from the CC and parsed TLV blocks.
    ///
    /// A layout holds at most [`AREA_CAPACITY`] lock areas and as many reserved areas; further
    /// ones are left out.
    pub fn from_cc_and_tlvs(cc: &CapabilityContainer, tlvs: &[Tlv]) -> (r: Self)
        requires
            forall|i: int|
                0 <= i < tlvs@.len() ==> match #[trigger] tlvs@[i] {
                    Tlv::LockControl(lc) => lc.in_bounds(),
                    Tlv::MemoryControl(mc) => mc.in_bounds(),
                    _ => true,
                },
        ensures
            r@ == LayoutView::of(*cc, super::tlv::views(tlvs@)),
    {
        let data_area_size = cc.data_area_size();
        let mut lock_areas = lock_areas_new();
        let mut reserved_areas = reserved_areas_new();
        let ghost all = super::tlv::views(tlvs@);
        let mut i: usize = 0;
        while i < tlvs.len()
            invariant
                0 <= i <= tlvs@.len(),
                all == super::tlv::views(tlvs@),
                forall|i: int|
                    0 <= i < tlvs@.len() ==> match #[trigger] tlvs@[i] {
                        Tlv::LockControl(lc) => lc.in_bounds(),
                        Tlv::MemoryControl(mc) => mc.in_bounds(),
                        _ => true,
                    },
                lock_area_items(lock_areas) == LayoutView::locks_of(all.take(i as int)),
                reserved_area_items(reserved_areas) == LayoutView::reserved_of(all.take(i as int)),
            decreases tlvs@.len() - i,
        {
            assert(all.take(i + 1).drop_last() =~= all.take(i as int));
            assert(all.take(i + 1).last() == tlvs@[i as int]@);
            match &tlvs[i] {
                Tlv::LockControl(lc) => {
                    let area = LockArea::from_lock_control(lc);
                    let _ = lock_areas_push(&mut lock_areas, area);
                },
                Tlv::MemoryControl(mc) => {
                    let area = ReservedArea::from_memory_control(mc);
                    let _ = reserved_areas_push(&mut reserved_areas, area);
                },
                _ => {},
            }
            i += 1;
        }
        assert(all.take(i as int) =~= all);

        // If dynamic memory and no Lock Control TLVs, apply default lock area.
        if cc.is_dynamic() && lock_areas_slice(&lock_areas).len() == 0 {
            let default_lock = default_dynamic_lock_area(data_area_size);
            let _ = lock_areas_push(&mut lock_areas, default_lock);
            assert(lock_area_items(lock_areas) =~= seq![default_lock]);
        }
        MemoryLayout { data_area_size, lock_areas, reserved_areas }
    }

    /// Check if a byte address is in a lock or reserved area (should be skipped during data
    /// reads).
    pub fn is_skip_area(&self, byte_addr: u32) -> (r: bool)
        requires
            self@.tells(byte_addr as int),
        ensures
            r == self@.skips(byte_addr as int),
    {
        let locks = lock_areas_slice(&self.lock_areas);
        let mut i: usize = 0;
        while i < locks.len()
            invariant
                0 <= i <= locks@.len(),
                locks@ == self@.locks,
                self@.tells(byte_addr as int),
                forall|j: int| 0 <= j < i ==> !(#[trigger] locks@[j]).covers(byte_addr as int),
            decreases locks@.len() - i,
        {
            assert(self@.locks[i as int].tells(byte_addr as int));
            if locks[i].contains(byte_addr) {
                assert(self@.locks[i as int].covers(byte_addr as int));
                return true;
            }
            i += 1;
        }
        let reserved = reserved_areas_slice(&self.reserved_areas);
        let mut k: usize = 0;
        while k < reserved.len()
            invariant
                0 <= k <= reserved@.len(),
                reserved@ == self@.reserved,
                self@.tells(byte_addr as int),
                forall|j: int|
                    0 <= j < self@.locks.len() ==> !(#[trigger] self@.locks[j]).covers(
                        byte_addr as int,
                    ),
                forall|j: int| 0 <= j < k ==> !(#[trigger] reserved@[j]).covers(byte_addr as int),
            decreases reserved@.len() - k,
        {
            assert(self@.reserved[k as int].tells(byte_addr as int));
            if reserved[k].contains(byte_addr) {
                assert(self@.reserved[k as int].covers(byte_addr as int));
                return true;
            }
            k += 1;
        }
        false
    }

    /// Total number of sectors needed for this tag, at most 255.
    pub fn sector_count(&self) -> (r: u8)
        requires
            forall|i: int|
                0 <= i < self@.locks.len() ==> (#[trigger] self@.locks[i]).size_in_bits + 7
                    <= u16::MAX,
        ensures
            self@.total_bytes() <= r * 1024 || r == 255,
            (r - 1) * 1024 < self@.total_bytes(),
            ({
                let sectors = (self@.total_bytes() + SECTOR_SIZE - 1) / (SECTOR_SIZE as int);
                r == if sectors < 255 {
                    sectors
                } else {
                    255
                }
            }),
    {
        let mut total_bytes: u32 = self.data_area_size as u32 + DATA_START;
        let locks = lock_areas_slice(&self.lock_areas);
        let mut i: usize = 0;
        while i < locks.len()
            invariant
                0 <= i <= locks@.len() <= AREA_CAPACITY,
                locks@ == self@.locks,
                forall|i: int|
                    0 <= i < self@.locks.len() ==> (#[trigger] self@.locks[i]).size_in_bits + 7
                        <= u16::MAX,
                total_bytes == self@.size + DATA_START + LayoutView::lock_total(
                    locks@.take(i as int),
                ),
                total_bytes <= 0x10010 + i * 0x2000,
            decreases locks@.len() - i,
        {
            assert(self@.locks[i as int].size_in_bits + 7 <= u16::MAX);
            assert(locks@.take(i + 1).drop_last() =~= locks@.take(i as int));
            total_bytes += locks[i].lock_byte_count() as u32;
            i += 1;
        }
        assert(locks@.take(i as int) =~= locks@);
        let reserved = reserved_areas_slice(&self.reserved_areas);
        let mut k: usize = 0;
        while k < reserved.len()
            invariant
                0 <= k <= reserved@.len() <= AREA_CAPACITY,
                reserved@ == self@.reserved,
                total_bytes == self@.size + DATA_START + LayoutView::lock_total(self@.locks)
                    + LayoutView::reserved_total(reserved@.take(k as int)),
                total_bytes <= 0x20010 + k * 0x10000,
            decreases reserved@.len() - k,
        {
            assert(reserved@.take(k + 1).drop_last() =~= reserved@.take(k as int));
            total_bytes += reserved[k].size as u32;
            k += 1;
        }
        assert(reserved@.take(k as int) =~= reserved@);
        let sectors = (total_bytes + SECTOR_SIZE as u32 - 1) / SECTOR_SIZE as u32;
        if sectors < 255 {
            sectors as u8
        } else {
            255
        }
    }

    /// Convert a 16-bit linear byte address to (sector, block, offset).
    pub fn address_to_sector_block(byte_addr: u16) -> (r: (u8, u8, u8))
        ensures
            r.0 == byte_addr as int / 1024,
            r.1 == byte_addr as int % 1024 / 4,
            r.2 == byte_addr as int % 4,
    {
        let sector = (byte_addr / SECTOR_SIZE as u16) as u8;
        let within_sector = byte_addr % SECTOR_SIZE as u16;
        let block = (within_sector / BLOCK_SIZE as u16) as u8;
        let offset = (within_sector % BLOCK_SIZE as u16) as u8;
        (sector, block, offset)
    }

    /// Convert (sector, block, offset) to a linear byte address, which has to fit in 16 bits.
    pub fn sector_block_to_address(sector: u8, block: u8, offset: u8) -> (r: u16)
        requires
            sector * 1024 + block * 4 + offset <= u16::MAX,
        ensures
            r == sector * 1024 + block * 4 + offset,
    {
        sector as u16 * SECTOR_SIZE as u16 + block as u16 * BLOCK_SIZE as u16 + offset as u16
    }

    /// Convert a linear byte address of any width to (sector, block, offset).
    ///
    /// Returns `None` for an address outside the sectors that can be selected.
    pub fn locate(byte_addr: u32) -> (r: Option<(u8, u8, u8)>)
        ensures
            r is Some <==> byte_addr < ADDRESS_SPACE_END,
            r matches Some((sector, block, offset)) ==> {
                &&& sector == byte_addr as int / 1024
                &&& block == byte_addr as int % 1024 / 4
                &&& offset == byte_addr as int % 4
                &&& sector <= MAX_SECTOR
            },
    {
        if byte_addr >= ADDRESS_SPACE_END {
            return None;
        }
        let sector = (byte_addr / SECTOR_SIZE as u32) as u8;
        let within_sector = byte_addr % SECTOR_SIZE as u32;
        let block = (within_sector / BLOCK_SIZE as u32) as u8;
        let offset = (within_sector % BLOCK_SIZE as u32) as u8;
        Some((sector, block, offset))
    }

    /// The physical address of the byte at `offset` among the usable bytes of the data area,
    /// that is, of those that lie in no lock or reserved area.
    ///
    /// Returns `None` if the address space holds no such byte.
    pub fn usable_offset_to_address(&self, offset: u16) -> (r: Option<u32>)
        requires
            self@.in_bounds(),
        ensures
            ({
                let usable = self@.usable(ADDRESS_SPACE_END as int);
                match r {
                    Some(addr) => offset < usable.len() && addr == usable[offset as int],
                    None => offset >= usable.len(),
                }
            }),
    {
        let mut passed: u16 = 0;
        let mut addr: u32 = DATA_START;
        while addr < ADDRESS_SPACE_END
            invariant
                DATA_START <= addr <= ADDRESS_SPACE_END,
                self@.in_bounds(),
                passed == self@.usable(addr as int).len(),
                passed <= offset,
            decreases ADDRESS_SPACE_END - addr,
        {
            if !self.is_skip_area(addr) {
                if passed == offset {
                    proof {
                        self@.lemma_usable_at(addr as int, ADDRESS_SPACE_END as int);
                    }
                    return Some(addr);
                }
                passed += 1;
            }
            addr += 1;
        }
        None
    }

    /// A tag has 255 sectors of 1024 bytes that can be selected, in blocks of four bytes. The
    /// container is block 3, and the data area starts behind it.
    pub proof fn law_address_space()
        ensures
            ADDRESS_SPACE_END == 255 * 1024,
            MAX_SECTOR == 254,
            SECTOR_SIZE == 1024,
            BLOCK_SIZE == 4,
            CC_BLOCK == 3,
            DATA_START == 16,
            STATIC_DATA_AREA_SIZE == 48,
            AREA_CAPACITY == 8,
    {
    }

    /// Converting a 16-bit address to (sector, block, offset) and back gives the address.
    pub proof fn law_address_roundtrip(byte_addr: u16)
        ensures
            (byte_addr as int / 1024) * 1024 + (byte_addr as int % 1024 / 4) * 4 + byte_addr as int
                % 4 == byte_addr,
            byte_addr as int / 1024 <= MAX_SECTOR,
            byte_addr as int % 1024 / 4 < BLOCKS_PER_SECTOR,
    {
    }

    /// Converting (sector, block, offset) to an address and back gives the position.
    pub proof fn law_position_roundtrip(sector: u8, block: u8, offset: u8)
        requires
            offset < BLOCK_SIZE,
        ensures
            ({
                let addr = sector * 1024 + block * 4 + offset;
                addr / 1024 == sector && addr % 1024 / 4 == block && addr % 4 == offset
            }),
    {
    }
}

/// Default dynamic lock area when no Lock Control TLV is present (Section 2.2.2).
fn default_dynamic_lock_area(data_area_size: u16) -> (r: LockArea)
    requires
        data_area_size <= 0xFF * 8,
    ensures
        r == LayoutView::default_lock(data_area_size as nat),
{
    let extra_bytes = data_area_size.saturating_sub(STATIC_DATA_AREA_SIZE as u16);
    let lock_bits = (extra_bytes + 7) / 8;
    // Default position: first byte after the data area.
    let byte_address = DATA_START + data_area_size as u32;
    LockArea { byte_address, size_in_bits: lock_bits, bytes_per_lock_bit: 8 }
}

} // verus!
