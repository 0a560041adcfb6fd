//! Chunk cache with a coordinate index and LRU eviction.
//!
//! The [`ChunkCache`] avoids re-traversing B-trees on repeated reads of chunked datasets. On first
//! access the caller scans the B-tree once and hands the chunks to [`ChunkCache::populate_index`].
//! Decompressed chunk data is cached with LRU eviction controlled by a byte-budget.

use vstd::prelude::*;
use vstd::slice::{slice_subrange, slice_to_vec};
use crate::bytes::{put_fill, put_slice};

verus! {

/// Information about a single chunk in a chunked dataset.
#[derive(Debug)]
pub struct ChunkInfo {
    /// Size of chunk data in the file (after compression).
    pub chunk_size: u32,
    /// Bitmask of filters that were NOT applied (0 = all applied).
    pub filter_mask: u32,
    /// N-dimensional offset of this chunk in dataset space.
    pub offsets: Vec<u64>,
    /// File address of the chunk data.
    pub address: u64,
}

/// The content of a [`ChunkInfo`].
pub struct ChunkInfoModel {
    pub chunk_size: u32,
    pub filter_mask: u32,
    pub offsets: Seq<u64>,
    pub address: u64,
}

impl DeepView for ChunkInfo {
    type V = ChunkInfoModel;

    open spec fn deep_view(&self) -> ChunkInfoModel {
        ChunkInfoModel {
            chunk_size: self.chunk_size,
            filter_mask: self.filter_mask,
            offsets: self.offsets@,
            address: self.address,
        }
    }
}

impl Clone for ChunkInfo {
    fn clone(&self) -> (r: Self)
        ensures
            r.deep_view() == self.deep_view(),
    {
        ChunkInfo {
            chunk_size: self.chunk_size,
            filter_mask: self.filter_mask,
            offsets: copy_coord(self.offsets.as_slice()),
            address: self.address,
        }
    }
}

fn copy_coord(coord: &[u64]) -> (r: Vec<u64>)
    ensures
        r@ == coord@,
{
    let r = slice_to_vec(coord);
    assert(r@ =~= coord@);
    r
}

/// Whether two coordinates are the same.
pub fn same_coord(a: &[u64], b: &[u64]) -> (same: bool)
    ensures
        same == (a@ == b@),
{
    if a.len() != b.len() {
        return false;
    }
    let mut k: usize = 0;
    while k < a.len()
        invariant
            k <= a@.len(),
            a@.len() == b@.len(),
            forall|j: int| 0 <= j < k ==> a@[j] == b@[j],
        decreases a@.len() - k,
    {
        if a[k] != b[k] {
            return false;
        }
        k += 1;
    }
    assert(a@ =~= b@);
    true
}

// ---- Cache lines ----

/// Cache line size in bytes: 64, as on most machines. Data that is aligned to the 128 bytes of some
/// ARM64 machines is aligned to this as well, but not the other way round.
pub const CACHE_LINE_SIZE: usize = 64;

/// `size` rounded up to a multiple of the cache line size.
pub open spec fn aligned(size: int) -> int {
    (size + 63) / 64 * 64
}

/// Round `size` up to the next multiple of [`CACHE_LINE_SIZE`].
pub fn align_to_cache_line(size: usize) -> (r: usize)
    requires
        size + 63 <= usize::MAX,
    ensures
        r == aligned(size as int),
        size <= r < size + 64,
{
    (size + (CACHE_LINE_SIZE - 1)) / CACHE_LINE_SIZE * CACHE_LINE_SIZE
}

/// Whether a cache line starts at `address`.
pub fn on_line(address: usize) -> (r: bool)
    ensures
        r == (address % CACHE_LINE_SIZE == 0),
{
    address % CACHE_LINE_SIZE == 0
}

/// The number of bytes from `address` up to the next start of a cache line.
pub fn gap_to_line(address: usize) -> (gap: usize)
    ensures
        gap < CACHE_LINE_SIZE,
        (address + gap) % CACHE_LINE_SIZE as int == 0,
{
    let over: usize = address % CACHE_LINE_SIZE;
    if over == 0 {
        0
    } else {
        CACHE_LINE_SIZE - over
    }
}

/// Where, in an allocation at `address` that has `spare` bytes more than it needs, the data starts:
/// on a cache line, where there is room to skip up to one.
pub fn start_in(address: usize, spare: usize) -> (start: usize)
    ensures
        start <= spare,
        spare >= CACHE_LINE_SIZE - 1 ==> start < CACHE_LINE_SIZE && (address + start)
            % CACHE_LINE_SIZE as int == 0,
{
    let gap: usize = gap_to_line(address);
    if gap <= spare {
        gap
    } else {
        0
    }
}

/// The address at which `data` stands in memory.
///
/// Trusted: `<[u8]>::as_ptr`. Where data stands is up to the allocator, so nothing is claimed of the
/// address.
#[verifier::external_body]
fn address_of(data: &[u8]) -> (address: usize) {
    data.as_ptr() as usize
}

/// A byte buffer whose data pointer is aligned to [`CACHE_LINE_SIZE`].
///
/// The data stands in an allocation that is large enough to skip up to the first cache line
/// boundary in it.
#[derive(Debug)]
pub struct CacheAlignedBuffer {
    bytes: Vec<u8>,
    /// Where the data starts.
    start: usize,
}

impl View for CacheAlignedBuffer {
    type V = Seq<u8>;

    closed spec fn view(&self) -> Seq<u8> {
        self.bytes@.subrange(self.first(), self.bytes@.len() as int)
    }
}

impl CacheAlignedBuffer {
    /// Where the data starts.
    spec fn first(self) -> int {
        if self.start <= self.bytes@.len() {
            self.start as int
        } else {
            self.bytes@.len() as int
        }
    }

    /// Where the data starts.
    fn first_byte(&self) -> (p: usize)
        ensures
            p == self.first(),
    {
        if self.start <= self.bytes.len() {
            self.start
        } else {
            self.bytes.len()
        }
    }

    /// An allocation with room for `len` bytes from the first cache line boundary on, filled up to
    /// that boundary, the number of bytes in front of it, and the address of the allocation. Where
    /// the allocation has room to skip up to a boundary, the data starts on one.
    fn allocate(len: usize) -> (r: (Vec<u8>, usize, usize))
        ensures
            r.0@.len() == r.1,
            len + (CACHE_LINE_SIZE - 1) <= isize::MAX ==> r.1 < CACHE_LINE_SIZE && (r.2 + r.1)
                % CACHE_LINE_SIZE as int == 0,
    {
        let limit: usize = isize::MAX as usize;
        let room: usize = if len <= limit - (CACHE_LINE_SIZE - 1) {
            len + (CACHE_LINE_SIZE - 1)
        } else {
            len
        };
        let mut bytes: Vec<u8> = Vec::with_capacity(room);
        let address: usize = address_of(bytes.as_slice());
        let start: usize = start_in(address, room - len);
        put_fill(&mut bytes, 0, start);
        (bytes, start, address)
    }

    /// A new buffer of exactly `len` bytes, initialized to zero.
    pub fn zeroed(len: usize) -> (buf: Self)
        requires
            len + 63 <= isize::MAX,
        ensures
            buf@ == Seq::new(len as nat, |i: int| 0u8),
    {
        let (mut bytes, start, _) = CacheAlignedBuffer::allocate(len);
        put_fill(&mut bytes, 0, len);
        let buf = CacheAlignedBuffer { bytes, start };
        assert(buf@ =~= Seq::new(len as nat, |i: int| 0u8));
        buf
    }

    /// Create a copy of an existing byte slice.
    pub fn from_slice(data: &[u8]) -> (buf: Self)
        ensures
            buf@ == data@,
    {
        let (mut bytes, start, _) = CacheAlignedBuffer::allocate(data.len());
        put_slice(&mut bytes, data);
        let buf = CacheAlignedBuffer { bytes, start };
        assert(buf@ =~= data@);
        buf
    }

    /// Create from an existing `Vec<u8>` (copies data).
    pub fn from_vec(v: Vec<u8>) -> (buf: Self)
        ensures
            buf@ == v@,
    {
        CacheAlignedBuffer::from_slice(v.as_slice())
    }

    /// The length of the valid data.
    pub fn len(&self) -> (n: usize)
        ensures
            n == self@.len(),
    {
        self.bytes.len() - self.first_byte()
    }

    /// Whether the buffer is empty.
    pub fn is_empty(&self) -> (empty: bool)
        ensures
            empty == (self@.len() == 0),
    {
        self.len() == 0
    }

    /// Borrow as a byte slice.
    pub fn as_slice(&self) -> (s: &[u8])
        ensures
            s@ == self@,
    {
        slice_subrange(self.bytes.as_slice(), self.first_byte(), self.bytes.len())
    }

    /// Borrow as a mutable byte slice.
    pub fn as_mut_slice(&mut self) -> (s: &mut [u8])
        ensures
            s@ == old(self)@,
            final(self)@ == final(s)@,
    {
        let start: usize = self.first_byte();
        self.start = start;
        let (_, data) = self.bytes.as_mut_slice().split_at_mut(start);
        data
    }

    /// Convert to a `Vec<u8>` (copies data).
    pub fn to_vec(&self) -> (v: Vec<u8>)
        ensures
            v@ == self@,
    {
        slice_to_vec(self.as_slice())
    }

    /// Returns `true` if the data pointer is aligned to [`CACHE_LINE_SIZE`], which [`on_line`]
    /// tells of its address, and for an empty buffer. Where the data stands in memory is up to the
    /// allocator, so the contract says nothing of a buffer with data.
    pub fn is_aligned(&self) -> (r: bool)
        ensures
            self@.len() == 0 ==> r,
    {
        self.len() == 0 || on_line(address_of(self.as_slice()))
    }
}

impl core::ops::Deref for CacheAlignedBuffer {
    type Target = [u8];

    fn deref(&self) -> (s: &[u8])
        ensures
            s@ == self@,
    {
        self.as_slice()
    }
}

impl Clone for CacheAlignedBuffer {
    fn clone(&self) -> (r: Self)
        ensures
            r@ == self@,
    {
        CacheAlignedBuffer::from_slice(self.as_slice())
    }
}

// ---- The cache ----

/// Coordinate key for a chunk: the N-dimensional offset vector.
pub type ChunkCoord = Vec<u64>;

/// Default maximum bytes of decompressed chunk data to cache (1 MiB).
pub const DEFAULT_CACHE_BYTES: usize = 1024 * 1024;

/// Default maximum number of cached decompressed chunks.
pub const DEFAULT_MAX_SLOTS: usize = 16;

struct CachedChunk {
    coord: ChunkCoord,
    data: CacheAlignedBuffer,
    /// Monotonically increasing access counter for LRU ordering.
    last_access: u64,
}

/// Access pattern statistics tracked by the chunk cache.
///
/// Updated on each `get_decompressed` and `prefetch_hint` call to help the sweep detector
/// understand the workload.
#[derive(Debug, Clone, Copy)]
pub struct AccessStats {
    /// Number of accesses that followed a sequential pattern.
    pub sequential_count: u64,
    /// Number of accesses that appeared random (non-sequential).
    pub random_count: u64,
    /// Last detected sweep direction description (informational).
    pub sweep_direction: Option<&'static str>,
}

impl Default for AccessStats {
    fn default() -> (s: Self)
        ensures
            s == no_accesses(),
    {
        AccessStats { sequential_count: 0, random_count: 0, sweep_direction: None }
    }
}

/// The statistics of a cache that was never accessed.
pub open spec fn no_accesses() -> AccessStats {
    AccessStats { sequential_count: 0, random_count: 0, sweep_direction: None }
}

/// A per-dataset chunk cache with a coordinate index and LRU eviction.
pub struct ChunkCache {
    /// Chunk coordinate and ChunkInfo (offset + size in file), each coordinate once.
    /// Populated once per dataset on first access.
    index: Option<Vec<(ChunkCoord, ChunkInfo)>>,
    /// LRU cache of decompressed chunk data.
    slots: Vec<CachedChunk>,
    /// Current total bytes of cached decompressed data.
    current_bytes: usize,
    /// Maximum bytes of decompressed data to cache.
    max_bytes: usize,
    /// Maximum number of slots.
    max_slots: usize,
    /// Monotonic counter for LRU ordering.
    tick: u64,
    /// Last accessed chunk coordinate (for sequential detection).
    last_coord: Option<ChunkCoord>,
    /// Access pattern statistics.
    stats: AccessStats,
}

/// A cached chunk: its coordinate, its data and the time of its last access.
pub struct SlotModel {
    pub coord: Seq<u64>,
    pub data: Seq<u8>,
    pub last_access: u64,
}

/// The state of a [`ChunkCache`].
pub struct CacheModel {
    pub index: Option<Seq<(Seq<u64>, ChunkInfoModel)>>,
    pub slots: Seq<SlotModel>,
    pub current_bytes: usize,
    pub max_bytes: usize,
    pub max_slots: usize,
    pub tick: u64,
    pub last_coord: Option<Seq<u64>>,
    pub stats: AccessStats,
}

impl DeepView for CachedChunk {
    type V = SlotModel;

    closed spec fn deep_view(&self) -> SlotModel {
        SlotModel { coord: self.coord@, data: self.data@, last_access: self.last_access }
    }
}

/// The content of an index.
pub open spec fn index_model(entries: Seq<(ChunkCoord, ChunkInfo)>) -> Seq<
    (Seq<u64>, ChunkInfoModel),
> {
    Seq::new(entries.len(), |i: int| (entries[i].0@, entries[i].1.deep_view()))
}

impl View for ChunkCache {
    type V = CacheModel;

    closed spec fn view(&self) -> CacheModel {
        CacheModel {
            index: match self.index {
                Some(entries) => Some(index_model(entries@)),
                None => None,
            },
            slots: self.slots.deep_view(),
            current_bytes: self.current_bytes,
            max_bytes: self.max_bytes,
            max_slots: self.max_slots,
            tick: self.tick,
            last_coord: match self.last_coord {
                Some(coord) => Some(coord@),
                None => None,
            },
            stats: self.stats,
        }
    }
}

/// The coordinates as sequences.
pub open spec fn coords_of(coords: Seq<ChunkCoord>) -> Seq<Seq<u64>> {
    Seq::new(coords.len(), |i: int| coords[i]@)
}

/// The number of bytes in the first `n` slots.
pub open spec fn slot_bytes(slots: Seq<SlotModel>, n: int) -> nat
    decreases n,
{
    if n <= 0 {
        0
    } else {
        slot_bytes(slots, n - 1) + slots[n - 1].data.len()
    }
}

/// The first slot from `from` on that holds `coord`, or the number of slots.
pub open spec fn slot_of(slots: Seq<SlotModel>, coord: Seq<u64>, from: int) -> int
    decreases slots.len() - from,
{
    if from >= slots.len() || slots[from].coord == coord {
        from
    } else {
        slot_of(slots, coord, from + 1)
    }
}

/// The first entry from `from` on for `coord`, or the number of entries.
pub open spec fn entry_of(
    index: Seq<(Seq<u64>, ChunkInfoModel)>,
    coord: Seq<u64>,
    from: int,
) -> int
    decreases index.len() - from,
{
    if from >= index.len() || index[from].0 == coord {
        from
    } else {
        entry_of(index, coord, from + 1)
    }
}

/// The index with `info` under `coord`, in the place of what was there.
pub open spec fn with_entry(
    index: Seq<(Seq<u64>, ChunkInfoModel)>,
    coord: Seq<u64>,
    info: ChunkInfoModel,
) -> Seq<(Seq<u64>, ChunkInfoModel)> {
    let i = entry_of(index, coord, 0);
    if i < index.len() {
        index.update(i, (coord, info))
    } else {
        index.push((coord, info))
    }
}

/// The first `rank` offsets of a chunk.
pub open spec fn spatial(offsets: Seq<u64>, rank: int) -> Seq<u64> {
    if offsets.len() <= rank {
        offsets
    } else {
        offsets.subrange(0, rank)
    }
}

/// The index of the first `n` chunks.
pub open spec fn index_of(chunks: Seq<ChunkInfoModel>, rank: int, n: int) -> Seq<
    (Seq<u64>, ChunkInfoModel),
>
    decreases n,
{
    if n <= 0 {
        Seq::empty()
    } else {
        with_entry(
            index_of(chunks, rank, n - 1),
            spatial(chunks[n - 1].offsets, rank),
            chunks[n - 1],
        )
    }
}

/// The number of axes along which two coordinates differ, among the first `n`.
pub open spec fn changes(a: Seq<u64>, b: Seq<u64>, n: int) -> nat
    decreases n,
{
    if n <= 0 {
        0
    } else {
        changes(a, b, n - 1) + if a[n - 1] != b[n - 1] {
            1nat
        } else {
            0
        }
    }
}

/// The number of axes that two coordinates share.
pub open spec fn common_axes(a: Seq<u64>, b: Seq<u64>) -> int {
    if a.len() < b.len() {
        a.len() as int
    } else {
        b.len() as int
    }
}

/// The slot among the first `n` that was not accessed for the longest time.
pub open spec fn oldest(slots: Seq<SlotModel>, n: int) -> int
    decreases n,
{
    if n <= 1 {
        0
    } else {
        let j = oldest(slots, n - 1);
        if slots[n - 1].last_access < slots[j].last_access {
            n - 1
        } else {
            j
        }
    }
}

/// The slots without slot `i`, whose place the last one takes.
pub open spec fn swap_removed(slots: Seq<SlotModel>, i: int) -> Seq<SlotModel> {
    Seq::new(
        (slots.len() - 1) as nat,
        |k: int|
            if k == i {
                slots.last()
            } else {
                slots[k]
            },
    )
}

impl CacheModel {
    /// A new cache with the given limits.
    pub open spec fn empty(max_bytes: usize, max_slots: usize) -> CacheModel {
        CacheModel {
            index: None,
            slots: Seq::empty(),
            current_bytes: 0,
            max_bytes,
            max_slots,
            tick: 0,
            last_coord: None,
            stats: no_accesses(),
        }
    }

    /// The limits hold, the byte count is right, and no coordinate is cached twice.
    pub open spec fn wf(self) -> bool {
        &&& self.current_bytes == slot_bytes(self.slots, self.slots.len() as int)
        &&& self.current_bytes <= self.max_bytes
        &&& self.slots.len() <= self.max_slots
        &&& forall|i: int, j: int|
            0 <= i < j < self.slots.len() ==> #[trigger] self.slots[i].coord
                != #[trigger] self.slots[j].coord
    }

    /// The data that is cached for `coord`.
    pub open spec fn cached(self, coord: Seq<u64>) -> Option<Seq<u8>> {
        let i = slot_of(self.slots, coord, 0);
        if i < self.slots.len() {
            Some(self.slots[i].data)
        } else {
            None
        }
    }

    /// The cache after an access to `coord`: the slot that holds it is the newest.
    pub open spec fn touched(self, coord: Seq<u64>) -> CacheModel {
        let i = slot_of(self.slots, coord, 0);
        let tick = (self.tick + 1) as u64;
        CacheModel {
            tick,
            slots: if i < self.slots.len() {
                self.slots.update(i, SlotModel { last_access: tick, ..self.slots[i] })
            } else {
                self.slots
            },
            ..self
        }
    }

    /// The cache after reading `coord`: an access, which is also counted as sequential, if at most
    /// one axis changed since the last one, or as random.
    pub open spec fn read(self, coord: Seq<u64>) -> CacheModel {
        CacheModel {
            last_coord: Some(coord),
            stats: match self.last_coord {
                None => self.stats,
                Some(prev) => if changes(prev, coord, common_axes(prev, coord)) <= 1 {
                    AccessStats {
                        sequential_count: (self.stats.sequential_count + 1) as u64,
                        ..self.stats
                    }
                } else {
                    AccessStats { random_count: (self.stats.random_count + 1) as u64, ..self.stats }
                },
            },
            ..self.touched(coord)
        }
    }

    /// The cache without its oldest slot.
    pub open spec fn without_oldest(self) -> CacheModel {
        let i = oldest(self.slots, self.slots.len() as int);
        CacheModel {
            slots: swap_removed(self.slots, i),
            current_bytes: (self.current_bytes - self.slots[i].data.len()) as usize,
            ..self
        }
    }

    /// The cache after the oldest slots have left until there is room for `need` bytes.
    pub open spec fn with_room(self, need: int) -> CacheModel
        decreases self.slots.len(),
    {
        if self.slots.len() > 0 && (self.slots.len() >= self.max_slots || self.current_bytes + need
            > self.max_bytes) {
            self.without_oldest().with_room(need)
        } else {
            self
        }
    }

    /// The cache after `data` has been offered for `coord`.
    pub open spec fn with_data(self, coord: Seq<u64>, data: Seq<u8>) -> CacheModel {
        if data.len() > self.max_bytes {
            self
        } else if slot_of(self.slots, coord, 0) < self.slots.len() {
            self.touched(coord)
        } else {
            let tick = (self.tick + 1) as u64;
            let room = self.with_room(data.len() as int);
            CacheModel {
                slots: room.slots.push(SlotModel { coord, data, last_access: tick }),
                current_bytes: (room.current_bytes + data.len()) as usize,
                tick,
                ..room
            }
        }
    }

    /// The number of the first `n` coordinates that the index knows.
    pub open spec fn known(self, coords: Seq<Seq<u64>>, n: int) -> nat
        decreases n,
    {
        if n <= 0 {
            0
        } else {
            self.known(coords, n - 1) + if self.index is Some && entry_of(
                self.index->0,
                coords[n - 1],
                0,
            ) < self.index->0.len() {
                1nat
            } else {
                0
            }
        }
    }

    /// The cache after a hint at the given coordinates.
    pub open spec fn hinted(self, coords: Seq<Seq<u64>>) -> CacheModel {
        CacheModel {
            stats: AccessStats {
                sequential_count: (self.stats.sequential_count + self.known(
                    coords,
                    coords.len() as int,
                )) as u64,
                ..self.stats
            },
            ..self
        }
    }

    /// Whether `n` more accesses can be counted.
    pub open spec fn can_count(self, n: int) -> bool {
        &&& self.tick + n <= u64::MAX
        &&& self.stats.sequential_count + n <= u64::MAX
        &&& self.stats.random_count + n <= u64::MAX
    }
}

// ---- Facts about slots ----

pub proof fn lemma_slot_of(slots: Seq<SlotModel>, coord: Seq<u64>, from: int)
    requires
        0 <= from <= slots.len(),
    ensures
        from <= slot_of(slots, coord, from) <= slots.len(),
        slot_of(slots, coord, from) < slots.len() ==> slots[slot_of(slots, coord, from)].coord
            == coord,
        forall|j: int| from <= j < slot_of(slots, coord, from) ==> #[trigger] slots[j].coord
            != coord,
    decreases slots.len() - from,
{
    if from < slots.len() && slots[from].coord != coord {
        lemma_slot_of(slots, coord, from + 1);
    }
}

proof fn lemma_slot_is(slots: Seq<SlotModel>, coord: Seq<u64>, from: int, at: int)
    requires
        0 <= from <= at <= slots.len(),
        at < slots.len() ==> slots[at].coord == coord,
        forall|j: int| from <= j < at ==> #[trigger] slots[j].coord != coord,
    ensures
        slot_of(slots, coord, from) == at,
    decreases at - from,
{
    if from < at {
        assert(slots[from].coord != coord);
        lemma_slot_is(slots, coord, from + 1, at);
    }
}

pub proof fn lemma_entry_of(index: Seq<(Seq<u64>, ChunkInfoModel)>, coord: Seq<u64>, from: int)
    requires
        0 <= from <= index.len(),
    ensures
        from <= entry_of(index, coord, from) <= index.len(),
        entry_of(index, coord, from) < index.len() ==> index[entry_of(index, coord, from)].0
            == coord,
        forall|j: int| from <= j < entry_of(index, coord, from) ==> (#[trigger] index[j]).0 != coord,
    decreases index.len() - from,
{
    if from < index.len() && index[from].0 != coord {
        lemma_entry_of(index, coord, from + 1);
    }
}

proof fn lemma_oldest(slots: Seq<SlotModel>, n: int)
    requires
        1 <= n <= slots.len(),
    ensures
        0 <= oldest(slots, n) < n,
    decreases n,
{
    if n > 1 {
        lemma_oldest(slots, n - 1);
    }
}

/// The bytes of slots that hold as many bytes one by one.
proof fn lemma_same_bytes(a: Seq<SlotModel>, b: Seq<SlotModel>, n: int)
    requires
        0 <= n <= a.len(),
        n <= b.len(),
        forall|i: int| 0 <= i < n ==> (#[trigger] a[i]).data.len() == b[i].data.len(),
    ensures
        slot_bytes(a, n) == slot_bytes(b, n),
    decreases n,
{
    if n > 0 {
        lemma_same_bytes(a, b, n - 1);
        assert(a[n - 1].data.len() == b[n - 1].data.len());
    }
}

/// The bytes of the slots when slot `i` is replaced.
proof fn lemma_replaced_bytes(slots: Seq<SlotModel>, i: int, s: SlotModel, n: int)
    requires
        0 <= n <= slots.len(),
        0 <= i < slots.len(),
    ensures
        slot_bytes(slots.update(i, s), n) == slot_bytes(slots, n) + if i < n {
            s.data.len() - slots[i].data.len()
        } else {
            0
        },
    decreases n,
{
    if n > 0 {
        lemma_replaced_bytes(slots, i, s, n - 1);
    }
}

/// The slots without slot `i`, whose place the last one takes.
proof fn lemma_removed(slots: Seq<SlotModel>, i: int)
    requires
        0 <= i < slots.len(),
    ensures
        ({
            let rest = swap_removed(slots, i);
            &&& slot_bytes(rest, rest.len() as int) + slots[i].data.len() == slot_bytes(
                slots,
                slots.len() as int,
            )
            &&& rest.len() == slots.len() - 1
        }),
{
    let n = slots.len() as int;
    let swapped = slots.update(i, slots.last());
    let rest = swap_removed(slots, i);
    lemma_same_bytes(rest, swapped, n - 1);
    lemma_replaced_bytes(slots, i, slots.last(), n);
    assert(slot_bytes(swapped, n) == slot_bytes(swapped, n - 1) + swapped[n - 1].data.len());
}

/// What is left when the oldest slot leaves is well-formed.
pub proof fn lemma_without_oldest(m: CacheModel)
    requires
        m.wf(),
        m.slots.len() > 0,
    ensures
        m.without_oldest().wf(),
        m.without_oldest().slots.len() == m.slots.len() - 1,
        m.slots[oldest(m.slots, m.slots.len() as int)].data.len() <= m.current_bytes,
        forall|i: int|
            0 <= i < m.without_oldest().slots.len() ==> m.slots.contains(
                #[trigger] m.without_oldest().slots[i],
            ),
{
    let n = m.slots.len() as int;
    lemma_oldest(m.slots, n);
    let i = oldest(m.slots, n);
    lemma_removed(m.slots, i);
    let rest = m.without_oldest().slots;
    assert forall|k: int| 0 <= k < rest.len() implies m.slots.contains(#[trigger] rest[k]) by {
        if k == i {
            assert(rest[k] == m.slots[n - 1]);
        } else {
            assert(rest[k] == m.slots[k]);
        }
    }
    assert forall|a: int, b: int| 0 <= a < b < rest.len() implies #[trigger] rest[a].coord
        != #[trigger] rest[b].coord by {
        let x = if a == i {
            n - 1
        } else {
            a
        };
        let y = if b == i {
            n - 1
        } else {
            b
        };
        assert(rest[a] == m.slots[x] && rest[b] == m.slots[y]);
        if x < y {
            assert(m.slots[x].coord != m.slots[y].coord);
        } else {
            assert(m.slots[y].coord != m.slots[x].coord);
        }
    }
}

/// Making room keeps a cache well-formed, removes slots only, and stops when there is room.
pub proof fn lemma_with_room(m: CacheModel, need: int)
    requires
        m.wf(),
        0 <= need <= m.max_bytes,
    ensures
        m.with_room(need).wf(),
        m.with_room(need).slots.len() <= m.slots.len(),
        m.with_room(need).current_bytes + need <= m.max_bytes,
        m.max_slots > 0 ==> m.with_room(need).slots.len() < m.max_slots,
        m.with_room(need) == (CacheModel {
            slots: m.with_room(need).slots,
            current_bytes: m.with_room(need).current_bytes,
            ..m
        }),
        forall|i: int|
            0 <= i < m.with_room(need).slots.len() ==> m.slots.contains(
                #[trigger] m.with_room(need).slots[i],
            ),
    decreases m.slots.len(),
{
    if m.slots.len() > 0 && (m.slots.len() >= m.max_slots || m.current_bytes + need
        > m.max_bytes) {
        lemma_without_oldest(m);
        let next = m.without_oldest();
        lemma_with_room(next, need);
        let last = m.with_room(need);
        assert forall|i: int| 0 <= i < last.slots.len() implies m.slots.contains(
            #[trigger] last.slots[i],
        ) by {
            assert(next.slots.contains(last.slots[i]));
            let j = choose|j: int| 0 <= j < next.slots.len() && next.slots[j] == last.slots[i];
            assert(m.slots.contains(next.slots[j]));
        }
    } else {
        if m.slots.len() == 0 {
            assert(slot_bytes(m.slots, 0) == 0);
        }
        assert forall|i: int| 0 <= i < m.slots.len() implies m.slots.contains(
            #[trigger] m.slots[i],
        ) by {}
    }
}

/// An access keeps a cache well-formed, and keeps the coordinates and the data.
pub proof fn lemma_touched(m: CacheModel, coord: Seq<u64>)
    requires
        m.wf(),
    ensures
        m.touched(coord).wf(),
        m.touched(coord).slots.len() == m.slots.len(),
        forall|i: int|
            0 <= i < m.slots.len() ==> (#[trigger] m.touched(coord).slots[i]).coord
                == m.slots[i].coord && m.touched(coord).slots[i].data == m.slots[i].data,
{
    lemma_slot_of(m.slots, coord, 0);
    let t = m.touched(coord).slots;
    assert forall|i: int| 0 <= i < m.slots.len() implies (#[trigger] t[i]).coord
        == m.slots[i].coord && t[i].data == m.slots[i].data by {}
    lemma_same_bytes(t, m.slots, m.slots.len() as int);
}

/// Offering data keeps a cache well-formed.
pub proof fn lemma_with_data(m: CacheModel, coord: Seq<u64>, data: Seq<u8>)
    requires
        m.wf(),
        data.len() <= m.max_bytes ==> m.max_slots > 0,
    ensures
        m.with_data(coord, data).wf(),
        forall|i: int|
            0 <= i < m.with_data(coord, data).slots.len() ==> ({
                let s = #[trigger] m.with_data(coord, data).slots[i];
                ||| s.coord == coord && s.data == data
                ||| exists|j: int|
                    0 <= j < m.slots.len() && (#[trigger] m.slots[j]).coord == s.coord
                        && m.slots[j].data == s.data
            }),
{
    let after = m.with_data(coord, data);
    if data.len() > m.max_bytes {
        assert(after == m);
    } else if slot_of(m.slots, coord, 0) < m.slots.len() {
        lemma_touched(m, coord);
        assert forall|i: int| 0 <= i < after.slots.len() implies ({
            let s = #[trigger] after.slots[i];
            ||| s.coord == coord && s.data == data
            ||| exists|j: int|
                0 <= j < m.slots.len() && (#[trigger] m.slots[j]).coord == s.coord
                    && m.slots[j].data == s.data
        }) by {
            assert(m.slots[i].coord == after.slots[i].coord);
        }
    } else {
        lemma_with_room(m, data.len() as int);
        lemma_slot_of(m.slots, coord, 0);
        let room = m.with_room(data.len() as int);
        let n = room.slots.len() as int;
        lemma_same_bytes(after.slots, room.slots, n);
        assert(slot_bytes(after.slots, n + 1) == slot_bytes(after.slots, n) + data.len());
        assert forall|i: int| 0 <= i < n implies (#[trigger] after.slots[i]).coord != coord
            && m.slots.contains(after.slots[i]) by {
            assert(after.slots[i] == room.slots[i]);
            assert(m.slots.contains(room.slots[i]));
            let j = choose|j: int| 0 <= j < m.slots.len() && m.slots[j] == room.slots[i];
            assert(m.slots[j].coord != coord);
        }
        assert forall|i: int| 0 <= i < after.slots.len() implies ({
            let s = #[trigger] after.slots[i];
            ||| s.coord == coord && s.data == data
            ||| exists|j: int|
                0 <= j < m.slots.len() && (#[trigger] m.slots[j]).coord == s.coord
                    && m.slots[j].data == s.data
        }) by {
            if i < n {
                assert(m.slots.contains(after.slots[i]));
                let j = choose|j: int| 0 <= j < m.slots.len() && m.slots[j] == after.slots[i];
                assert(m.slots[j].coord == after.slots[i].coord);
            }
        }
        assert forall|a: int, b: int| 0 <= a < b < after.slots.len() implies #[trigger]
        after.slots[a].coord != #[trigger] after.slots[b].coord by {
            assert(after.slots[a] == room.slots[a]);
            if b < n {
                assert(after.slots[b] == room.slots[b]);
            }
        }
    }
}

// ---- Laws ----

/// Data that was offered for a coordinate that is not cached is found there, if it is within the
/// budget.
pub proof fn law_get_after_put(m: CacheModel, coord: Seq<u64>, data: Seq<u8>)
    requires
        m.wf(),
        m.max_slots > 0,
        data.len() <= m.max_bytes,
        m.cached(coord) is None,
    ensures
        m.with_data(coord, data).cached(coord) == Some(data),
{
    lemma_slot_of(m.slots, coord, 0);
    lemma_with_room(m, data.len() as int);
    lemma_with_data(m, coord, data);
    let after = m.with_data(coord, data);
    let n = after.slots.len() - 1;
    assert forall|j: int| 0 <= j < n implies #[trigger] after.slots[j].coord != coord by {
        assert(after.slots[j].coord != after.slots[n].coord);
    }
    lemma_slot_is(after.slots, coord, 0, n);
}

/// Data that is cached stays as it is when other data is offered for its coordinate.
pub proof fn law_put_keeps_cached(m: CacheModel, coord: Seq<u64>, data: Seq<u8>)
    requires
        m.wf(),
        m.cached(coord) is Some,
    ensures
        m.with_data(coord, data).cached(coord) == m.cached(coord),
{
    lemma_slot_of(m.slots, coord, 0);
    lemma_touched(m, coord);
    let t = m.touched(coord);
    let i = slot_of(m.slots, coord, 0);
    assert forall|j: int| 0 <= j < i implies #[trigger] t.slots[j].coord != coord by {
        assert(m.slots[j].coord != coord);
    }
    lemma_slot_is(t.slots, coord, 0, i);
}

/// Data above the budget is not cached.
pub proof fn law_oversized_is_ignored(m: CacheModel, coord: Seq<u64>, data: Seq<u8>)
    requires
        data.len() > m.max_bytes,
    ensures
        m.with_data(coord, data) == m,
{
}

/// Reading a coordinate changes what is cached for none.
pub proof fn law_read_keeps_cached(m: CacheModel, coord: Seq<u64>, other: Seq<u64>)
    requires
        m.wf(),
    ensures
        m.read(coord).cached(other) == m.cached(other),
{
    lemma_touched(m, coord);
    lemma_slot_of(m.slots, other, 0);
    let t = m.touched(coord);
    let i = slot_of(m.slots, other, 0);
    assert forall|j: int| 0 <= j < i implies #[trigger] t.slots[j].coord != other by {
        assert(m.slots[j].coord != other);
    }
    lemma_slot_is(t.slots, other, 0, i);
}

// ---- Operations ----

impl ChunkCache {
    /// Create a new chunk cache with default limits (1 MiB, 16 slots).
    pub fn new() -> (cache: Self)
        ensures
            cache@ == CacheModel::empty(DEFAULT_CACHE_BYTES, DEFAULT_MAX_SLOTS),
            cache@.wf(),
    {
        ChunkCache::with_capacity(DEFAULT_CACHE_BYTES, DEFAULT_MAX_SLOTS)
    }

    /// Whether data of `len` bytes can be offered: the cache has slots, or the data exceeds its
    /// budget and is not kept.
    pub fn can_take(&self, len: usize) -> (r: bool)
        ensures
            r == (len <= self@.max_bytes ==> self@.max_slots > 0),
    {
        len > self.max_bytes || self.max_slots > 0
    }

    /// Whether `n` more accesses can be counted.
    pub fn can_serve(&self, n: u64) -> (r: bool)
        ensures
            r == self@.can_count(n as int),
    {
        self.tick.checked_add(n).is_some() && self.stats.sequential_count.checked_add(n).is_some()
            && self.stats.random_count.checked_add(n).is_some()
    }

    /// Create a new chunk cache with custom byte budget and slot count.
    pub fn with_capacity(max_bytes: usize, max_slots: usize) -> (cache: Self)
        ensures
            cache@ == CacheModel::empty(max_bytes, max_slots),
            cache@.wf(),
    {
        let cache = ChunkCache {
            index: None,
            slots: Vec::new(),
            current_bytes: 0,
            max_bytes,
            max_slots,
            tick: 0,
            last_coord: None,
            stats: AccessStats::default(),
        };
        assert(cache@.slots =~= Seq::<SlotModel>::empty());
        cache
    }

    // ----- Index operations -----

    /// Returns `true` if the chunk index has been built.
    pub fn has_index(&self) -> (r: bool)
        ensures
            r == self@.index is Some,
    {
        self.index.is_some()
    }

    /// Build the chunk index from a pre-collected list of `ChunkInfo`.
    ///
    /// The `rank` parameter is used to truncate offsets to spatial dims only
    /// (B-tree v1 stores rank+1 offsets).
    pub fn populate_index(&mut self, chunks: &[ChunkInfo], rank: usize)
        ensures
            final(self)@ == if old(self)@.index is Some {
                old(self)@
            } else {
                CacheModel {
                    index: Some(
                        index_of(chunks.deep_view(), rank as int, chunks@.len() as int),
                    ),
                    ..old(self)@
                }
            },
    {
        if self.index.is_some() {
            return;  // already populated
        }
        let mut map: Vec<(ChunkCoord, ChunkInfo)> = Vec::with_capacity(chunks.len());
        let ghost infos = chunks.deep_view();
        let mut k: usize = 0;
        assert(index_model(map@) =~= Seq::<(Seq<u64>, ChunkInfoModel)>::empty());
        while k < chunks.len()
            invariant
                k <= chunks@.len(),
                infos == chunks.deep_view(),
                index_model(map@) == index_of(infos, rank as int, k as int),
            decreases chunks@.len() - k,
        {
            assert(infos[k as int] == chunks@[k as int].deep_view());
            let coord = spatial_coord(&chunks[k], rank);
            insert_entry(&mut map, coord, chunks[k].clone());
            k += 1;
        }
        self.index = Some(map);
    }

    /// Look up a chunk by its spatial coordinate in the index.
    pub fn lookup_index(&self, coord: &[u64]) -> (r: Option<ChunkInfo>)
        ensures
            match r {
                Some(info) => self@.index matches Some(index) && entry_of(index, coord@, 0)
                    < index.len() && info.deep_view() == index[entry_of(index, coord@, 0)].1,
                None => self@.index matches Some(index) ==> entry_of(index, coord@, 0)
                    >= index.len(),
            },
    {
        match &self.index {
            None => None,
            Some(entries) => {
                let i: usize = find_entry(entries, coord);
                if i < entries.len() {
                    Some(entries[i].1.clone())
                } else {
                    None
                }
            },
        }
    }

    /// Return all indexed chunks as a `Vec<ChunkInfo>`, in the order in which their coordinates
    /// were first indexed.
    pub fn all_indexed_chunks(&self) -> (r: Option<Vec<ChunkInfo>>)
        ensures
            match r {
                Some(chunks) => self@.index matches Some(index) && chunks.deep_view()
                    == index.map_values(|e: (Seq<u64>, ChunkInfoModel)| e.1),
                None => self@.index is None,
            },
    {
        match &self.index {
            None => None,
            Some(entries) => {
                let mut chunks: Vec<ChunkInfo> = Vec::with_capacity(entries.len());
                let mut k: usize = 0;
                while k < entries.len()
                    invariant
                        k <= entries@.len(),
                        chunks@.len() == k,
                        forall|i: int|
                            0 <= i < k ==> (#[trigger] chunks@[i]).deep_view()
                                == entries@[i].1.deep_view(),
                    decreases entries@.len() - k,
                {
                    chunks.push(entries[k].1.clone());
                    k += 1;
                }
                assert(chunks.deep_view() =~= index_model(entries@).map_values(
                    |e: (Seq<u64>, ChunkInfoModel)| e.1,
                ));
                Some(chunks)
            },
        }
    }

    // ----- Decompressed data cache (LRU) -----

    /// The slot that holds `coord`; the number of slots if none does.
    fn find_slot(&self, coord: &[u64]) -> (i: usize)
        ensures
            i == slot_of(self@.slots, coord@, 0),
            i <= self.slots@.len(),
    {
        let mut i: usize = 0;
        let ghost slots = self@.slots;
        while i < self.slots.len() && !same_coord(self.slots[i].coord.as_slice(), coord)
            invariant
                i <= self.slots@.len(),
                slots == self.slots.deep_view(),
                slot_of(slots, coord@, 0) == slot_of(slots, coord@, i as int),
            decreases self.slots@.len() - i,
        {
            i += 1;
        }
        i
    }

    /// Marks the slot that holds `coord`, if there is one, as the newest, and returns its index;
    /// the number of slots if there is none.
    fn touch(&mut self, coord: &[u64]) -> (i: usize)
        requires
            old(self)@.tick < u64::MAX,
        ensures
            final(self)@ == old(self)@.touched(coord@),
            i == slot_of(old(self)@.slots, coord@, 0),
            i <= old(self)@.slots.len(),
            final(self).slots@.len() == old(self).slots@.len() == old(self)@.slots.len(),
    {
        self.tick = self.tick + 1;
        let tick: u64 = self.tick;
        let i: usize = self.find_slot(coord);
        if i < self.slots.len() {
            self.slots[i].last_access = tick;
            assert(self@.slots =~= old(self)@.touched(coord@).slots);
        }
        i
    }

    /// Try to get cached decompressed data for a chunk coordinate.
    pub fn get_decompressed(&mut self, coord: &[u64]) -> (r: Option<Vec<u8>>)
        requires
            old(self)@.wf(),
            old(self)@.can_count(1),
        ensures
            final(self)@ == old(self)@.read(coord@),
            final(self)@.wf(),
            match r {
                Some(data) => old(self)@.cached(coord@) == Some(data@),
                None => old(self)@.cached(coord@) is None,
            },
    {
        proof {
            lemma_touched(self@, coord@);
        }
        let i: usize = self.touch(coord);
        // Track sequential vs random access
        if let Some(prev) = &self.last_coord {
            // Sequential if at most one dimension changed
            if count_changes(prev.as_slice(), coord) <= 1 {
                self.stats.sequential_count = self.stats.sequential_count + 1;
            } else {
                self.stats.random_count = self.stats.random_count + 1;
            }
        }
        self.last_coord = Some(copy_coord(coord));
        proof {
            lemma_touched(old(self)@, coord@);
        }
        if i < self.slots.len() {
            assert(self@.slots[i as int] == self.slots@[i as int].deep_view());
            Some(self.slots[i].data.to_vec())
        } else {
            None
        }
    }

    /// Try to get a clone of the buffer for a chunk.
    pub fn get_decompressed_aligned(&mut self, coord: &[u64]) -> (r: Option<CacheAlignedBuffer>)
        requires
            old(self)@.wf(),
            old(self)@.tick < u64::MAX,
        ensures
            final(self)@ == old(self)@.touched(coord@),
            final(self)@.wf(),
            match r {
                Some(data) => old(self)@.cached(coord@) == Some(data@),
                None => old(self)@.cached(coord@) is None,
            },
    {
        proof {
            lemma_touched(self@, coord@);
        }
        let i: usize = self.touch(coord);
        if i < self.slots.len() {
            assert(self@.slots[i as int] == self.slots@[i as int].deep_view());
            Some(self.slots[i].data.clone())
        } else {
            None
        }
    }

    /// Insert decompressed chunk data into the LRU cache.
    pub fn put_decompressed(&mut self, coord: ChunkCoord, data: Vec<u8>)
        requires
            old(self)@.wf(),
            old(self)@.tick < u64::MAX,
            data@.len() <= old(self)@.max_bytes ==> old(self)@.max_slots > 0,
        ensures
            final(self)@ == old(self)@.with_data(coord@, data@),
            final(self)@.wf(),
    {
        let aligned = CacheAlignedBuffer::from_vec(data);
        self.put_decompressed_aligned(coord, aligned);
    }

    /// Insert a buffer into the LRU cache.
    pub fn put_decompressed_aligned(&mut self, coord: ChunkCoord, data: CacheAlignedBuffer)
        requires
            old(self)@.wf(),
            old(self)@.tick < u64::MAX,
            data@.len() <= old(self)@.max_bytes ==> old(self)@.max_slots > 0,
        ensures
            final(self)@ == old(self)@.with_data(coord@, data@),
            final(self)@.wf(),
    {
        let data_len: usize = data.len();
        proof {
            lemma_with_data(self@, coord@, data@);
        }
        // Don't cache if single chunk exceeds budget
        if data_len > self.max_bytes {
            return;
        }
        proof {
            lemma_touched(self@, coord@);
            lemma_with_room(self@, data_len as int);
        }
        // Check if already present

        let i: usize = self.touch(coord.as_slice());
        if i < self.slots.len() {
            return;  // already cached
        }
        let tick: u64 = self.tick;
        let ghost goal = old(self)@.with_room(data_len as int);
        proof {
            lemma_room_ignores_tick(old(self)@, self@, data_len as int);
        }
        // Evict until we have room
        while self.slots.len() > 0 && (self.slots.len() >= self.max_slots || data_len
            > self.max_bytes - self.current_bytes)
            invariant
                self@.wf(),
                data_len <= self.max_bytes,
                self@.with_room(data_len as int) == (CacheModel { tick, ..goal }),
                self.tick == tick,
            decreases self.slots@.len(),
        {
            let ghost before = self@;
            // Find LRU slot
            let lru_idx: usize = self.find_oldest();
            proof {
                lemma_without_oldest(before);
                lemma_oldest(before.slots, before.slots.len() as int);
            }
            let removed = self.slots.swap_remove(lru_idx);
            assert(removed.deep_view() == before.slots[lru_idx as int]);
            self.current_bytes = self.current_bytes - removed.data.len();
            assert(self@.slots =~= before.without_oldest().slots);
        }
        let ghost room = self@;
        self.current_bytes = self.current_bytes + data_len;
        self.slots.push(CachedChunk { coord, data, last_access: tick });
        assert(self@.slots =~= room.slots.push(
            SlotModel { coord: coord@, data: data@, last_access: tick },
        ));
    }

    /// The slot that was not accessed for the longest time.
    fn find_oldest(&self) -> (i: usize)
        requires
            self.slots@.len() > 0,
        ensures
            i == oldest(self@.slots, self@.slots.len() as int),
            i < self.slots@.len(),
    {
        let ghost slots = self@.slots;
        let mut j: usize = 0;
        let mut n: usize = 1;
        while n < self.slots.len()
            invariant
                slots == self.slots.deep_view(),
                1 <= n <= self.slots@.len(),
                j < n,
                j == oldest(slots, n as int),
            decreases self.slots@.len() - n,
        {
            assert(slots[n as int] == self.slots@[n as int].deep_view());
            assert(slots[j as int] == self.slots@[j as int].deep_view());
            if self.slots[n].last_access < self.slots[j].last_access {
                j = n;
            }
            n += 1;
        }
        j
    }

    /// Clear the entire cache (index + decompressed data).
    pub fn clear(&mut self)
        ensures
            final(self)@ == CacheModel::empty(old(self)@.max_bytes, old(self)@.max_slots),
            final(self)@.wf(),
    {
        self.index = None;
        self.slots.clear();
        self.current_bytes = 0;
        self.tick = 0;
        self.last_coord = None;
        self.stats = AccessStats::default();
        assert(self@.slots =~= Seq::<SlotModel>::empty());
    }

    /// Hint that the given chunk coordinates will be accessed soon.
    ///
    /// This does NOT pre-decompress the chunks: each coordinate that the index knows is counted
    /// as a sequential access.
    pub fn prefetch_hint(&mut self, next_coords: &[ChunkCoord])
        requires
            old(self)@.stats.sequential_count + next_coords@.len() <= u64::MAX,
        ensures
            final(self)@ == old(self)@.hinted(coords_of(next_coords@)),
    {
        let ghost coords = coords_of(next_coords@);
        let ghost m = self@;
        let mut k: usize = 0;
        while k < next_coords.len()
            invariant
                k <= next_coords@.len(),
                coords == coords_of(next_coords@),
                m == old(self)@,
                m.stats.sequential_count + next_coords@.len() <= u64::MAX,
                m.known(coords, k as int) <= k,
                self@ == (CacheModel {
                    stats: AccessStats {
                        sequential_count: (m.stats.sequential_count + m.known(
                            coords,
                            k as int,
                        )) as u64,
                        ..m.stats
                    },
                    ..m
                }),
            decreases next_coords@.len() - k,
        {
            assert(coords[k as int] == next_coords@[k as int]@);
            let exists_in_index = match &self.index {
                Some(entries) => find_entry(entries, next_coords[k].as_slice()) < entries.len(),
                None => false,
            };
            if exists_in_index {
                self.stats.sequential_count = self.stats.sequential_count + 1;
            }
            k += 1;
        }
    }

    /// Return the current access pattern statistics.
    pub fn access_stats(&self) -> (s: AccessStats)
        ensures
            s == self@.stats,
    {
        self.stats
    }

    /// Update the sweep direction label in the access stats.
    pub fn set_sweep_direction(&mut self, direction: &'static str)
        ensures
            final(self)@ == (CacheModel {
                stats: AccessStats { sweep_direction: Some(direction), ..old(self)@.stats },
                ..old(self)@
            }),
    {
        self.stats.sweep_direction = Some(direction);
    }

    /// Number of decompressed chunks currently cached.
    pub fn cached_chunk_count(&self) -> (n: usize)
        ensures
            n == self@.slots.len(),
    {
        self.slots.len()
    }

    /// Total bytes of decompressed data currently cached.
    pub fn cached_bytes(&self) -> (n: usize)
        ensures
            n == self@.current_bytes,
    {
        self.current_bytes
    }
}

impl Default for ChunkCache {
    fn default() -> (cache: Self)
        ensures
            cache@ == CacheModel::empty(DEFAULT_CACHE_BYTES, DEFAULT_MAX_SLOTS),
    {
        ChunkCache::new()
    }
}

/// Which slots leave does not depend on the time of the access.
proof fn lemma_room_ignores_tick(a: CacheModel, b: CacheModel, need: int)
    requires
        b == (CacheModel { tick: b.tick, ..a }),
        a.wf(),
    ensures
        b.with_room(need) == (CacheModel { tick: b.tick, ..a.with_room(need) }),
    decreases a.slots.len(),
{
    if a.slots.len() > 0 && (a.slots.len() >= a.max_slots || a.current_bytes + need
        > a.max_bytes) {
        lemma_without_oldest(a);
        lemma_room_ignores_tick(a.without_oldest(), b.without_oldest(), need);
    }
}

/// The number of axes along which the coordinates differ, as far as both have them.
fn count_changes(a: &[u64], b: &[u64]) -> (n: usize)
    ensures
        n == changes(a@, b@, common_axes(a@, b@)),
{
    let end: usize = if a.len() < b.len() {
        a.len()
    } else {
        b.len()
    };
    let mut n: usize = 0;
    let mut k: usize = 0;
    while k < end
        invariant
            k <= end,
            n <= k,
            end <= a@.len(),
            end <= b@.len(),
            n == changes(a@, b@, k as int),
        decreases end - k,
    {
        if a[k] != b[k] {
            n += 1;
        }
        k += 1;
    }
    n
}

/// The first `rank` offsets of a chunk.
pub fn spatial_coord(info: &ChunkInfo, rank: usize) -> (coord: Vec<u64>)
    ensures
        coord@ == spatial(info.offsets@, rank as int),
{
    let end: usize = if info.offsets.len() <= rank {
        info.offsets.len()
    } else {
        rank
    };
    let coord = copy_coord(vstd::slice::slice_subrange(info.offsets.as_slice(), 0, end));
    assert(coord@ =~= spatial(info.offsets@, rank as int));
    coord
}

/// The entry for `coord`; the number of entries if there is none.
fn find_entry(entries: &Vec<(ChunkCoord, ChunkInfo)>, coord: &[u64]) -> (i: usize)
    ensures
        i == entry_of(index_model(entries@), coord@, 0),
        i <= entries@.len(),
{
    let ghost index = index_model(entries@);
    let mut i: usize = 0;
    while i < entries.len() && !same_coord(entries[i].0.as_slice(), coord)
        invariant
            i <= entries@.len(),
            index == index_model(entries@),
            entry_of(index, coord@, 0) == entry_of(index, coord@, i as int),
        decreases entries@.len() - i,
    {
        i += 1;
    }
    i
}

/// Sets the entry for `coord`.
fn insert_entry(entries: &mut Vec<(ChunkCoord, ChunkInfo)>, coord: ChunkCoord, info: ChunkInfo)
    ensures
        index_model(final(entries)@) == with_entry(
            index_model(old(entries)@),
            coord@,
            info.deep_view(),
        ),
{
    let i: usize = find_entry(entries, coord.as_slice());
    if i < entries.len() {
        entries.set(i, (coord, info));
    } else {
        entries.push((coord, info));
    }
    assert(index_model(entries@) =~= with_entry(
        index_model(old(entries)@),
        coord@,
        info.deep_view(),
    ));
}

} // verus!
