//! The write-back block cache: one in-memory mirror per cached block, and a
//! bounded manager with FIFO eviction and pin-based protection from eviction.
use vstd::prelude::*;

use crate::block_dev::BlockDevice;
use crate::{BLOCK_CACHE_SIZE, BLOCK_SIZE};

verus! {

/// `b` with the `d.len()` bytes starting at `off` replaced by `d`.
pub open spec fn splice_bytes(b: Seq<u8>, off: int, d: Seq<u8>) -> Seq<u8> {
    b.take(off) + d + b.skip(off + d.len())
}

/// One cached block: a full in-memory copy of the block's bytes, together
/// with its block id and a dirty flag that records unsynced modifications.
pub struct BlockCache {
    cache: Vec<u8>,
    block_id: usize,
    modified: bool,
}

impl BlockCache {
    /// The cached copy holds exactly one block.
    pub closed spec fn wf(&self) -> bool {
        self.cache@.len() == BLOCK_SIZE
    }

    /// The cached bytes.
    pub closed spec fn data(&self) -> Seq<u8> {
        self.cache@
    }

    /// The id of the mirrored block.
    pub closed spec fn id(&self) -> nat {
        self.block_id as nat
    }

    /// Whether the copy has been modified since it was last synced.
    pub closed spec fn dirty(&self) -> bool {
        self.modified
    }

    /// Load a new cached copy of block `block_id` from the device.
    pub fn new<D: BlockDevice>(block_id: usize, device: &D) -> (c: Self)
        ensures
            c.wf(),
            c.id() == block_id as nat,
            c.data() == device.block_data(block_id as nat),
            !c.dirty(),
    {
        let mut buf: Vec<u8> = Vec::new();
        device.read_block(block_id, &mut buf);
        proof {
            device.block_data_len(block_id as nat);
        }
        BlockCache { cache: buf, block_id, modified: false }
    }

    /// Copy out `len` cached bytes starting at `offset`.
    pub fn read(&self, offset: usize, len: usize) -> (r: Vec<u8>)
        requires
            self.wf(),
            offset + len <= BLOCK_SIZE,
        ensures
            r@ == self.data().subrange(offset as int, offset + len),
    {
        let mut r: Vec<u8> = Vec::new();
        let mut k: usize = 0;
        while k < len
            invariant
                self.wf(),
                offset + len <= BLOCK_SIZE,
                k <= len,
                r@.len() == k,
                forall|i: int| 0 <= i < k ==> r@[i] == self.data()[offset + i],
            decreases len - k,
        {
            r.push(self.cache[offset + k]);
            k += 1;
        }
        proof {
            assert(r@ =~= self.data().subrange(offset as int, offset + len));
        }
        r
    }

    /// Overwrite the cached bytes starting at `offset` with `data`, and mark
    /// the copy dirty.
    pub fn modify(&mut self, offset: usize, data: &Vec<u8>)
        requires
            old(self).wf(),
            offset + data@.len() <= BLOCK_SIZE,
        ensures
            final(self).wf(),
            final(self).id() == old(self).id(),
            final(self).dirty(),
            final(self).data() == splice_bytes(old(self).data(), offset as int, data@),
    {
        let mut k: usize = 0;
        while k < data.len()
            invariant
                self.wf(),
                self.block_id == old(self).block_id,
                offset + data@.len() <= BLOCK_SIZE,
                k <= data@.len(),
                forall|i: int|
                    offset <= i < offset + k ==> self.data()[i] == data@[i - offset],
                forall|i: int|
                    0 <= i < BLOCK_SIZE && !(offset <= i < offset + k) ==> self.data()[i]
                        == old(self).data()[i],
            decreases data@.len() - k,
        {
            let ghost prev = self.data();
            self.cache[offset + k] = data[k];
            proof {
                assert(self.data() == prev.update(offset + k, data@[k as int]));
            }
            k += 1;
        }
        proof {
            assert(k == data@.len());
        }
        let ghost dexit = self.data();
        self.modified = true;
        proof {
            assert(self.data() == dexit);
            let s = splice_bytes(old(self).data(), offset as int, data@);
            assert(s.len() == BLOCK_SIZE);
            assert forall|i: int| 0 <= i < BLOCK_SIZE implies self.data()[i] == s[i] by {
                if i < offset {
                    assert(self.data()[i] == old(self).data()[i]);
                    assert(s[i] == old(self).data().take(offset as int)[i]);
                } else if i < offset + data@.len() {
                    assert(self.data()[i] == data@[i - offset]);
                    assert(s[i] == data@[i - offset]);
                } else {
                    assert(self.data()[i] == old(self).data()[i]);
                    assert(s[i] == old(self).data().skip(offset + data@.len())[i - offset
                        - data@.len()]);
                }
            }
            assert(self.data() =~= s);
        }
    }

    /// If the copy is dirty, write it back to the device and clear the flag.
    pub fn sync<D: BlockDevice>(&mut self, device: &mut D)
        requires
            old(self).wf(),
        ensures
            final(self).wf(),
            final(self).id() == old(self).id(),
            final(self).data() == old(self).data(),
            !final(self).dirty(),
            old(self).dirty() ==> final(device).block_data(old(self).id()) == old(self).data()
                && forall|i: nat|
                    i != old(self).id() ==> final(device).block_data(i) == old(
                        device,
                    ).block_data(i),
            !old(self).dirty() ==> *final(device) == *old(device),
    {
        if self.modified {
            self.modified = false;
            device.write_block(self.block_id, &self.cache);
        }
    }
}

/// One slot of the cache manager: a cached block and the number of
/// outstanding handles that pin it.
struct CacheSlot {
    cache: BlockCache,
    pins: usize,
}

/// A bounded pool of cached blocks keyed by block id, held in FIFO
/// (insertion) order. A slot whose pin count is positive is never evicted.
pub struct BlockCacheManager {
    slots: Vec<CacheSlot>,
}

impl BlockCacheManager {
    /// Structural well-formedness: within capacity, every cached copy holds a
    /// whole block, and no block id occurs twice.
    pub closed spec fn wf(&self) -> bool {
        &&& self.slots@.len() <= BLOCK_CACHE_SIZE
        &&& forall|k: int| 0 <= k < self.slots@.len() ==> (#[trigger] self.slots@[k]).cache.wf()
        &&& forall|k1: int, k2: int|
            0 <= k1 < k2 < self.slots@.len() ==> self.slots@[k1].cache.id()
                != self.slots@[k2].cache.id()
    }

    /// The ids of the cached blocks, oldest first.
    pub closed spec fn ids(&self) -> Seq<nat> {
        Seq::new(self.slots@.len(), |k: int| self.slots@[k].cache.id())
    }

    /// Pin count of the slot at position `k` of the FIFO order.
    pub closed spec fn pin_at(&self, k: int) -> nat {
        self.slots@[k].pins as nat
    }

    /// How many blocks are cached.
    pub open spec fn count(&self) -> nat {
        self.ids().len()
    }

    /// Whether block `id` is cached.
    pub closed spec fn resident(&self, id: nat) -> bool {
        exists|k: int|
            0 <= k < self.slots@.len() && (#[trigger] self.slots@[k]).cache.id() == id
    }

    /// The slot position holding block `id` (meaningful only when resident).
    spec fn slot_of(&self, id: nat) -> int {
        choose|k: int|
            0 <= k < self.slots@.len() && (#[trigger] self.slots@[k]).cache.id() == id
    }

    /// The cached bytes of resident block `id`.
    pub closed spec fn entry_data(&self, id: nat) -> Seq<u8> {
        self.slots@[self.slot_of(id)].cache.data()
    }

    /// Whether resident block `id` has unsynced modifications.
    pub closed spec fn dirty_at(&self, id: nat) -> bool {
        self.slots@[self.slot_of(id)].cache.dirty()
    }

    /// Number of outstanding handles to block `id`; 0 when not resident.
    pub closed spec fn pin_of(&self, id: nat) -> nat {
        if self.resident(id) {
            self.slots@[self.slot_of(id)].pins as nat
        } else {
            0
        }
    }

    /// The authoritative content of block `id`: the cached copy when `id` is
    /// resident, the device content otherwise.
    pub open spec fn view_of<D: BlockDevice>(&self, device: D, id: nat) -> Seq<u8> {
        if self.resident(id) {
            self.entry_data(id)
        } else {
            device.block_data(id)
        }
    }

    /// Every clean cached copy agrees with the device, so that skipping the
    /// write-back of a clean block on eviction loses nothing.
    pub open spec fn consistent_with<D: BlockDevice>(&self, device: D) -> bool {
        forall|id: nat|
            self.resident(id) && !(#[trigger] self.dirty_at(id)) ==> self.entry_data(id)
                == device.block_data(id)
    }

    /// No outstanding handle pins any block.
    pub open spec fn no_pins(&self) -> bool {
        forall|id: nat| #[trigger] self.pin_of(id) == 0
    }

    /// A request for block `id` can be served: it is resident, or there is a
    /// free slot, or some block can be evicted.
    pub open spec fn can_obtain(&self, id: nat) -> bool {
        ||| self.resident(id)
        ||| self.count() < BLOCK_CACHE_SIZE
        ||| exists|i: nat| self.resident(i) && #[trigger] self.pin_of(i) == 0
    }

    /// Some request can always be served: there is a free slot, or at least
    /// one cached block is unpinned and thus evictable.
    pub open spec fn has_room(&self) -> bool {
        ||| self.count() < BLOCK_CACHE_SIZE
        ||| exists|i: nat| self.resident(i) && #[trigger] self.pin_of(i) == 0
    }

    /// An empty cache.
    pub fn new() -> (m: Self)
        ensures
            m.wf(),
            m.count() == 0,
            m.no_pins(),
            forall|i: nat| !m.resident(i),
    {
        let m = BlockCacheManager { slots: Vec::new() };
        proof {
            assert(forall|i: nat| !m.resident(i));
        }
        m
    }

    /// A resident block occupies exactly one slot, and `slot_of` finds it.
    proof fn lemma_slot_unique(&self, k: int)
        requires
            self.wf(),
            0 <= k < self.slots@.len(),
        ensures
            self.resident(self.slots@[k].cache.id()),
            self.slot_of(self.slots@[k].cache.id()) == k,
    {
        let id = self.slots@[k].cache.id();
        assert(self.resident(id));
        let k0 = self.slot_of(id);
        if k0 != k {
            if k0 < k {
                assert(self.slots@[k0].cache.id() != self.slots@[k].cache.id());
            } else {
                assert(self.slots@[k].cache.id() != self.slots@[k0].cache.id());
            }
        }
    }

    /// Effect of dropping slot `j` on the id-keyed abstraction.
    proof fn lemma_remove_slot(pre: Self, post: Self, j: int)
        requires
            pre.wf(),
            0 <= j < pre.slots@.len(),
            post.slots@ == pre.slots@.remove(j),
        ensures
            post.wf(),
            post.ids() == pre.ids().remove(j),
            !post.resident(pre.slots@[j].cache.id()),
            forall|i: nat|
                i != pre.slots@[j].cache.id() && pre.resident(i) ==> post.resident(i)
                    && post.entry_data(i) == pre.entry_data(i) && post.dirty_at(i)
                    == pre.dirty_at(i) && post.pin_of(i) == pre.pin_of(i),
            forall|i: nat| post.resident(i) ==> pre.resident(i),
            forall|i: nat| !pre.resident(i) ==> post.pin_of(i) == 0,
    {
        let rid = pre.slots@[j].cache.id();
        assert(post.ids() =~= pre.ids().remove(j));
        assert forall|k1: int, k2: int|
            0 <= k1 < k2 < post.slots@.len() implies post.slots@[k1].cache.id()
            != post.slots@[k2].cache.id() by {
            let p1 = if k1 < j { k1 } else { k1 + 1 };
            let p2 = if k2 < j { k2 } else { k2 + 1 };
            assert(post.slots@[k1] == pre.slots@[p1]);
            assert(post.slots@[k2] == pre.slots@[p2]);
        }
        assert forall|k: int| 0 <= k < post.slots@.len() implies (
        #[trigger] post.slots@[k]).cache.wf() by {
            let p = if k < j { k } else { k + 1 };
            assert(post.slots@[k] == pre.slots@[p]);
        }
        if post.resident(rid) {
            let k = post.slot_of(rid);
            let p = if k < j { k } else { k + 1 };
            assert(post.slots@[k] == pre.slots@[p]);
            pre.lemma_slot_unique(p);
            assert(false);
        }
        assert forall|i: nat|
            i != rid && pre.resident(i) implies post.resident(i) && post.entry_data(i)
            == pre.entry_data(i) && post.dirty_at(i) == pre.dirty_at(i) && post.pin_of(i)
            == pre.pin_of(i) by {
            let kp = pre.slot_of(i);
            assert(0 <= kp < pre.slots@.len() && pre.slots@[kp].cache.id() == i);
            assert(kp != j);
            let kq = if kp < j { kp } else { kp - 1 };
            assert(post.slots@[kq] == pre.slots@[kp]);
            post.lemma_slot_unique(kq);
        }
        assert forall|i: nat| post.resident(i) implies pre.resident(i) by {
            let k = post.slot_of(i);
            let p = if k < j { k } else { k + 1 };
            assert(post.slots@[k] == pre.slots@[p]);
            assert(pre.resident(i));
        }
    }

    /// Effect of appending a slot on the id-keyed abstraction.
    proof fn lemma_push_slot(pre: Self, post: Self, slot: CacheSlot)
        requires
            pre.wf(),
            pre.slots@.len() < BLOCK_CACHE_SIZE,
            slot.cache.wf(),
            !pre.resident(slot.cache.id()),
            post.slots@ == pre.slots@.push(slot),
        ensures
            post.wf(),
            post.ids() == pre.ids().push(slot.cache.id()),
            post.resident(slot.cache.id()),
            post.entry_data(slot.cache.id()) == slot.cache.data(),
            post.dirty_at(slot.cache.id()) == slot.cache.dirty(),
            post.pin_of(slot.cache.id()) == slot.pins,
            forall|i: nat|
                i != slot.cache.id() ==> post.resident(i) == pre.resident(i),
            forall|i: nat|
                i != slot.cache.id() && pre.resident(i) ==> post.entry_data(i)
                    == pre.entry_data(i) && post.dirty_at(i) == pre.dirty_at(i)
                    && post.pin_of(i) == pre.pin_of(i),
            forall|i: nat| !pre.resident(i) && i != slot.cache.id() ==> post.pin_of(i) == 0,
    {
        let nid = slot.cache.id();
        let n = pre.slots@.len() as int;
        assert(post.ids() =~= pre.ids().push(nid));
        assert forall|k1: int, k2: int|
            0 <= k1 < k2 < post.slots@.len() implies post.slots@[k1].cache.id()
            != post.slots@[k2].cache.id() by {
            if k2 == n {
                assert(post.slots@[k1] == pre.slots@[k1]);
                if post.slots@[k1].cache.id() == nid {
                    assert(pre.resident(nid));
                }
            } else {
                assert(post.slots@[k1] == pre.slots@[k1]);
                assert(post.slots@[k2] == pre.slots@[k2]);
            }
        }
        assert(post.wf());
        post.lemma_slot_unique(n);
        assert forall|i: nat| i != nid implies post.resident(i) == pre.resident(i) by {
            if post.resident(i) {
                let k = post.slot_of(i);
                assert(k != n);
                assert(post.slots@[k] == pre.slots@[k]);
                assert(pre.resident(i));
            }
            if pre.resident(i) {
                let k = pre.slot_of(i);
                assert(post.slots@[k] == pre.slots@[k]);
                assert(post.resident(i));
            }
        }
        assert forall|i: nat|
            i != nid && pre.resident(i) implies post.entry_data(i) == pre.entry_data(i)
            && post.dirty_at(i) == pre.dirty_at(i) && post.pin_of(i) == pre.pin_of(i) by {
            let kp = pre.slot_of(i);
            assert(0 <= kp < pre.slots@.len() && pre.slots@[kp].cache.id() == i);
            assert(post.slots@[kp] == pre.slots@[kp]);
            post.lemma_slot_unique(kp);
        }
    }

    /// Effect of replacing the slot at `k` by one with the same block id on
    /// the id-keyed abstraction.
    proof fn lemma_update_slot(pre: Self, post: Self, k: int, slot: CacheSlot)
        requires
            pre.wf(),
            0 <= k < pre.slots@.len(),
            slot.cache.wf(),
            slot.cache.id() == pre.slots@[k].cache.id(),
            post.slots@ == pre.slots@.update(k, slot),
        ensures
            post.wf(),
            post.ids() == pre.ids(),
            post.entry_data(slot.cache.id()) == slot.cache.data(),
            post.dirty_at(slot.cache.id()) == slot.cache.dirty(),
            post.pin_of(slot.cache.id()) == slot.pins,
            forall|i: nat| post.resident(i) == pre.resident(i),
            forall|i: nat|
                i != slot.cache.id() && pre.resident(i) ==> post.entry_data(i)
                    == pre.entry_data(i) && post.dirty_at(i) == pre.dirty_at(i)
                    && post.pin_of(i) == pre.pin_of(i),
            forall|i: nat| !pre.resident(i) ==> post.pin_of(i) == 0,
    {
        let uid = slot.cache.id();
        assert(post.ids() =~= pre.ids());
        assert forall|k1: int, k2: int|
            0 <= k1 < k2 < post.slots@.len() implies post.slots@[k1].cache.id()
            != post.slots@[k2].cache.id() by {
            assert(post.slots@[k1].cache.id() == pre.slots@[k1].cache.id());
            assert(post.slots@[k2].cache.id() == pre.slots@[k2].cache.id());
        }
        assert forall|kk: int| 0 <= kk < post.slots@.len() implies (
        #[trigger] post.slots@[kk]).cache.wf() by {
            if kk != k {
                assert(post.slots@[kk] == pre.slots@[kk]);
            }
        }
        assert(post.wf());
        assert forall|i: nat| post.resident(i) == pre.resident(i) by {
            if post.resident(i) {
                let kk = post.slot_of(i);
                assert(pre.slots@[kk].cache.id() == i);
                assert(pre.resident(i));
            }
            if pre.resident(i) {
                let kk = pre.slot_of(i);
                assert(post.slots@[kk].cache.id() == i);
                assert(post.resident(i));
            }
        }
        post.lemma_slot_unique(k);
        assert forall|i: nat|
            i != uid && pre.resident(i) implies post.entry_data(i) == pre.entry_data(i)
            && post.dirty_at(i) == pre.dirty_at(i) && post.pin_of(i) == pre.pin_of(i) by {
            let kp = pre.slot_of(i);
            assert(0 <= kp < pre.slots@.len() && pre.slots@[kp].cache.id() == i);
            assert(kp != k);
            assert(post.slots@[kp] == pre.slots@[kp]);
            post.lemma_slot_unique(kp);
        }
    }

    /// Position of block `block_id` in the pool, if it is resident.
    fn find(&self, block_id: usize) -> (r: Option<usize>)
        requires
            self.wf(),
        ensures
            match r {
                Some(k) => k < self.slots@.len() && self.slots@[k as int].cache.id()
                    == block_id as nat && self.resident(block_id as nat) && self.slot_of(
                    block_id as nat,
                ) == k,
                None => !self.resident(block_id as nat),
            },
    {
        let mut k: usize = 0;
        while k < self.slots.len()
            invariant
                self.wf(),
                k <= self.slots@.len(),
                forall|j: int|
                    0 <= j < k ==> (#[trigger] self.slots@[j]).cache.id() != block_id as nat,
            decreases self.slots@.len() - k,
        {
            if self.slots[k].cache.block_id == block_id {
                proof {
                    self.lemma_slot_unique(k as int);
                }
                return Some(k);
            }
            k += 1;
        }
        None
    }

    /// With room available, any block at all can be obtained.
    pub proof fn lemma_has_room_can_obtain(&self, id: nat)
        requires
            self.wf(),
            self.has_room(),
        ensures
            self.can_obtain(id),
    {
    }

    /// With no handle outstanding there is always room: either a free slot,
    /// or a non-empty pool in which everything is evictable.
    pub proof fn lemma_no_pins_has_room(&self)
        requires
            self.wf(),
            self.no_pins(),
        ensures
            self.has_room(),
    {
        if self.count() >= BLOCK_CACHE_SIZE {
            self.lemma_slot_unique(0);
            let i0 = self.slots@[0].cache.id();
            assert(self.resident(i0) && self.pin_of(i0) == 0);
        }
    }

    /// The pool never exceeds its capacity.
    pub proof fn lemma_count_within_capacity(&self)
        requires
            self.wf(),
        ensures
            self.count() <= BLOCK_CACHE_SIZE,
    {
    }

    /// A block is resident exactly when its id stands in the FIFO order.
    pub proof fn lemma_resident_iff_listed(&self, id: nat)
        ensures
            self.resident(id) <==> self.ids().contains(id),
    {
        if self.resident(id) {
            let k = self.slot_of(id);
            assert(self.ids()[k] == id);
        }
        if self.ids().contains(id) {
            let k = choose|k: int| 0 <= k < self.ids().len() && self.ids()[k] == id;
            assert(self.slots@[k].cache.id() == id);
        }
    }

    /// The position-keyed pin count agrees with the id-keyed one.
    pub proof fn lemma_pin_at_is_pin_of(&self, k: int)
        requires
            self.wf(),
            0 <= k < self.count(),
        ensures
            self.pin_at(k) == self.pin_of(self.ids()[k]),
    {
        self.lemma_slot_unique(k);
    }

    /// A block that is not resident has no outstanding handle.
    pub proof fn lemma_absent_unpinned(&self, id: nat)
        requires
            !self.resident(id),
        ensures
            self.pin_of(id) == 0,
    {
    }

    /// Make block `block_id` resident and return its slot position, evicting
    /// the oldest unpinned block (after write-back) when the pool is full.
    fn obtain<D: BlockDevice>(&mut self, block_id: usize, device: &mut D) -> (k: usize)
        requires
            old(self).wf(),
            old(self).consistent_with(*old(device)),
            old(self).can_obtain(block_id as nat),
        ensures
            final(self).wf(),
            final(self).consistent_with(*final(device)),
            final(self).resident(block_id as nat),
            k < final(self).slots@.len(),
            final(self).slots@[k as int].cache.id() == block_id as nat,
            final(self).slot_of(block_id as nat) == k as int,
            forall|i: nat|
                final(self).view_of(*final(device), i) == old(self).view_of(*old(device), i),
            forall|i: nat| final(self).pin_of(i) == old(self).pin_of(i),
            final(self).entry_data(block_id as nat) == old(self).view_of(
                *old(device),
                block_id as nat,
            ),
            final(self).dirty_at(block_id as nat) == (old(self).resident(block_id as nat)
                && old(self).dirty_at(block_id as nat)),
            forall|i: nat|
                i != block_id as nat && old(self).resident(i) && final(self).resident(i)
                    ==> final(self).entry_data(i) == old(self).entry_data(i)
                    && final(self).dirty_at(i) == old(self).dirty_at(i),
            forall|i: nat|
                old(self).resident(i) && old(self).pin_of(i) > 0 ==> final(self).resident(i),
            forall|i: nat|
                final(self).resident(i) ==> i == block_id as nat || old(self).resident(i),
            old(self).resident(block_id as nat) ==> final(self).ids() == old(self).ids()
                && *final(device) == *old(device),
            !old(self).resident(block_id as nat) && old(self).count() < BLOCK_CACHE_SIZE
                ==> final(self).ids() == old(self).ids().push(block_id as nat)
                && *final(device) == *old(device),
            !old(self).resident(block_id as nat) && old(self).count() == BLOCK_CACHE_SIZE
                ==> exists|j: int|
                    0 <= j < old(self).ids().len() && old(self).pin_at(j) == 0
                        && (forall|l: int| 0 <= l < j ==> old(self).pin_at(l) > 0)
                        && final(self).ids() == old(self).ids().remove(j).push(
                        block_id as nat,
                    ),
    {
        let found = self.find(block_id);
        match found {
            Some(k) => {
                proof {
                    assert(old(self).resident(block_id as nat));
                }
                k
            },
            None => {
                let ghost s0 = *self;
                let ghost d0 = *device;
                let ghost mut evicted_at: int = 0;
                if self.slots.len() == BLOCK_CACHE_SIZE {
                    let mut j: usize = 0;
                    while j < self.slots.len() && self.slots[j].pins > 0
                        invariant
                            self.wf(),
                            *self == s0,
                            j <= self.slots@.len(),
                            forall|l: int| 0 <= l < j ==> self.pin_at(l) > 0,
                        decreases self.slots@.len() - j,
                    {
                        j += 1;
                    }
                    proof {
                        if j >= self.slots@.len() {
                            let i0 = choose|i: nat|
                                self.resident(i) && #[trigger] self.pin_of(i) == 0;
                            let p0 = self.slot_of(i0);
                            assert(0 <= p0 < self.slots@.len());
                            assert(self.pin_at(p0) > 0);
                            assert(false);
                        }
                    }
                    proof {
                        evicted_at = j as int;
                    }
                    let ghost victim = self.slots@[j as int].cache.id();
                    let mut slot = self.slots.remove(j);
                    proof {
                        Self::lemma_remove_slot(s0, *self, j as int);
                        assert(victim != block_id as nat);
                    }
                    slot.cache.sync(device);
                    proof {
                        assert forall|i: nat|
                            self.resident(i) && !(#[trigger] self.dirty_at(i))
                                implies self.entry_data(i) == device.block_data(i) by {
                            assert(i != victim);
                            assert(s0.resident(i) && s0.dirty_at(i) == self.dirty_at(i));
                            assert(device.block_data(i) == d0.block_data(i));
                        }
                        assert forall|i: nat|
                            self.view_of(*device, i) == s0.view_of(d0, i) by {
                            if i == victim {
                                assert(!self.resident(i));
                                if s0.dirty_at(victim) {
                                    assert(device.block_data(victim) == slot.cache.data());
                                } else {
                                    assert(device.block_data(victim) == d0.block_data(
                                        victim,
                                    ));
                                    assert(s0.entry_data(victim) == d0.block_data(victim));
                                }
                            } else if self.resident(i) {
                                assert(s0.resident(i));
                            } else {
                                assert(device.block_data(i) == d0.block_data(i));
                            }
                        }
                    }
                }
                let ghost s2 = *self;
                let ghost d2 = *device;
                let c = BlockCache::new(block_id, device);
                let newslot = CacheSlot { cache: c, pins: 0 };
                let ghost snap = newslot;
                self.slots.push(newslot);
                proof {
                    Self::lemma_push_slot(s2, *self, snap);
                    assert forall|i: nat|
                        self.view_of(*device, i) == s0.view_of(d0, i) by {
                        if i == block_id as nat {
                            assert(self.entry_data(i) == d2.block_data(i));
                            assert(s2.view_of(d2, i) == s0.view_of(d0, i));
                        } else if self.resident(i) {
                            assert(s2.resident(i));
                            assert(s2.view_of(d2, i) == s0.view_of(d0, i));
                        } else {
                            assert(!s2.resident(i));
                            assert(s2.view_of(d2, i) == s0.view_of(d0, i));
                        }
                    }
                    assert forall|i: nat| self.pin_of(i) == s0.pin_of(i) by {
                        if i == block_id as nat {
                            assert(s0.pin_of(i) == 0);
                        }
                    }
                    if !s0.resident(block_id as nat) && s0.count() == BLOCK_CACHE_SIZE {
                        let j = evicted_at;
                        assert(self.ids() == s2.ids().push(block_id as nat));
                        assert(0 <= j < s0.ids().len() && s0.pin_at(j) == 0 && (forall|
                            l: int,
                        |
                            0 <= l < j ==> s0.pin_at(l) > 0) && self.ids() == s0.ids().remove(
                            j,
                        ).push(block_id as nat));
                    }
                    self.lemma_slot_unique(self.slots@.len() - 1);
                }
                self.slots.len() - 1
            },
        }
    }

    /// Room survives an obtain that leaves every pin count unchanged: a hit
    /// changes nothing, and a load leaves the loaded block itself unpinned.
    proof fn lemma_room_after_obtain(&self, pre: Self, id: nat)
        requires
            pre.has_room(),
            self.resident(id),
            forall|i: nat| self.pin_of(i) == pre.pin_of(i),
            pre.resident(id) ==> self.ids() == pre.ids(),
        ensures
            self.has_room(),
    {
        if pre.resident(id) {
            if pre.count() < BLOCK_CACHE_SIZE {
            } else {
                let j = choose|i: nat| pre.resident(i) && #[trigger] pre.pin_of(i) == 0;
                pre.lemma_resident_iff_listed(j);
                self.lemma_resident_iff_listed(j);
                assert(self.resident(j) && self.pin_of(j) == 0);
            }
        } else {
            assert(pre.pin_of(id) == 0);
            assert(self.resident(id) && self.pin_of(id) == 0);
        }
    }

    /// Whether block `block_id` is currently cached.
    pub fn is_resident(&self, block_id: usize) -> (r: bool)
        requires
            self.wf(),
        ensures
            r == self.resident(block_id as nat),
    {
        match self.find(block_id) {
            Some(_) => true,
            None => false,
        }
    }

    /// The authoritative content of every block is one whole block.
    pub proof fn lemma_view_len<D: BlockDevice>(&self, device: D, id: nat)
        requires
            self.wf(),
        ensures
            self.view_of(device, id).len() == BLOCK_SIZE,
    {
        if self.resident(id) {
            let k = self.slot_of(id);
            assert(self.slots@[k].cache.wf());
        } else {
            device.block_data_len(id);
        }
    }

    /// Obtain a pinned handle to block `block_id`: after the call the block
    /// is resident and stays so until the matching `release_block_cache`.
    /// On a miss the block is loaded from the device, evicting (with
    /// write-back) the oldest unpinned block when the pool is full.
    pub fn get_block_cache<D: BlockDevice>(&mut self, block_id: usize, device: &mut D)
        requires
            old(self).wf(),
            old(self).consistent_with(*old(device)),
            old(self).can_obtain(block_id as nat),
            old(self).pin_of(block_id as nat) < usize::MAX,
        ensures
            final(self).wf(),
            final(self).consistent_with(*final(device)),
            final(self).resident(block_id as nat),
            final(self).pin_of(block_id as nat) == old(self).pin_of(block_id as nat) + 1,
            forall|i: nat|
                i != block_id as nat ==> final(self).pin_of(i) == old(self).pin_of(i),
            forall|i: nat|
                final(self).view_of(*final(device), i) == old(self).view_of(*old(device), i),
            final(self).entry_data(block_id as nat) == old(self).view_of(
                *old(device),
                block_id as nat,
            ),
            final(self).dirty_at(block_id as nat) == (old(self).resident(block_id as nat)
                && old(self).dirty_at(block_id as nat)),
            forall|i: nat|
                i != block_id as nat && old(self).resident(i) && final(self).resident(i)
                    ==> final(self).entry_data(i) == old(self).entry_data(i)
                    && final(self).dirty_at(i) == old(self).dirty_at(i),
            forall|i: nat|
                old(self).resident(i) && old(self).pin_of(i) > 0 ==> final(self).resident(i),
            forall|i: nat|
                final(self).resident(i) ==> i == block_id as nat || old(self).resident(i),
            old(self).resident(block_id as nat) ==> final(self).ids() == old(self).ids()
                && *final(device) == *old(device),
            !old(self).resident(block_id as nat) && old(self).count() < BLOCK_CACHE_SIZE
                ==> final(self).ids() == old(self).ids().push(block_id as nat)
                && *final(device) == *old(device),
            !old(self).resident(block_id as nat) && old(self).count() == BLOCK_CACHE_SIZE
                ==> exists|j: int|
                    0 <= j < old(self).ids().len() && old(self).pin_at(j) == 0
                        && (forall|l: int| 0 <= l < j ==> old(self).pin_at(l) > 0)
                        && final(self).ids() == old(self).ids().remove(j).push(
                        block_id as nat,
                    ),
    {
        let k = self.obtain(block_id, device);
        let ghost mid = *self;
        let mut slot = self.slots.remove(k);
        proof {
            assert(mid.pin_of(block_id as nat) == slot.pins);
        }
        slot.pins = slot.pins + 1;
        let ghost snap = slot;
        self.slots.insert(k, slot);
        proof {
            assert(self.slots@ =~= mid.slots@.update(k as int, snap));
            Self::lemma_update_slot(mid, *self, k as int, snap);
        }
    }

    /// Obtain a pinned handle if the request can be served, reporting whether
    /// it could; unlike `get_block_cache` it never requires an evictable
    /// block to exist.
    pub fn try_get_block_cache<D: BlockDevice>(&mut self, block_id: usize, device: &mut D) -> (ok:
        bool)
        requires
            old(self).wf(),
            old(self).consistent_with(*old(device)),
            old(self).pin_of(block_id as nat) < usize::MAX,
        ensures
            ok == old(self).can_obtain(block_id as nat),
            !ok ==> *final(self) == *old(self) && *final(device) == *old(device),
            ok ==> final(self).wf() && final(self).consistent_with(*final(device))
                && final(self).resident(block_id as nat) && final(self).pin_of(
                block_id as nat,
            ) == old(self).pin_of(block_id as nat) + 1 && (forall|i: nat|
                i != block_id as nat ==> final(self).pin_of(i) == old(self).pin_of(i))
                && (forall|i: nat|
                final(self).view_of(*final(device), i) == old(self).view_of(
                    *old(device),
                    i,
                )),
    {
        let resident = self.is_resident(block_id);
        let mut can: bool = resident || self.slots.len() < BLOCK_CACHE_SIZE;
        if !can {
            let mut j: usize = 0;
            let mut found: bool = false;
            while j < self.slots.len() && !found
                invariant
                    self.wf(),
                    j <= self.slots@.len(),
                    found ==> exists|i: nat|
                        self.resident(i) && #[trigger] self.pin_of(i) == 0,
                    !found ==> forall|l: int| 0 <= l < j ==> self.pin_at(l) > 0,
                decreases self.slots@.len() - j + (if found {
                    0int
                } else {
                    1int
                }),
            {
                if self.slots[j].pins == 0 {
                    proof {
                        self.lemma_slot_unique(j as int);
                        let i0 = self.slots@[j as int].cache.id();
                        assert(self.resident(i0) && self.pin_of(i0) == 0);
                    }
                    found = true;
                } else {
                    j += 1;
                }
            }
            can = found;
            proof {
                if !found {
                    if exists|i: nat| self.resident(i) && #[trigger] self.pin_of(i) == 0 {
                        let i0 = choose|i: nat|
                            self.resident(i) && #[trigger] self.pin_of(i) == 0;
                        let p0 = self.slot_of(i0);
                        assert(self.pin_at(p0) > 0);
                        assert(false);
                    }
                }
            }
        }
        if can {
            self.get_block_cache(block_id, device);
        }
        can
    }

    /// Release one pinned handle to block `block_id`.
    pub fn release_block_cache(&mut self, block_id: usize)
        requires
            old(self).wf(),
            old(self).pin_of(block_id as nat) > 0,
        ensures
            final(self).wf(),
            final(self).pin_of(block_id as nat) == old(self).pin_of(block_id as nat) - 1,
            forall|i: nat|
                i != block_id as nat ==> final(self).pin_of(i) == old(self).pin_of(i),
            final(self).ids() == old(self).ids(),
            forall|i: nat| final(self).resident(i) == old(self).resident(i),
            forall|i: nat|
                old(self).resident(i) ==> final(self).entry_data(i) == old(self).entry_data(i)
                    && final(self).dirty_at(i) == old(self).dirty_at(i),
    {
        let ghost mid = *self;
        let found = self.find(block_id);
        match found {
            Some(k) => {
                let mut slot = self.slots.remove(k);
                proof {
                    assert(mid.pin_of(block_id as nat) == slot.pins);
                }
                slot.pins = slot.pins - 1;
                let ghost snap = slot;
                self.slots.insert(k, slot);
                proof {
                    assert(self.slots@ =~= mid.slots@.update(k as int, snap));
                    Self::lemma_update_slot(mid, *self, k as int, snap);
                }
            },
            None => {
                proof {
                    assert(false);
                }
            },
        }
    }

    /// Read `len` bytes at `offset` within block `block_id`, through the
    /// cache. Loads the block on a miss; leaves all pin counts unchanged.
    pub fn read_bytes<D: BlockDevice>(
        &mut self,
        block_id: usize,
        offset: usize,
        len: usize,
        device: &mut D,
    ) -> (r: Vec<u8>)
        requires
            old(self).wf(),
            old(self).consistent_with(*old(device)),
            old(self).can_obtain(block_id as nat),
            offset + len <= BLOCK_SIZE,
        ensures
            final(self).wf(),
            final(self).consistent_with(*final(device)),
            final(self).resident(block_id as nat),
            r@ == old(self).view_of(*old(device), block_id as nat).subrange(
                offset as int,
                offset + len,
            ),
            forall|i: nat|
                final(self).view_of(*final(device), i) == old(self).view_of(*old(device), i),
            forall|i: nat| final(self).pin_of(i) == old(self).pin_of(i),
            forall|i: nat|
                old(self).resident(i) && old(self).pin_of(i) > 0 ==> final(self).resident(i),
            forall|i: nat|
                final(self).resident(i) ==> final(self).dirty_at(i) == (old(self).resident(i)
                    && old(self).dirty_at(i)),
            old(self).has_room() ==> final(self).has_room(),
    {
        let k = self.obtain(block_id, device);
        proof {
            if old(self).has_room() {
                self.lemma_room_after_obtain(*old(self), block_id as nat);
            }
        }
        let r = self.slots[k].cache.read(offset, len);
        r
    }

    /// Overwrite the bytes at `offset` within block `block_id` with `data`,
    /// through the cache. The block is marked dirty, not written to the
    /// device; all pin counts are unchanged.
    pub fn write_bytes<D: BlockDevice>(
        &mut self,
        block_id: usize,
        offset: usize,
        data: &Vec<u8>,
        device: &mut D,
    )
        requires
            old(self).wf(),
            old(self).consistent_with(*old(device)),
            old(self).can_obtain(block_id as nat),
            offset + data@.len() <= BLOCK_SIZE,
        ensures
            final(self).wf(),
            final(self).consistent_with(*final(device)),
            final(self).resident(block_id as nat),
            final(self).view_of(*final(device), block_id as nat) == splice_bytes(
                old(self).view_of(*old(device), block_id as nat),
                offset as int,
                data@,
            ),
            final(self).dirty_at(block_id as nat),
            forall|i: nat|
                i != block_id as nat ==> final(self).view_of(*final(device), i) == old(
                    self,
                ).view_of(*old(device), i),
            forall|i: nat| final(self).pin_of(i) == old(self).pin_of(i),
            forall|i: nat|
                old(self).resident(i) && old(self).pin_of(i) > 0 ==> final(self).resident(i),
            forall|i: nat|
                i != block_id as nat && old(self).resident(i) && final(self).resident(i)
                    ==> final(self).dirty_at(i) == old(self).dirty_at(i),
            old(self).has_room() ==> final(self).has_room(),
    {
        let k = self.obtain(block_id, device);
        proof {
            if old(self).has_room() {
                self.lemma_room_after_obtain(*old(self), block_id as nat);
            }
        }
        let ghost mid = *self;
        let ghost dmid = *device;
        let mut slot = self.slots.remove(k);
        slot.cache.modify(offset, data);
        let ghost snap = slot;
        self.slots.insert(k, slot);
        proof {
            assert(self.slots@ =~= mid.slots@.update(k as int, snap));
            Self::lemma_update_slot(mid, *self, k as int, snap);
            assert(self.entry_data(block_id as nat) == splice_bytes(
                mid.entry_data(block_id as nat),
                offset as int,
                data@,
            ));
            assert forall|i: nat|
                self.resident(i) && !(#[trigger] self.dirty_at(i)) implies self.entry_data(i)
                == device.block_data(i) by {
                assert(i != block_id as nat);
                assert(mid.resident(i) && !mid.dirty_at(i));
            }
        }
    }

    /// Write every dirty cached block back to the device; afterwards the
    /// device holds the authoritative content of every block. Evicts nothing
    /// and leaves all pin counts unchanged.
    pub fn sync_all<D: BlockDevice>(&mut self, device: &mut D)
        requires
            old(self).wf(),
            old(self).consistent_with(*old(device)),
        ensures
            final(self).wf(),
            final(self).consistent_with(*final(device)),
            final(self).ids() == old(self).ids(),
            forall|i: nat| final(self).resident(i) == old(self).resident(i),
            forall|i: nat| final(self).pin_of(i) == old(self).pin_of(i),
            forall|i: nat|
                final(self).view_of(*final(device), i) == old(self).view_of(*old(device), i),
            forall|i: nat|
                final(device).block_data(i) == old(self).view_of(*old(device), i),
            forall|i: nat| old(self).resident(i) ==> !final(self).dirty_at(i),
    {
        let mut k: usize = 0;
        while k < self.slots.len()
            invariant
                self.wf(),
                self.consistent_with(*device),
                k <= self.slots@.len(),
                self.ids() == old(self).ids(),
                forall|i: nat| self.resident(i) == old(self).resident(i),
                forall|i: nat| self.pin_of(i) == old(self).pin_of(i),
                forall|i: nat|
                    self.view_of(*device, i) == old(self).view_of(*old(device), i),
                forall|i: nat|
                    !self.resident(i) ==> device.block_data(i) == old(device).block_data(i),
                forall|j: int| 0 <= j < k ==> !(#[trigger] self.slots@[j]).cache.dirty(),
                forall|j: int|
                    0 <= j < k ==> device.block_data((#[trigger] self.slots@[j]).cache.id())
                        == self.slots@[j].cache.data(),
            decreases self.slots@.len() - k,
        {
            let ghost pre = *self;
            let ghost dpre = *device;
            let mut slot = self.slots.remove(k);
            slot.cache.sync(device);
            let ghost snap = slot;
            self.slots.insert(k, slot);
            proof {
                assert(self.slots@ =~= pre.slots@.update(k as int, snap));
                Self::lemma_update_slot(pre, *self, k as int, snap);
                pre.lemma_slot_unique(k as int);
                let sid = pre.slots@[k as int].cache.id();
                assert forall|j: int|
                    0 <= j <= k implies device.block_data((#[trigger] self.slots@[j]).cache.id())
                    == self.slots@[j].cache.data() by {
                    if j < k {
                        assert(self.slots@[j] == pre.slots@[j]);
                        assert(self.slots@[j].cache.id() != sid);
                        assert(device.block_data(self.slots@[j].cache.id()) == dpre.block_data(
                            self.slots@[j].cache.id(),
                        ));
                    } else {
                        if pre.slots@[k as int].cache.dirty() {
                            assert(device.block_data(sid) == snap.cache.data());
                        } else {
                            assert(*device == dpre);
                            assert(!pre.dirty_at(sid) && pre.resident(sid));
                            assert(pre.entry_data(sid) == dpre.block_data(sid));
                        }
                    }
                }
                assert forall|i: nat|
                    self.resident(i) && !(#[trigger] self.dirty_at(i)) implies self.entry_data(i)
                    == device.block_data(i) by {
                    if i == sid {
                        assert(self.slot_of(i) == k as int);
                    } else {
                        assert(pre.resident(i) && !pre.dirty_at(i));
                        assert(device.block_data(i) == dpre.block_data(i));
                    }
                }
                assert forall|i: nat|
                    self.view_of(*device, i) == old(self).view_of(*old(device), i) by {
                    if self.resident(i) {
                        assert(pre.view_of(dpre, i) == old(self).view_of(*old(device), i));
                        if i == sid {
                            assert(self.entry_data(i) == pre.entry_data(i));
                        } else {
                            assert(self.entry_data(i) == pre.entry_data(i));
                        }
                    } else {
                        assert(device.block_data(i) == dpre.block_data(i));
                        assert(pre.view_of(dpre, i) == old(self).view_of(*old(device), i));
                    }
                }
                assert forall|i: nat|
                    !self.resident(i) implies device.block_data(i) == old(device).block_data(
                    i,
                ) by {
                    assert(device.block_data(i) == dpre.block_data(i));
                }
            }
            k += 1;
        }
        proof {
            assert forall|i: nat|
                final(device).block_data(i) == old(self).view_of(*old(device), i) by {
                if self.resident(i) {
                    let j = self.slot_of(i);
                    assert(device.block_data(self.slots@[j].cache.id())
                        == self.slots@[j].cache.data());
                    assert(self.view_of(*device, i) == self.entry_data(i));
                } else {
                    assert(device.block_data(i) == old(device).block_data(i));
                }
            }
            assert forall|i: nat| old(self).resident(i) implies !self.dirty_at(i) by {
                let j = self.slot_of(i);
                assert(!self.slots@[j].cache.dirty());
            }
        }
    }
}

/// Flush every dirty cached block of `manager` to the device: the explicit
/// global checkpoint hook. Nothing is evicted.
pub fn block_cache_syn_all<D: BlockDevice>(manager: &mut BlockCacheManager, device: &mut D)
    requires
        old(manager).wf(),
        old(manager).consistent_with(*old(device)),
    ensures
        final(manager).wf(),
        final(manager).consistent_with(*final(device)),
        final(manager).ids() == old(manager).ids(),
        forall|i: nat| final(manager).resident(i) == old(manager).resident(i),
        forall|i: nat| final(manager).pin_of(i) == old(manager).pin_of(i),
        forall|i: nat|
            final(manager).view_of(*final(device), i) == old(manager).view_of(
                *old(device),
                i,
            ),
        forall|i: nat|
            final(device).block_data(i) == old(manager).view_of(*old(device), i),
        forall|i: nat| old(manager).resident(i) ==> !final(manager).dirty_at(i),
{
    manager.sync_all(device);
}

} // verus!
