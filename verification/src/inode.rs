//! The on-disk inode and its three-tier block index: direct slots, a single
//! indirect block, and a double indirect block, mapping a file's logical
//! blocks to raw block ids. Byte-level reads and writes run on top of the
//! block cache.
use vstd::prelude::*;

use vstd::arithmetic::div_mod::{lemma_div_is_ordered, lemma_fundamental_div_mod};
use vstd::bytes::{lemma_auto_spec_u32_to_from_le_bytes, spec_u32_to_le_bytes, u32_to_le_bytes};

use crate::block_cache::{splice_bytes, BlockCacheManager};
use crate::block_dev::BlockDevice;
use crate::layout::le32_at;
use crate::BLOCK_SIZE;

verus! {

/// Number of direct block slots in an inode.
pub const INODE_DIRECT_COUNT: usize = 28;

/// Number of block ids held by one indirect block (512 bytes / 4).
pub const INODE_INDIRECT1_COUNT: usize = 128;

/// First logical block index served by the single indirect block.
pub const DIRECT_BOUND: usize = 28;

/// First logical block index served by the double indirect block.
pub const INDIRECT1_BOUND: usize = 156;

/// Greatest number of data blocks an inode can index:
/// 28 direct + 128 indirect + 128 * 128 double indirect.
pub const INODE_MAX_BLOCKS: usize = 16540;

/// Greatest file size in bytes: `INODE_MAX_BLOCKS` whole blocks.
pub const INODE_MAX_SIZE: u32 = 8468480;

/// Whether a file or a directory is described.
#[derive(PartialEq, Eq, Structural, Clone, Copy, Debug)]
pub enum DiskInodeType {
    File,
    Directory,
}

/// The whole disk as the cache and the device together present it: block id
/// to block content.
pub open spec fn disk_view<D: BlockDevice>(cm: BlockCacheManager, d: D) -> Map<nat, Seq<u8>> {
    Map::new(|i: nat| true, |i: nat| cm.view_of(d, i))
}

/// Number of data blocks holding a file of `size` bytes.
pub open spec fn blocks_for_size(size: nat) -> nat {
    (size + 511) / 512
}

/// Number of blocks, index blocks included, consumed by a file of `n` data
/// blocks: the data blocks, one indirect block once the direct slots are
/// exceeded, and — past the indirect block — the double indirect block plus
/// one second-level index block per 128 further data blocks.
pub open spec fn total_for_blocks(n: nat) -> nat {
    n + (if n > 28 {
        1nat
    } else {
        0nat
    }) + (if n > 156 {
        (1 + (n - 156 + 127) / 128) as nat
    } else {
        0nat
    })
}

/// The `k`-th block id recorded in index block content `b`.
pub open spec fn entry_of(b: Seq<u8>, k: int) -> u32 {
    le32_at(b, 4 * k)
}

/// An indexed inode: the file size in bytes, 28 direct block ids, the id of
/// the indirect block, the id of the double indirect block, and the kind.
pub struct DiskInode {
    pub size: u32,
    pub direct: Vec<u32>,
    pub indirect1: u32,
    pub indirect2: u32,
    pub kind: DiskInodeType,
}

impl DiskInode {
    /// The direct table holds exactly its 28 slots and the size is within
    /// what the index can address.
    pub open spec fn wf(&self) -> bool {
        self.direct@.len() == INODE_DIRECT_COUNT && self.size <= INODE_MAX_SIZE
    }

    /// Number of data blocks backing the current size.
    pub open spec fn spec_data_blocks(&self) -> nat {
        blocks_for_size(self.size as nat)
    }

    /// The block id backing logical block `i`, resolved through the index
    /// tiers as recorded on disk view `dv`.
    pub open spec fn spec_block_id(&self, dv: Map<nat, Seq<u8>>, i: int) -> u32 {
        if i < 28 {
            self.direct@[i]
        } else if i < 156 {
            entry_of(dv[self.indirect1 as nat], i - 28)
        } else {
            entry_of(
                dv[entry_of(dv[self.indirect2 as nat], (i - 156) / 128) as nat],
                (i - 156) % 128,
            )
        }
    }

    /// The index blocks that become reachable when logical block `i` is
    /// first used: the indirect block at the direct boundary, the double
    /// indirect block and the first second-level block at the indirect
    /// boundary, and a fresh second-level block at every 128 blocks beyond.
    pub open spec fn meta_step(&self, dv: Map<nat, Seq<u8>>, i: int) -> Seq<u32> {
        if i == 28 {
            seq![self.indirect1]
        } else if i == 156 {
            seq![self.indirect2, entry_of(dv[self.indirect2 as nat], 0)]
        } else if i > 156 && (i - 156) % 128 == 0 {
            seq![entry_of(dv[self.indirect2 as nat], (i - 156) / 128)]
        } else {
            Seq::empty()
        }
    }

    /// Every block id consumed to hold the first `n` data blocks, index
    /// blocks included, in the order the tiers are walked: each step lists
    /// the index blocks that the data block makes reachable, then the data
    /// block itself.
    pub open spec fn spec_block_seq(&self, dv: Map<nat, Seq<u8>>, n: int) -> Seq<u32>
        decreases n,
    {
        if n <= 0 {
            Seq::empty()
        } else {
            self.spec_block_seq(dv, n - 1) + self.meta_step(dv, n - 1) + seq![
                self.spec_block_id(dv, n - 1),
            ]
        }
    }

    /// The byte at file offset `p`.
    pub open spec fn byte_at(&self, dv: Map<nat, Seq<u8>>, p: int) -> u8 {
        dv[self.spec_block_id(dv, p / 512) as nat][p % 512]
    }

    /// A zero-initialized inode of the given kind.
    pub fn new(kind: DiskInodeType) -> (ino: Self)
        ensures
            ino.wf(),
            ino.size == 0,
            ino.indirect1 == 0,
            ino.indirect2 == 0,
            ino.kind == kind,
            forall|i: int| 0 <= i < 28 ==> ino.direct@[i] == 0,
    {
        let mut direct: Vec<u32> = Vec::new();
        while direct.len() < INODE_DIRECT_COUNT
            invariant
                direct@.len() <= 28,
                forall|i: int| 0 <= i < direct@.len() ==> direct@[i] == 0u32,
            decreases 28 - direct@.len(),
        {
            direct.push(0u32);
        }
        DiskInode { size: 0, direct, indirect1: 0, indirect2: 0, kind }
    }

    /// Reset every field: size and index zeroed, kind as given.
    pub fn initialize(&mut self, kind: DiskInodeType)
        ensures
            final(self).wf(),
            final(self).size == 0,
            final(self).indirect1 == 0,
            final(self).indirect2 == 0,
            final(self).kind == kind,
            forall|i: int| 0 <= i < 28 ==> final(self).direct@[i] == 0,
    {
        *self = Self::new(kind);
    }

    /// Whether this inode describes a directory.
    pub fn is_dir(&self) -> (r: bool)
        ensures
            r == (self.kind == DiskInodeType::Directory),
    {
        self.kind == DiskInodeType::Directory
    }

    /// Whether this inode describes a plain file.
    pub fn is_file(&self) -> (r: bool)
        ensures
            r == (self.kind == DiskInodeType::File),
    {
        self.kind == DiskInodeType::File
    }

    /// Number of data blocks backing the current size.
    pub fn data_blocks(&self) -> (r: u32)
        requires
            self.wf(),
        ensures
            r == self.spec_data_blocks(),
    {
        Self::blocks_of_size(self.size)
    }

    /// Number of data blocks needed for `size` bytes, rounding up.
    fn blocks_of_size(size: u32) -> (r: u32)
        requires
            size <= INODE_MAX_SIZE,
        ensures
            r == blocks_for_size(size as nat),
    {
        (size + (BLOCK_SIZE as u32) - 1) / (BLOCK_SIZE as u32)
    }

    /// Number of blocks, index blocks included, consumed by a file of
    /// `size` bytes.
    pub fn total_blocks(size: u32) -> (r: u32)
        requires
            size <= INODE_MAX_SIZE,
        ensures
            r == total_for_blocks(blocks_for_size(size as nat)),
    {
        let data = Self::blocks_of_size(size);
        let mut total = data;
        if data > (INODE_DIRECT_COUNT as u32) {
            total = total + 1;
        }
        if data > (INDIRECT1_BOUND as u32) {
            total = total + 1 + (data - (INDIRECT1_BOUND as u32) + (INODE_INDIRECT1_COUNT as u32)
                - 1) / (INODE_INDIRECT1_COUNT as u32);
        }
        total
    }

    /// How many fresh blocks, index blocks included, growing to `new_size`
    /// consumes.
    pub fn block_num_needed(&self, new_size: u32) -> (r: u32)
        requires
            self.wf(),
            new_size >= self.size,
            new_size <= INODE_MAX_SIZE,
        ensures
            r == total_for_blocks(blocks_for_size(new_size as nat)) - total_for_blocks(
                self.spec_data_blocks(),
            ),
    {
        proof {
            lemma_total_blocks_monotonic(self.size as nat, new_size as nat);
        }
        Self::total_blocks(new_size) - Self::total_blocks(self.size)
    }

    /// Resolve logical block `inner_id` to the raw block id backing it,
    /// walking the direct slots, the indirect block or the double indirect
    /// index as the position requires.
    pub fn get_block_id<D: BlockDevice>(
        &self,
        inner_id: u32,
        cache: &mut BlockCacheManager,
        device: &mut D,
    ) -> (r: u32)
        requires
            self.wf(),
            inner_id < self.spec_data_blocks(),
            old(cache).wf(),
            old(cache).consistent_with(*old(device)),
            old(cache).has_room(),
        ensures
            final(cache).wf(),
            final(cache).consistent_with(*final(device)),
            final(cache).has_room(),
            forall|i: nat| final(cache).pin_of(i) == old(cache).pin_of(i),
            forall|i: nat|
                final(cache).resident(i) && final(cache).dirty_at(i) ==> old(cache).resident(i)
                    && old(cache).dirty_at(i),
            forall|i: nat|
                final(cache).view_of(*final(device), i) == old(cache).view_of(
                    *old(device),
                    i,
                ),
            r == self.spec_block_id(
                disk_view(*old(cache), *old(device)),
                inner_id as int,
            ),
    {
        let ghost dv = disk_view(*old(cache), *old(device));
        if inner_id < (INODE_DIRECT_COUNT as u32) {
            self.direct[inner_id as usize]
        } else if inner_id < (INDIRECT1_BOUND as u32) {
            let r = read_index_entry(
                cache,
                self.indirect1,
                (inner_id as usize) - INODE_DIRECT_COUNT,
                device,
            );
            proof {
                assert(dv[self.indirect1 as nat] == old(cache).view_of(
                    *old(device),
                    self.indirect1 as nat,
                ));
            }
            r
        } else {
            let last = (inner_id as usize) - INDIRECT1_BOUND;
            let sl = read_index_entry(
                cache,
                self.indirect2,
                last / INODE_INDIRECT1_COUNT,
                device,
            );
            let ghost cm1 = *cache;
            let ghost d1 = *device;
            let r = read_index_entry(cache, sl, last % INODE_INDIRECT1_COUNT, device);
            proof {
                assert(dv[self.indirect2 as nat] == old(cache).view_of(
                    *old(device),
                    self.indirect2 as nat,
                ));
                assert(sl == entry_of(dv[self.indirect2 as nat], (last as int) / 128));
                assert(cm1.view_of(d1, sl as nat) == old(cache).view_of(
                    *old(device),
                    sl as nat,
                ));
                assert(dv[sl as nat] == old(cache).view_of(*old(device), sl as nat));
                assert(r == entry_of(dv[sl as nat], (last as int) % 128));
            }
            r
        }
    }

    /// Copy bytes from file offset `offset` into `buf`, stopping at the end
    /// of `buf` or of the file; the tail of `buf` past what was read is left
    /// untouched. Returns the number of bytes read: 0 when `offset` is at or
    /// past the end. Never reads past the current size.
    #[verifier::loop_isolation(false)]
    pub fn read_at<D: BlockDevice>(
        &self,
        offset: usize,
        buf: &mut Vec<u8>,
        cache: &mut BlockCacheManager,
        device: &mut D,
    ) -> (n: usize)
        requires
            self.wf(),
            offset + old(buf)@.len() <= usize::MAX,
            old(cache).wf(),
            old(cache).consistent_with(*old(device)),
            old(cache).has_room(),
        ensures
            final(cache).wf(),
            final(cache).consistent_with(*final(device)),
            final(cache).has_room(),
            forall|i: nat| final(cache).pin_of(i) == old(cache).pin_of(i),
            forall|i: nat|
                final(cache).resident(i) && final(cache).dirty_at(i) ==> old(cache).resident(i)
                    && old(cache).dirty_at(i),
            forall|i: nat|
                final(cache).view_of(*final(device), i) == old(cache).view_of(
                    *old(device),
                    i,
                ),
            offset >= self.size ==> *final(cache) == *old(cache) && *final(device) == *old(
                device,
            ),
            n == clamp_len(self.size as nat, offset as nat, old(buf)@.len()),
            final(buf)@.len() == old(buf)@.len(),
            forall|j: int|
                0 <= j < n ==> final(buf)@[j] == self.byte_at(
                    disk_view(*old(cache), *old(device)),
                    offset + j,
                ),
            forall|j: int| n <= j < old(buf)@.len() ==> final(buf)@[j] == old(buf)@[j],
    {
        let ghost dv = disk_view(*old(cache), *old(device));
        let mut end = offset + buf.len();
        if end > (self.size as usize) {
            end = self.size as usize;
        }
        if offset >= end {
            return 0;
        }
        let mut start = offset;
        let mut read_size: usize = 0;
        while start < end
            invariant
                self.wf(),
                offset <= start <= end,
                end <= self.size,
                offset < end,
                end <= offset + buf@.len(),
                end - offset == clamp_len(self.size as nat, offset as nat, old(buf)@.len()),
                start == offset + read_size,
                buf@.len() == old(buf)@.len(),
                forall|j: int| 0 <= j < read_size ==> buf@[j] == self.byte_at(dv, offset + j),
                forall|j: int| read_size <= j < buf@.len() ==> buf@[j] == old(buf)@[j],
                cache.wf(),
                cache.consistent_with(*device),
                cache.has_room(),
                forall|i: nat| cache.pin_of(i) == old(cache).pin_of(i),
                forall|i: nat|
                    cache.resident(i) && cache.dirty_at(i) ==> old(cache).resident(i)
                        && old(cache).dirty_at(i),
                forall|i: nat|
                    cache.view_of(*device, i) == old(cache).view_of(*old(device), i),
            decreases end - start,
        {
            let sb = start / BLOCK_SIZE;
            let mut end_current = (sb + 1) * BLOCK_SIZE;
            if end_current > end {
                end_current = end;
            }
            let block_read_size = end_current - start;
            proof {
                lemma_fundamental_div_mod(start as int, 512);
                lemma_data_blocks_ceil(self.size as nat);
            }
            let ghost dvcall = disk_view(*cache, *device);
            proof {
                lemma_disk_view_congruent(*old(cache), *old(device), *cache, *device);
                assert(dvcall == dv);
                assert((sb as u32) as int == sb as int);
            }
            let bid = self.get_block_id(sb as u32, cache, device);
            proof {
                assert(bid == self.spec_block_id(dvcall, (sb as u32) as int));
                assert(bid == self.spec_block_id(dv, sb as int));
                cache.lemma_has_room_can_obtain(bid as nat);
            }
            proof {
                assert(cache.view_of(*device, bid as nat) == dv[bid as nat]);
                cache.lemma_view_len(*device, bid as nat);
            }
            let chunk = cache.read_bytes(bid as usize, start % BLOCK_SIZE, block_read_size, device);
            proof {
                assert(chunk@ == dv[bid as nat].subrange(
                    (start % 512) as int,
                    (start % 512) + block_read_size,
                ));
            }
            let mut t: usize = 0;
            while t < block_read_size
                invariant
                    t <= block_read_size,
                    read_size + block_read_size <= end - offset,
                    offset + buf@.len() <= usize::MAX,
                    end <= offset + buf@.len(),
                    chunk@.len() == block_read_size,
                    buf@.len() == old(buf)@.len(),
                    forall|j: int|
                        read_size <= j < read_size + t ==> buf@[j] == chunk@[j - read_size],
                    forall|j: int| 0 <= j < read_size ==> buf@[j] == self.byte_at(dv, offset + j),
                    forall|j: int|
                        read_size + t <= j < buf@.len() ==> buf@[j] == old(buf)@[j],
                decreases block_read_size - t,
            {
                buf[read_size + t] = chunk[t];
                t += 1;
            }
            proof {
                let sbi = sb as int;
                assert forall|j: int|
                    read_size <= j < read_size + block_read_size implies buf@[j] == self.byte_at(
                    dv,
                    offset + j,
                ) by {
                    let p = offset + j;
                    let r = (start % 512) + (j - read_size);
                    vstd::arithmetic::div_mod::lemma_fundamental_div_mod_converse(
                        p,
                        512,
                        sbi,
                        r,
                    );
                    assert(buf@[j] == chunk@[j - read_size]);
                    assert(chunk@[j - read_size] == dv[bid as nat][r]);
                }
            }
            read_size = read_size + block_read_size;
            start = end_current;
        }
        read_size
    }

    /// Shrink the file to nothing: zero the size and the whole index, and
    /// return every block id the file was using — data blocks and index
    /// blocks alike, in tier order — for the caller's allocator to reclaim.
    /// The inode frees no blocks itself, and afterwards no logical block
    /// resolves any more.
    #[verifier::loop_isolation(false)]
    pub fn clear_size<D: BlockDevice>(
        &mut self,
        cache: &mut BlockCacheManager,
        device: &mut D,
    ) -> (v: Vec<u32>)
        requires
            old(self).wf(),
            old(cache).wf(),
            old(cache).consistent_with(*old(device)),
            old(cache).has_room(),
        ensures
            final(cache).wf(),
            final(cache).consistent_with(*final(device)),
            final(cache).has_room(),
            forall|i: nat| final(cache).pin_of(i) == old(cache).pin_of(i),
            forall|i: nat|
                final(cache).resident(i) && final(cache).dirty_at(i) ==> old(cache).resident(i)
                    && old(cache).dirty_at(i),
            forall|i: nat|
                final(cache).view_of(*final(device), i) == old(cache).view_of(
                    *old(device),
                    i,
                ),
            v@ == old(self).spec_block_seq(
                disk_view(*old(cache), *old(device)),
                old(self).spec_data_blocks() as int,
            ),
            final(self).wf(),
            final(self).size == 0,
            final(self).indirect1 == 0,
            final(self).indirect2 == 0,
            final(self).kind == old(self).kind,
            forall|i: int| 0 <= i < 28 ==> final(self).direct@[i] == 0,
    {
        let ghost dv = disk_view(*old(cache), *old(device));
        let n = self.data_blocks();
        let mut v: Vec<u32> = Vec::new();
        let mut i: u32 = 0;
        while i < n
            invariant
                i <= n,
                *self == *old(self),
                v@ == self.spec_block_seq(dv, i as int),
                cache.wf(),
                cache.consistent_with(*device),
                cache.has_room(),
                forall|i: nat| cache.pin_of(i) == old(cache).pin_of(i),
                forall|i: nat|
                    cache.resident(i) && cache.dirty_at(i) ==> old(cache).resident(i)
                        && old(cache).dirty_at(i),
                forall|b: nat|
                    cache.view_of(*device, b) == old(cache).view_of(*old(device), b),
            decreases n - i,
        {
            let ghost vpre = v@;
            if i == (DIRECT_BOUND as u32) {
                v.push(self.indirect1);
            }
            if i == (INDIRECT1_BOUND as u32) {
                v.push(self.indirect2);
                let sl0 = read_index_entry(cache, self.indirect2, 0, device);
                proof {
                    assert(sl0 == entry_of(dv[self.indirect2 as nat], 0));
                }
                v.push(sl0);
            } else if i > (INDIRECT1_BOUND as u32) && (i - (INDIRECT1_BOUND as u32)) % (
            INODE_INDIRECT1_COUNT as u32) == 0 {
                let k = (i - (INDIRECT1_BOUND as u32)) / (INODE_INDIRECT1_COUNT as u32);
                let slk = read_index_entry(cache, self.indirect2, k as usize, device);
                proof {
                    assert(slk == entry_of(dv[self.indirect2 as nat], k as int));
                }
                v.push(slk);
            }
            proof {
                assert(v@ =~= vpre + self.meta_step(dv, i as int));
            }
            let b = self.get_block_id(i, cache, device);
            proof {
                lemma_disk_view_congruent(*old(cache), *old(device), *cache, *device);
                assert(b == self.spec_block_id(dv, i as int));
            }
            v.push(b);
            proof {
                assert(v@ =~= self.spec_block_seq(dv, i as int + 1));
            }
            i = i + 1;
        }
        let kind = self.kind;
        *self = Self::new(kind);
        v
    }

    /// Overwrite file bytes starting at `offset` with `buf`, clamped to the
    /// current size: writing at or past the end transfers nothing, and a
    /// range reaching past the end is silently truncated. Nothing is
    /// allocated here — callers grow the inode first. Returns the number of
    /// bytes written; the index and every byte outside the written range
    /// are untouched.
    #[verifier::loop_isolation(false)]
    #[verifier::rlimit(60)]
    pub fn write_at<D: BlockDevice>(
        &mut self,
        offset: usize,
        buf: &Vec<u8>,
        cache: &mut BlockCacheManager,
        device: &mut D,
    ) -> (n: usize)
        requires
            old(self).wf(),
            offset + buf@.len() <= usize::MAX,
            old(self).spec_block_seq(
                disk_view(*old(cache), *old(device)),
                old(self).spec_data_blocks() as int,
            ).no_duplicates(),
            old(cache).wf(),
            old(cache).consistent_with(*old(device)),
            old(cache).has_room(),
        ensures
            *final(self) == *old(self),
            final(cache).wf(),
            final(cache).consistent_with(*final(device)),
            final(cache).has_room(),
            forall|i: nat| final(cache).pin_of(i) == old(cache).pin_of(i),
            n == clamp_len(old(self).size as nat, offset as nat, buf@.len()),
            forall|j: int|
                0 <= j < n ==> old(self).byte_at(
                    disk_view(*final(cache), *final(device)),
                    offset + j,
                ) == buf@[j],
            forall|i: int|
                0 <= i < old(self).spec_data_blocks() ==> old(self).spec_block_id(
                    disk_view(*final(cache), *final(device)),
                    i,
                ) == old(self).spec_block_id(disk_view(*old(cache), *old(device)), i),
            old(self).spec_block_seq(
                disk_view(*final(cache), *final(device)),
                old(self).spec_data_blocks() as int,
            ) == old(self).spec_block_seq(
                disk_view(*old(cache), *old(device)),
                old(self).spec_data_blocks() as int,
            ),
            forall|p: int|
                0 <= p < old(self).size && !(offset <= p < offset + n) ==> old(self).byte_at(
                    disk_view(*final(cache), *final(device)),
                    p,
                ) == old(self).byte_at(disk_view(*old(cache), *old(device)), p),
            forall|b: nat|
                !id_in_seq(
                    old(self).spec_block_seq(
                        disk_view(*old(cache), *old(device)),
                        old(self).spec_data_blocks() as int,
                    ),
                    b,
                ) ==> final(cache).view_of(*final(device), b) == old(cache).view_of(
                    *old(device),
                    b,
                ),
    {
        let ghost dv = disk_view(*old(cache), *old(device));
        let ghost nblocks = old(self).spec_data_blocks() as int;
        let ghost seqall = old(self).spec_block_seq(dv, nblocks);
        proof {
            self.lemma_data_blocks_distinct(dv, nblocks);
            self.lemma_block_positions(dv, nblocks);
            self.lemma_block_seq_len(dv, nblocks);
        }
        let mut end = offset + buf.len();
        if end > (self.size as usize) {
            end = self.size as usize;
        }
        if offset >= end {
            return 0;
        }
        let mut start = offset;
        let mut write_size: usize = 0;
        while start < end
            invariant
                offset <= start <= end,
                end <= self.size,
                offset < end,
                end <= offset + buf@.len(),
                end - offset == clamp_len(self.size as nat, offset as nat, buf@.len()),
                start == offset + write_size,
                *self == *old(self),
                cache.wf(),
                cache.consistent_with(*device),
                cache.has_room(),
                forall|i: nat| cache.pin_of(i) == old(cache).pin_of(i),
                nblocks > 28 ==> disk_view(*cache, *device)[self.indirect1 as nat]
                    == dv[self.indirect1 as nat],
                nblocks > 156 ==> disk_view(*cache, *device)[self.indirect2 as nat]
                    == dv[self.indirect2 as nat],
                forall|k: int|
                    0 <= k && 156 + 128 * k < nblocks ==> disk_view(*cache, *device)[entry_of(
                        dv[self.indirect2 as nat],
                        k,
                    ) as nat] == dv[entry_of(dv[self.indirect2 as nat], k) as nat],
                forall|j: int|
                    0 <= j < write_size ==> self.byte_at(
                        disk_view(*cache, *device),
                        offset + j,
                    ) == buf@[j],
                forall|p: int|
                    0 <= p < self.size && !(offset <= p < offset + write_size)
                        ==> self.byte_at(disk_view(*cache, *device), p) == self.byte_at(
                        dv,
                        p,
                    ),
                forall|b: nat|
                    !id_in_seq(seqall, b) ==> cache.view_of(*device, b) == old(
                        cache,
                    ).view_of(*old(device), b),
            decreases end - start,
        {
            let ghost dv1 = disk_view(*cache, *device);
            proof {
                self.lemma_block_seq_frame(*self, dv, dv1, nblocks);
            }
            let sb = start / BLOCK_SIZE;
            let mut end_current = (sb + 1) * BLOCK_SIZE;
            if end_current > end {
                end_current = end;
            }
            let block_write_size = end_current - start;
            proof {
                lemma_fundamental_div_mod(start as int, 512);
                lemma_data_blocks_ceil(self.size as nat);
            }
            let bid = self.get_block_id(sb as u32, cache, device);
            proof {
                assert(bid == self.spec_block_id(dv1, sb as int));
                assert(bid == self.spec_block_id(dv, sb as int));
            }
            let mut chunk: Vec<u8> = Vec::new();
            let mut t: usize = 0;
            while t < block_write_size
                invariant
                    t <= block_write_size,
                    chunk@.len() == t,
                    write_size + block_write_size <= end - offset,
                    forall|x: int| 0 <= x < t ==> chunk@[x] == buf@[write_size + x],
                decreases block_write_size - t,
            {
                chunk.push(buf[write_size + t]);
                t += 1;
            }
            let ghost dv2 = disk_view(*cache, *device);
            proof {
                assert(dv2 == dv1);
                cache.lemma_has_room_can_obtain(bid as nat);
                cache.lemma_view_len(*device, bid as nat);
            }
            cache.write_bytes(bid as usize, start % BLOCK_SIZE, &chunk, device);
            proof {
                let dv3 = disk_view(*cache, *device);
                assert forall|b: nat| b != bid as nat implies dv3[b] == dv1[b] by {
                    assert(cache.view_of(*device, b) == dv1[b]);
                }
                assert(dv3[bid as nat] == splice_bytes(
                    dv1[bid as nat],
                    (start % 512) as int,
                    chunk@,
                ));
                assert(dv1[bid as nat].len() == 512);
                let sbi = sb as int;
                // The written block is a data block, never an index block,
                // so the whole index is untouched.
                assert(bid != self.indirect1 || nblocks <= 28);
                assert(bid != self.indirect2 || nblocks <= 156);
                assert forall|k: int|
                    0 <= k && 156 + 128 * k < nblocks implies dv3[entry_of(
                    dv[self.indirect2 as nat],
                    k,
                ) as nat] == dv[entry_of(dv[self.indirect2 as nat], k) as nat] by {
                    assert(self.spec_block_id(dv, sbi) != entry_of(
                        dv[self.indirect2 as nat],
                        k,
                    ));
                }
                self.lemma_block_seq_frame(*self, dv, dv3, nblocks);
                // Bytes of this write land where they should...
                assert forall|j: int|
                    write_size <= j < write_size + block_write_size implies self.byte_at(
                    dv3,
                    offset + j,
                ) == buf@[j] by {
                    let p = offset + j;
                    let r = (start % 512) + (j - write_size);
                    vstd::arithmetic::div_mod::lemma_fundamental_div_mod_converse(
                        p,
                        512,
                        sbi,
                        r,
                    );
                    assert(self.spec_block_id(dv3, sbi) == bid);
                    assert(dv3[bid as nat][r] == chunk@[j - write_size]);
                }
                // ... earlier writes and all untouched bytes keep their value.
                assert forall|p: int|
                    0 <= p < self.size && !(offset + write_size <= p < offset + write_size
                        + block_write_size) implies self.byte_at(dv3, p) == self.byte_at(
                    dv1,
                    p,
                ) by {
                    lemma_fundamental_div_mod(p, 512);
                    let pb = p / 512;
                    assert(0 <= pb < nblocks) by {
                        lemma_data_blocks_ceil(self.size as nat);
                    }
                    assert(self.spec_block_id(dv3, pb) == self.spec_block_id(dv1, pb));
                    if pb == sbi {
                        assert(p % 512 < start % 512 || p % 512 >= (start % 512)
                            + block_write_size);
                        assert(dv3[bid as nat][p % 512] == dv1[bid as nat][p % 512]);
                    } else {
                        assert(self.spec_block_id(dv, pb) != self.spec_block_id(dv, sbi));
                        assert(self.spec_block_id(dv1, pb) == self.spec_block_id(dv, pb));
                        assert(dv3[self.spec_block_id(dv1, pb) as nat] == dv1[self.spec_block_id(
                            dv1,
                            pb,
                        ) as nat]);
                    }
                }
                // Blocks outside the file are untouched: the written block
                // is one of the file's own.
                assert(id_in_seq(seqall, bid as nat)) by {
                    let pos = total_for_blocks((sbi + 1) as nat) - 1;
                    lemma_total_monotone((sbi + 1) as nat, nblocks as nat);
                    assert(seqall[pos] == self.spec_block_id(dv, sbi));
                }
            }
            write_size = write_size + block_write_size;
            start = end_current;
        }
        proof {
            let dvf = disk_view(*cache, *device);
            self.lemma_block_seq_frame(*self, dv, dvf, nblocks);
        }
        write_size
    }

    /// A prefix of a sequence without duplicates has none either.
    proof fn lemma_no_dup_take(s: Seq<u32>, l: int)
        requires
            s.no_duplicates(),
            0 <= l <= s.len(),
        ensures
            s.take(l).no_duplicates(),
    {
        assert forall|a: int, b: int|
            0 <= a < l && 0 <= b < l && a != b implies s.take(l)[a] != s.take(l)[b] by {
            assert(s[a] != s[b]);
        }
    }

    /// The old id sequence followed by the fresh ids supplied for a growth.
    spec fn grow_full<D: BlockDevice>(
        ino0: DiskInode,
        cm0: BlockCacheManager,
        d0: D,
        nbs: Seq<u32>,
    ) -> Seq<u32> {
        ino0.spec_block_seq(disk_view(cm0, d0), ino0.spec_data_blocks() as int) + nbs
    }

    /// The running state of a growth: what holds after the first `i` logical
    /// blocks are wired and `c` fresh ids are consumed. `ino0`, `cm0` and
    /// `d0` are the states before the growth began.
    spec fn grow_inv<D: BlockDevice>(
        self,
        ino0: DiskInode,
        cm0: BlockCacheManager,
        d0: D,
        cache: BlockCacheManager,
        device: D,
        nbs: Seq<u32>,
        i: u32,
        c: int,
    ) -> bool {
        let dv0 = disk_view(cm0, d0);
        let n0 = ino0.spec_data_blocks() as int;
        let full = Self::grow_full(ino0, cm0, d0, nbs);
        &&& ino0.wf()
        &&& self.size <= INODE_MAX_SIZE
        &&& full.no_duplicates()
        &&& full.len() == total_for_blocks(blocks_for_size(self.size as nat))
        &&& full.take(total_for_blocks(ino0.spec_data_blocks()) as int) == ino0.spec_block_seq(
            dv0,
            n0,
        )
        &&& n0 <= i as int <= blocks_for_size(self.size as nat)
        &&& self.kind == ino0.kind
        &&& self.direct@.len() == 28
        &&& (self.indirect1 == ino0.indirect1 || i > 28)
        &&& (self.indirect2 == ino0.indirect2 || i > 156)
        &&& c == total_for_blocks(i as nat) - total_for_blocks(ino0.spec_data_blocks())
        &&& cache.wf()
        &&& cache.consistent_with(device)
        &&& cache.has_room()
        &&& (forall|i: nat| cache.pin_of(i) == cm0.pin_of(i))
        &&& self.spec_block_seq(disk_view(cache, device), i as int) == full.take(
            total_for_blocks(i as nat) as int,
        )
        &&& (forall|t: int| 0 <= t < n0 && t < 28 ==> self.direct@[t] == ino0.direct@[t])
        &&& (forall|t: int|
            0 <= t < n0 ==> self.spec_block_id(disk_view(cache, device), t)
                == ino0.spec_block_id(dv0, t))
        &&& (forall|b: nat|
            !id_in_seq(full, b) ==> cache.view_of(device, b) == cm0.view_of(d0, b))
        &&& (forall|t: int|
            0 <= t < n0 ==> disk_view(cache, device)[ino0.spec_block_id(dv0, t) as nat]
                == dv0[ino0.spec_block_id(dv0, t) as nat])
    }

    /// Where everything already wired sits in the full id sequence of a
    /// growth in progress, and which ids the next round consumes.
    proof fn lemma_grow_prelude<D: BlockDevice>(
        self,
        ino0: DiskInode,
        cm0: BlockCacheManager,
        d0: D,
        cache: BlockCacheManager,
        device: D,
        nbs: Seq<u32>,
        i: u32,
        c: int,
    )
        requires
            self.grow_inv(ino0, cm0, d0, cache, device, nbs, i, c),
            (i as int) < blocks_for_size(self.size as nat),
        ensures
            ({
                let dv_it = disk_view(cache, device);
                let full = Self::grow_full(ino0, cm0, d0, nbs);
                let tot_i = total_for_blocks(i as nat) as int;
                &&& total_for_blocks((i + 1) as nat) <= full.len()
                &&& tot_i + 1 <= full.len()
                &&& self.spec_block_seq(dv_it, i as int).len() == tot_i
                &&& (i > 28 ==> self.indirect1 == full[28])
                &&& (i > 156 ==> self.indirect2 == full[157])
                &&& (i > 156 ==> entry_of(dv_it[self.indirect2 as nat], 0) == full[158])
                &&& (forall|k: int|
                    1 <= k && 156 + 128 * k < i as int ==> entry_of(
                        dv_it[self.indirect2 as nat],
                        k,
                    ) == full[total_for_blocks((156 + 128 * k) as nat) as int])
                &&& (forall|t: int|
                    0 <= t < i as int ==> self.spec_block_id(dv_it, t) == full[
                        total_for_blocks((t + 1) as nat) - 1])
                &&& full[tot_i] == nbs[c]
                &&& (tot_i + 1 < full.len() ==> full[tot_i + 1] == nbs[c + 1])
                &&& (tot_i + 2 < full.len() ==> full[tot_i + 2] == nbs[c + 2])
                &&& c + (total_for_blocks((i + 1) as nat) - tot_i) <= nbs.len()
            }),
    {
        let dv_it = disk_view(cache, device);
        let full = Self::grow_full(ino0, cm0, d0, nbs);
        let ii = i as int;
        let tot_i = total_for_blocks(i as nat) as int;
        let tot_n0 = total_for_blocks(ino0.spec_data_blocks()) as int;
        lemma_total_step(ii);
        lemma_total_monotone((i + 1) as nat, blocks_for_size(self.size as nat));
        self.lemma_block_seq_len(dv_it, ii);
        self.lemma_block_positions(dv_it, ii);
        ino0.lemma_block_seq_len(disk_view(cm0, d0), ino0.spec_data_blocks() as int);
        if ii > 28 {
            assert(total_for_blocks(29nat) <= tot_i) by {
                lemma_total_monotone(29nat, i as nat);
            }
            assert(self.spec_block_seq(dv_it, ii)[28] == self.indirect1);
            assert(self.indirect1 == full[28]);
        }
        if ii > 156 {
            assert(total_for_blocks(157nat) <= tot_i) by {
                lemma_total_monotone(157nat, i as nat);
            }
            assert(self.spec_block_seq(dv_it, ii)[157] == self.indirect2);
            assert(self.indirect2 == full[157]);
            assert(self.spec_block_seq(dv_it, ii)[158] == entry_of(
                dv_it[self.indirect2 as nat],
                0,
            ));
            assert(entry_of(dv_it[self.indirect2 as nat], 0) == full[158]);
        }
        assert forall|k: int|
            1 <= k && 156 + 128 * k < ii implies entry_of(dv_it[self.indirect2 as nat], k)
            == full[total_for_blocks((156 + 128 * k) as nat) as int] by {
            lemma_total_strict(156 + 128 * k, ii);
            lemma_total_monotone((156 + 128 * k + 1) as nat, i as nat);
            lemma_total_step(156 + 128 * k);
            assert(self.spec_block_seq(dv_it, ii)[total_for_blocks(
                (156 + 128 * k) as nat,
            ) as int] == entry_of(dv_it[self.indirect2 as nat], k));
        }
        assert forall|t: int|
            0 <= t < ii implies self.spec_block_id(dv_it, t) == full[total_for_blocks(
            (t + 1) as nat,
        ) - 1] by {
            lemma_total_monotone((t + 1) as nat, i as nat);
            lemma_total_strict(t, ii);
            assert(self.spec_block_seq(dv_it, ii)[total_for_blocks((t + 1) as nat) - 1]
                == self.spec_block_id(dv_it, t));
        }
        assert(full[tot_i] == nbs[c]);
        assert(tot_i + 1 < full.len() ==> full[tot_i + 1] == nbs[c + 1]);
        assert(tot_i + 2 < full.len() ==> full[tot_i + 2] == nbs[c + 2]);
    }

    /// Wire one more logical block of a growth in progress: the block lies
    /// in the direct tier, so one id becomes its data block.
    fn grow_wire_direct<D: BlockDevice>(
        &mut self,
        i: u32,
        new_blocks: &Vec<u32>,
        c: usize,
        cache: &mut BlockCacheManager,
        device: &mut D,
        Ghost(ino0): Ghost<DiskInode>,
        Ghost(cm0): Ghost<BlockCacheManager>,
        Ghost(d0): Ghost<D>,
    ) -> (used: usize)
        requires
            old(self).grow_inv(
                ino0,
                cm0,
                d0,
                *old(cache),
                *old(device),
                new_blocks@,
                i,
                c as int,
            ),
            (i as int) < blocks_for_size(old(self).size as nat),
            i < 28,
        ensures
            final(self).grow_inv(
                ino0,
                cm0,
                d0,
                *final(cache),
                *final(device),
                new_blocks@,
                (i + 1) as u32,
                c + used,
            ),
            used == total_for_blocks((i + 1) as nat) - total_for_blocks(i as nat),
            final(self).size == old(self).size,
    {
        proof {
            lemma_total_step(i as int);
            self.lemma_grow_prelude(ino0, cm0, d0, *cache, *device, new_blocks@, i, c as int);
        }
        let ghost dv_it = disk_view(*cache, *device);
        let ghost ino_it = *self;
        let ghost full = Self::grow_full(ino0, cm0, d0, new_blocks@);
        let ghost tot_i = total_for_blocks(i as nat) as int;
        let ghost n0 = ino0.spec_data_blocks() as int;
        let data_id = new_blocks[c];
        self.direct[i as usize] = data_id;
        proof {
            let dv_n = disk_view(*cache, *device);
            assert(dv_n == dv_it);
            ino_it.lemma_block_seq_frame(*self, dv_it, dv_n, i as int);
            assert(self.spec_block_seq(dv_n, i as int) == full.take(tot_i));
            assert(self.spec_block_id(dv_n, i as int) == full[tot_i]);
            assert(self.meta_step(dv_n, i as int) =~= Seq::<u32>::empty());
            assert(self.spec_block_seq(dv_n, i as int + 1) =~= full.take(
                total_for_blocks((i + 1) as nat) as int,
            ));
            assert forall|t: int|
                0 <= t < n0 implies self.spec_block_id(dv_n, t) == ino0.spec_block_id(
                disk_view(cm0, d0),
                t,
            ) by {
                assert(ino_it.spec_block_id(dv_it, t) == ino0.spec_block_id(
                    disk_view(cm0, d0),
                    t,
                ));
            }
        }
        1
    }

    /// Wire one more logical block of a growth in progress: the block lies
    /// in the single indirect tier. At the boundary one id becomes the
    /// indirect block itself, then one becomes the data block.
    fn grow_wire_indirect1<D: BlockDevice>(
        &mut self,
        i: u32,
        new_blocks: &Vec<u32>,
        c: usize,
        cache: &mut BlockCacheManager,
        device: &mut D,
        Ghost(ino0): Ghost<DiskInode>,
        Ghost(cm0): Ghost<BlockCacheManager>,
        Ghost(d0): Ghost<D>,
    ) -> (used: usize)
        requires
            old(self).grow_inv(
                ino0,
                cm0,
                d0,
                *old(cache),
                *old(device),
                new_blocks@,
                i,
                c as int,
            ),
            (i as int) < blocks_for_size(old(self).size as nat),
            28 <= i < 156,
        ensures
            final(self).grow_inv(
                ino0,
                cm0,
                d0,
                *final(cache),
                *final(device),
                new_blocks@,
                (i + 1) as u32,
                c + used,
            ),
            used == total_for_blocks((i + 1) as nat) - total_for_blocks(i as nat),
            final(self).size == old(self).size,
    {
        proof {
            lemma_total_step(i as int);
            self.lemma_grow_prelude(ino0, cm0, d0, *cache, *device, new_blocks@, i, c as int);
        }
        let ghost dv_it = disk_view(*cache, *device);
        let ghost ino_it = *self;
        let ghost full = Self::grow_full(ino0, cm0, d0, new_blocks@);
        let ghost tot_i = total_for_blocks(i as nat) as int;
        let ghost n0 = ino0.spec_data_blocks() as int;
        let ghost ii = i as int;
        let mut used: usize = 1;
        if i == (DIRECT_BOUND as u32) {
            let nb = new_blocks[c];
            self.indirect1 = nb;
            used = 2;
        }
        let data_id = if i == (DIRECT_BOUND as u32) {
            new_blocks[c + 1]
        } else {
            new_blocks[c]
        };
        proof {
            assert(self.indirect1 == (if ii == 28 {
                full[tot_i]
            } else {
                full[28]
            }));
            assert(id_in_seq(full, self.indirect1 as nat));
        }
        write_index_entry(cache, self.indirect1, (i as usize) - DIRECT_BOUND, data_id, device);
        proof {
            let dv_n = disk_view(*cache, *device);
            let dv0 = disk_view(cm0, d0);
            let ind1 = self.indirect1;
            assert forall|b: nat| b != ind1 as nat implies dv_n[b] == dv_it[b] by {
                assert(cache.view_of(*device, b) == dv_it[b]);
            }
            assert(dv_n[ind1 as nat] == splice_bytes(
                dv_it[ind1 as nat],
                4 * (ii - 28),
                spec_u32_to_le_bytes(data_id),
            ));
            // The sequence wired so far is untouched: nothing it reads
            // changes.
            assert forall|t: int| 0 <= t < ii && t < 28 implies self.direct@[t]
                == ino_it.direct@[t] by {}
            if ii > 28 {
                assert forall|k: int|
                    0 <= k < ii - 28 && k < 128 implies entry_of(
                    dv_n[ino_it.indirect1 as nat],
                    k,
                ) == entry_of(dv_it[ino_it.indirect1 as nat], k) by {
                    assert(ino_it.indirect1 == ind1);
                }
            }
            ino_it.lemma_block_seq_frame(*self, dv_it, dv_n, ii);
            assert(self.spec_block_seq(dv_n, ii) == full.take(tot_i));
            // The new entries read back as the consumed ids.
            assert(entry_of(dv_n[ind1 as nat], ii - 28) == data_id);
            if ii == 28 {
                assert(self.meta_step(dv_n, ii) =~= seq![full[tot_i]]);
                assert(self.spec_block_id(dv_n, ii) == full[tot_i + 1]);
            } else {
                assert(self.meta_step(dv_n, ii) =~= Seq::<u32>::empty());
                assert(self.spec_block_id(dv_n, ii) == full[tot_i]);
            }
            assert(self.spec_block_seq(dv_n, ii + 1) =~= full.take(
                total_for_blocks((i + 1) as nat) as int,
            ));
            // Old resolution, old data, and foreign blocks are untouched.
            assert forall|t: int|
                0 <= t < n0 implies self.spec_block_id(dv_n, t) == ino0.spec_block_id(
                dv0,
                t,
            ) by {
                assert(ino_it.spec_block_id(dv_it, t) == ino0.spec_block_id(dv0, t));
            }
            assert forall|x: nat|
                !id_in_seq(full, x) implies cache.view_of(*device, x) == cm0.view_of(
                d0,
                x,
            ) by {
                assert(x != ind1 as nat);
                assert(cache.view_of(*device, x) == dv_it[x]);
            }
            Self::lemma_no_dup_take(full, tot_i);
            ino_it.lemma_data_blocks_distinct(dv_it, ii);
            assert forall|t: int|
                0 <= t < n0 implies dv_n[ino0.spec_block_id(dv0, t) as nat]
                == dv0[ino0.spec_block_id(dv0, t) as nat] by {
                let db = ino0.spec_block_id(dv0, t);
                assert(ino_it.spec_block_id(dv_it, t) == db);
                assert(db != ind1) by {
                    if ii == 28 {
                        assert(db == full[total_for_blocks((t + 1) as nat) - 1]);
                        lemma_total_strict(t, n0);
                        lemma_total_monotone((t + 1) as nat, ino0.spec_data_blocks());
                        assert(total_for_blocks((t + 1) as nat) - 1 < tot_i);
                    } else {
                        assert(ino_it.spec_block_id(dv_it, t) != ino_it.indirect1);
                    }
                }
                assert(dv_n[db as nat] == dv_it[db as nat]);
            }
        }
        used
    }

    /// Wire one more logical block of a growth in progress: the block lies
    /// in the double indirect tier. At the indirect boundary one id becomes
    /// the double indirect block; at every 128-block boundary one id
    /// becomes a second-level index block; then one id becomes the data
    /// block.
    #[verifier::rlimit(100)]
    fn grow_wire_indirect2<D: BlockDevice>(
        &mut self,
        i: u32,
        new_blocks: &Vec<u32>,
        c: usize,
        cache: &mut BlockCacheManager,
        device: &mut D,
        Ghost(ino0): Ghost<DiskInode>,
        Ghost(cm0): Ghost<BlockCacheManager>,
        Ghost(d0): Ghost<D>,
    ) -> (used: usize)
        requires
            old(self).grow_inv(
                ino0,
                cm0,
                d0,
                *old(cache),
                *old(device),
                new_blocks@,
                i,
                c as int,
            ),
            (i as int) < blocks_for_size(old(self).size as nat),
            i >= 156,
        ensures
            final(self).grow_inv(
                ino0,
                cm0,
                d0,
                *final(cache),
                *final(device),
                new_blocks@,
                (i + 1) as u32,
                c + used,
            ),
            used == total_for_blocks((i + 1) as nat) - total_for_blocks(i as nat),
            final(self).size == old(self).size,
    {
        proof {
            lemma_total_step(i as int);
            self.lemma_grow_prelude(ino0, cm0, d0, *cache, *device, new_blocks@, i, c as int);
            lemma_fundamental_div_mod(i as int - 156, 128);
        }
        let ghost dv_it = disk_view(*cache, *device);
        let ghost ino_it = *self;
        let ghost full = Self::grow_full(ino0, cm0, d0, new_blocks@);
        let ghost tot_i = total_for_blocks(i as nat) as int;
        let ghost tot_n0 = total_for_blocks(ino0.spec_data_blocks()) as int;
        let ghost n0 = ino0.spec_data_blocks() as int;
        let ghost ii = i as int;
        let kq = (i - (INDIRECT1_BOUND as u32)) / (INODE_INDIRECT1_COUNT as u32);
        let bq = (i - (INDIRECT1_BOUND as u32)) % (INODE_INDIRECT1_COUNT as u32);
        proof {
            Self::lemma_no_dup_take(full, tot_i);
            ino_it.lemma_data_blocks_distinct(dv_it, ii);
        }
        let mut used: usize = 1;
        if i == (INDIRECT1_BOUND as u32) {
            let nb = new_blocks[c];
            self.indirect2 = nb;
            let sl = new_blocks[c + 1];
            write_index_entry(cache, self.indirect2, 0, sl, device);
            used = 3;
        } else if bq == 0 {
            let sl = new_blocks[c];
            write_index_entry(cache, self.indirect2, kq as usize, sl, device);
            used = 2;
        }
        let ghost dv_m = disk_view(*cache, *device);
        let ghost wrote_meta = (i == 156 || bq == 0);
        proof {
            if !wrote_meta {
                assert(dv_m == dv_it);
            }
        }
        let sl_cur = read_index_entry(cache, self.indirect2, kq as usize, device);
        let data_id = new_blocks[c + used - 1];
        proof {
            let ind2 = self.indirect2;
            assert(sl_cur == entry_of(dv_m[ind2 as nat], kq as int));
            // Where this round's blocks sit in the full sequence.
            if ii == 156 {
                assert(ind2 == full[tot_i]);
                assert(dv_m[ind2 as nat] == splice_bytes(
                    dv_it[ind2 as nat],
                    0,
                    spec_u32_to_le_bytes(new_blocks@[c + 1]),
                ));
                assert(sl_cur == new_blocks@[c + 1]);
                assert(sl_cur == full[tot_i + 1]);
            } else {
                assert(ind2 == full[157]);
                if bq == 0 {
                    assert(sl_cur == new_blocks@[c as int]);
                    assert(sl_cur == full[tot_i]);
                } else {
                    if kq == 0 {
                        assert(sl_cur == full[158]);
                    } else {
                        assert(156 + 128 * (kq as int) < ii);
                        assert(sl_cur == full[total_for_blocks(
                            (156 + 128 * (kq as int)) as nat,
                        ) as int]);
                        lemma_total_strict(157, 156 + 128 * (kq as int));
                    }
                }
            }
            assert(ind2 != sl_cur);
            assert(id_in_seq(full, ind2 as nat));
            assert(id_in_seq(full, sl_cur as nat));
        }
        write_index_entry(cache, sl_cur, bq as usize, data_id, device);
        proof {
            let dv_n = disk_view(*cache, *device);
            let dv0 = disk_view(cm0, d0);
            let ind2 = self.indirect2;
            let kqi = kq as int;
            let bqi = bq as int;
            assert forall|b: nat| b != sl_cur as nat implies dv_n[b] == dv_m[b] by {
                assert(cache.view_of(*device, b) == dv_m[b]);
            }
            assert(dv_n[sl_cur as nat] == splice_bytes(
                dv_m[sl_cur as nat],
                4 * bqi,
                spec_u32_to_le_bytes(data_id),
            ));
            if wrote_meta {
                assert forall|b: nat|
                    b != sl_cur as nat && b != ind2 as nat implies dv_n[b] == dv_it[b] by {}
            }
            // Nothing the sequence wired so far reads has changed.
            if ii > 156 {
                assert(ino_it.indirect1 == full[28]);
                assert(ino_it.indirect1 != ind2 && ino_it.indirect1 != sl_cur);
                assert(dv_n[ino_it.indirect1 as nat] == dv_it[ino_it.indirect1 as nat]);
                assert forall|k: int|
                    0 <= k && 156 + 128 * k < ii implies entry_of(
                    dv_n[ind2 as nat],
                    k,
                ) == entry_of(dv_it[ind2 as nat], k) by {
                    assert(dv_n[ind2 as nat] == dv_m[ind2 as nat]);
                    if bq == 0 {
                        assert(128 * k < 128 * kqi);
                        assert(dv_m[ind2 as nat] == splice_bytes(
                            dv_it[ind2 as nat],
                            4 * kqi,
                            spec_u32_to_le_bytes(new_blocks@[c as int]),
                        ));
                    } else {
                        assert(dv_m == dv_it);
                    }
                }
                assert forall|k: int, b: int|
                    0 <= k && 0 <= b < 128 && 156 + 128 * k + b < ii implies entry_of(
                    dv_n[entry_of(dv_it[ind2 as nat], k) as nat],
                    b,
                ) == entry_of(dv_it[entry_of(dv_it[ind2 as nat], k) as nat], b) by {
                    let slk = entry_of(dv_it[ind2 as nat], k);
                    assert(128 * k + b < 128 * kqi + bqi);
                    assert(k <= kqi);
                    assert(slk != ind2) by {
                        if k == 0 {
                            assert(slk == full[158]);
                        } else {
                            assert(156 + 128 * k < ii);
                            assert(slk == full[total_for_blocks((156 + 128 * k) as nat) as int]);
                            lemma_total_strict(157, 156 + 128 * k);
                        }
                    }
                    assert(dv_m[slk as nat] == dv_it[slk as nat]);
                    if slk == sl_cur {
                        assert(bq != 0) by {
                            if bq == 0 {
                                assert(sl_cur == full[tot_i]);
                                if k == 0 {
                                    assert(slk == full[158]);
                                    assert(158 < tot_i) by {
                                        lemma_total_monotone(157nat, i as nat);
                                    }
                                } else {
                                    assert(slk == full[total_for_blocks(
                                        (156 + 128 * k) as nat,
                                    ) as int]);
                                    lemma_total_strict(156 + 128 * k, ii);
                                }
                            }
                        }
                        assert(k == kqi) by {
                            if k < kqi {
                                assert(sl_cur == entry_of(dv_it[ind2 as nat], kqi));
                                if k == 0 {
                                    assert(slk == full[158]);
                                    assert(sl_cur == full[total_for_blocks(
                                        (156 + 128 * kqi) as nat,
                                    ) as int]);
                                    lemma_total_strict(157, 156 + 128 * kqi);
                                    lemma_total_strict(158, total_for_blocks(
                                        (156 + 128 * kqi) as nat,
                                    ) as int);
                                } else {
                                    assert(slk == full[total_for_blocks(
                                        (156 + 128 * k) as nat,
                                    ) as int]);
                                    assert(sl_cur == full[total_for_blocks(
                                        (156 + 128 * kqi) as nat,
                                    ) as int]);
                                    lemma_total_strict(156 + 128 * k, 156 + 128 * kqi);
                                }
                            }
                        }
                        assert(b < bqi);
                        assert(entry_of(dv_n[slk as nat], b) == entry_of(
                            dv_m[slk as nat],
                            b,
                        ));
                    } else {
                        assert(dv_n[slk as nat] == dv_m[slk as nat]);
                    }
                }
            }
            ino_it.lemma_block_seq_frame(*self, dv_it, dv_n, ii);
            assert(self.spec_block_seq(dv_n, ii) == full.take(tot_i));
            // The new entries read back as the consumed ids.
            assert(dv_n[ind2 as nat] == dv_m[ind2 as nat]);
            assert(entry_of(dv_n[ind2 as nat], kqi) == sl_cur);
            assert(entry_of(dv_n[sl_cur as nat], bqi) == data_id);
            if ii == 156 {
                assert(self.meta_step(dv_n, ii) =~= seq![full[tot_i], full[tot_i + 1]]);
                assert(self.spec_block_id(dv_n, ii) == full[tot_i + 2]);
            } else if bq == 0 {
                assert(self.meta_step(dv_n, ii) =~= seq![full[tot_i]]);
                assert(self.spec_block_id(dv_n, ii) == full[tot_i + 1]);
            } else {
                assert(self.meta_step(dv_n, ii) =~= Seq::<u32>::empty());
                assert(self.spec_block_id(dv_n, ii) == full[tot_i]);
            }
            assert(self.spec_block_seq(dv_n, ii + 1) =~= full.take(
                total_for_blocks((i + 1) as nat) as int,
            ));
            // Old resolution, old data, and foreign blocks are untouched.
            assert forall|t: int|
                0 <= t < n0 implies self.spec_block_id(dv_n, t) == ino0.spec_block_id(
                dv0,
                t,
            ) by {
                assert(ino_it.spec_block_id(dv_it, t) == ino0.spec_block_id(dv0, t));
            }
            assert forall|x: nat|
                !id_in_seq(full, x) implies cache.view_of(*device, x) == cm0.view_of(
                d0,
                x,
            ) by {
                assert(x != ind2 as nat && x != sl_cur as nat);
                assert(cache.view_of(*device, x) == dv_it[x]);
            }
            assert forall|t: int|
                0 <= t < n0 implies dv_n[ino0.spec_block_id(dv0, t) as nat]
                == dv0[ino0.spec_block_id(dv0, t) as nat] by {
                let db = ino0.spec_block_id(dv0, t);
                assert(ino_it.spec_block_id(dv_it, t) == db);
                assert(db == full[total_for_blocks((t + 1) as nat) - 1]);
                lemma_total_strict(t, n0);
                lemma_total_monotone((t + 1) as nat, ino0.spec_data_blocks());
                assert(db != ind2 && db != sl_cur) by {
                    if ii == 156 {
                        assert(total_for_blocks((t + 1) as nat) - 1 < tot_n0);
                        assert(tot_n0 <= tot_i);
                    } else {
                        assert(ino_it.spec_block_id(dv_it, t) != ino_it.indirect2);
                        if bq == 0 {
                            assert(total_for_blocks((t + 1) as nat) - 1 < tot_i);
                        } else if kq == 0 {
                            assert(ino_it.spec_block_id(dv_it, t) != entry_of(
                                dv_it[ino_it.indirect2 as nat],
                                0,
                            ));
                        } else {
                            assert(156 + 128 * kqi < ii);
                            assert(ino_it.spec_block_id(dv_it, t) != entry_of(
                                dv_it[ino_it.indirect2 as nat],
                                kqi,
                            ));
                        }
                    }
                }
                assert(dv_n[db as nat] == dv_m[db as nat]);
                assert(dv_m[db as nat] == dv_it[db as nat]);
                assert(dv_it[db as nat] == dv0[db as nat]);
            }
        }
        used
    }

    /// Grow the file to `new_size`, wiring the supplied fresh block ids into
    /// the index in consumption order: for each new logical block, first the
    /// index blocks that its position first requires — the indirect block at
    /// the direct boundary, the double indirect block and a second-level
    /// block at the indirect boundary, a fresh second-level block at each
    /// further 128-block boundary — then the data block itself. Exactly
    /// `block_num_needed(new_size)` ids are consumed, and the grown file's
    /// id sequence is the old one followed by the supplied ids in order.
    #[verifier::loop_isolation(false)]
    #[verifier::rlimit(100)]
    pub fn increase_size<D: BlockDevice>(
        &mut self,
        new_size: u32,
        new_blocks: Vec<u32>,
        cache: &mut BlockCacheManager,
        device: &mut D,
    )
        requires
            old(self).wf(),
            new_size >= old(self).size,
            new_size <= INODE_MAX_SIZE,
            new_blocks@.len() == total_for_blocks(blocks_for_size(new_size as nat))
                - total_for_blocks(old(self).spec_data_blocks()),
            (old(self).spec_block_seq(
                disk_view(*old(cache), *old(device)),
                old(self).spec_data_blocks() as int,
            ) + new_blocks@).no_duplicates(),
            old(cache).wf(),
            old(cache).consistent_with(*old(device)),
            old(cache).has_room(),
        ensures
            final(cache).wf(),
            final(cache).consistent_with(*final(device)),
            final(cache).has_room(),
            forall|i: nat| final(cache).pin_of(i) == old(cache).pin_of(i),
            final(self).wf(),
            final(self).size == new_size,
            final(self).kind == old(self).kind,
            final(self).spec_block_seq(
                disk_view(*final(cache), *final(device)),
                blocks_for_size(new_size as nat) as int,
            ) == old(self).spec_block_seq(
                disk_view(*old(cache), *old(device)),
                old(self).spec_data_blocks() as int,
            ) + new_blocks@,
            forall|t: int|
                0 <= t < old(self).spec_data_blocks() ==> final(self).spec_block_id(
                    disk_view(*final(cache), *final(device)),
                    t,
                ) == old(self).spec_block_id(disk_view(*old(cache), *old(device)), t),
            forall|p: int|
                0 <= p < old(self).size ==> final(self).byte_at(
                    disk_view(*final(cache), *final(device)),
                    p,
                ) == old(self).byte_at(disk_view(*old(cache), *old(device)), p),
            forall|b: nat|
                !id_in_seq(
                    old(self).spec_block_seq(
                        disk_view(*old(cache), *old(device)),
                        old(self).spec_data_blocks() as int,
                    ) + new_blocks@,
                    b,
                ) ==> final(cache).view_of(*final(device), b) == old(cache).view_of(
                    *old(device),
                    b,
                ),
    {
        let ghost ino0 = *old(self);
        let ghost cm0 = *old(cache);
        let ghost d0 = *old(device);
        let ghost dv = disk_view(cm0, d0);
        let ghost n0 = ino0.spec_data_blocks() as int;
        let ghost oldseq = ino0.spec_block_seq(dv, n0);
        let ghost full = Self::grow_full(ino0, cm0, d0, new_blocks@);
        let old_blocks = self.data_blocks();
        let target = Self::blocks_of_size(new_size);
        self.size = new_size;
        proof {
            lemma_total_monotone(old_blocks as nat, target as nat);
            ino0.lemma_block_seq_len(dv, n0);
            assert(self.spec_block_seq(disk_view(*cache, *device), old_blocks as int)
                =~= oldseq) by {
                ino0.lemma_block_seq_frame(
                    *self,
                    dv,
                    disk_view(*cache, *device),
                    old_blocks as int,
                );
            }
            assert(oldseq == full.take(total_for_blocks(old_blocks as nat) as int)) by {
                assert(oldseq =~= full.take(oldseq.len() as int));
            }
            assert(self.grow_inv(ino0, cm0, d0, *cache, *device, new_blocks@, old_blocks, 0));
        }
        let mut c: usize = 0;
        let mut i: u32 = old_blocks;
        while i < target
            invariant
                old_blocks <= i <= target,
                target == blocks_for_size(new_size as nat),
                self.size == new_size,
                c <= full.len(),
                self.grow_inv(ino0, cm0, d0, *cache, *device, new_blocks@, i, c as int),
            decreases target - i,
        {
            proof {
                lemma_total_step(i as int);
                lemma_total_monotone((i + 1) as nat, target as nat);
            }
            let used: usize = if i < (DIRECT_BOUND as u32) {
                self.grow_wire_direct(
                    i,
                    &new_blocks,
                    c,
                    cache,
                    device,
                    Ghost(ino0),
                    Ghost(cm0),
                    Ghost(d0),
                )
            } else if i < (INDIRECT1_BOUND as u32) {
                self.grow_wire_indirect1(
                    i,
                    &new_blocks,
                    c,
                    cache,
                    device,
                    Ghost(ino0),
                    Ghost(cm0),
                    Ghost(d0),
                )
            } else {
                self.grow_wire_indirect2(
                    i,
                    &new_blocks,
                    c,
                    cache,
                    device,
                    Ghost(ino0),
                    Ghost(cm0),
                    Ghost(d0),
                )
            };
            c = c + used;
            i = i + 1;
        }
        proof {
            assert(full.take(total_for_blocks(target as nat) as int) =~= full);
            assert forall|p: int|
                0 <= p < old(self).size implies self.byte_at(
                disk_view(*cache, *device),
                p,
            ) == old(self).byte_at(dv, p) by {
                lemma_fundamental_div_mod(p, 512);
                lemma_data_blocks_ceil(old(self).size as nat);
                assert(0 <= p / 512 < n0);
                assert(self.spec_block_id(disk_view(*cache, *device), p / 512) == old(
                    self,
                ).spec_block_id(dv, p / 512));
            }
        }
    }
}
/// Entries of an index block after one 4-byte entry is overwritten: the
/// written entry reads back as the new id and every other entry is
/// unchanged.
pub proof fn lemma_entry_splice(b: Seq<u8>, k: int, v: u32)
    requires
        b.len() == 512,
        0 <= k < 128,
    ensures
        splice_bytes(b, 4 * k, spec_u32_to_le_bytes(v)).len() == 512,
        entry_of(splice_bytes(b, 4 * k, spec_u32_to_le_bytes(v)), k) == v,
        forall|j: int|
            0 <= j < 128 && j != k ==> entry_of(
                splice_bytes(b, 4 * k, spec_u32_to_le_bytes(v)),
                j,
            ) == entry_of(b, j),
{
    lemma_auto_spec_u32_to_from_le_bytes();
    let enc = spec_u32_to_le_bytes(v);
    let b2 = splice_bytes(b, 4 * k, enc);
    assert(b2.len() == 512);
    assert(b2.subrange(4 * k, 4 * k + 4) =~= enc);
    assert(entry_of(b2, k) == v);
    assert forall|j: int| 0 <= j < 128 && j != k implies entry_of(b2, j) == entry_of(b, j) by {
        assert(b2.subrange(4 * j, 4 * j + 4) =~= b.subrange(4 * j, 4 * j + 4));
    }
}

/// Read the `k`-th id entry of index block `block_id`, through the cache.
fn read_index_entry<D: BlockDevice>(
    cache: &mut BlockCacheManager,
    block_id: u32,
    k: usize,
    device: &mut D,
) -> (r: u32)
    requires
        old(cache).wf(),
        old(cache).consistent_with(*old(device)),
        old(cache).has_room(),
        k < INODE_INDIRECT1_COUNT,
    ensures
        final(cache).wf(),
        final(cache).consistent_with(*final(device)),
        final(cache).has_room(),
        forall|i: nat| final(cache).pin_of(i) == old(cache).pin_of(i),
        forall|i: nat|
            final(cache).resident(i) && final(cache).dirty_at(i) ==> old(cache).resident(i)
                && old(cache).dirty_at(i),
        forall|i: nat|
            final(cache).view_of(*final(device), i) == old(cache).view_of(*old(device), i),
        r == entry_of(old(cache).view_of(*old(device), block_id as nat), k as int),
{
    proof {
        cache.lemma_has_room_can_obtain(block_id as nat);
        cache.lemma_view_len(*device, block_id as nat);
    }
    let bytes = cache.read_bytes(block_id as usize, 4 * k, 4, device);
    let r = crate::layout::read_le32(&bytes, 0);
    proof {
        let v = old(cache).view_of(*old(device), block_id as nat);
        assert(bytes@.subrange(0, 4) =~= v.subrange(4 * k, 4 * k + 4));
    }
    r
}

/// Overwrite the `k`-th id entry of index block `block_id`, through the
/// cache.
fn write_index_entry<D: BlockDevice>(
    cache: &mut BlockCacheManager,
    block_id: u32,
    k: usize,
    v: u32,
    device: &mut D,
)
    requires
        old(cache).wf(),
        old(cache).consistent_with(*old(device)),
        old(cache).has_room(),
        k < INODE_INDIRECT1_COUNT,
    ensures
        final(cache).wf(),
        final(cache).consistent_with(*final(device)),
        final(cache).has_room(),
        forall|i: nat| final(cache).pin_of(i) == old(cache).pin_of(i),
        final(cache).view_of(*final(device), block_id as nat) == splice_bytes(
            old(cache).view_of(*old(device), block_id as nat),
            4 * k,
            spec_u32_to_le_bytes(v),
        ),
        entry_of(final(cache).view_of(*final(device), block_id as nat), k as int) == v,
        forall|j: int|
            0 <= j < 128 && j != k ==> entry_of(
                final(cache).view_of(*final(device), block_id as nat),
                j,
            ) == entry_of(old(cache).view_of(*old(device), block_id as nat), j),
        forall|i: nat|
            i != block_id as nat ==> final(cache).view_of(*final(device), i) == old(
                cache,
            ).view_of(*old(device), i),
{
    proof {
        cache.lemma_has_room_can_obtain(block_id as nat);
        cache.lemma_view_len(*device, block_id as nat);
    }
    let data = u32_to_le_bytes(v);
    cache.write_bytes(block_id as usize, 4 * k, &data, device);
    proof {
        lemma_entry_splice(old(cache).view_of(*old(device), block_id as nat), k as int, v);
    }
}

/// Two cache/device pairs that agree block by block present the same disk.
pub proof fn lemma_disk_view_congruent<D: BlockDevice>(
    cm1: BlockCacheManager,
    d1: D,
    cm2: BlockCacheManager,
    d2: D,
)
    requires
        forall|i: nat| cm2.view_of(d2, i) == cm1.view_of(d1, i),
    ensures
        disk_view(cm2, d2) == disk_view(cm1, d1),
{
    assert forall|i: nat| #[trigger] disk_view(cm2, d2)[i] == disk_view(cm1, d1)[i] by {
        assert(cm2.view_of(d2, i) == cm1.view_of(d1, i));
    }
    assert(disk_view(cm2, d2) =~= disk_view(cm1, d1));
}

/// Number of bytes a transfer at `offset` with a buffer of `len` bytes
/// moves: the requested range clamped to the current size.
pub open spec fn clamp_len(size: nat, offset: nat, len: nat) -> nat {
    if offset >= size {
        0
    } else if offset + len <= size {
        len
    } else {
        (size - offset) as nat
    }
}

/// Whether id `i` occurs in the id sequence `s`.
pub open spec fn id_in_seq(s: Seq<u32>, i: nat) -> bool {
    exists|t: int| 0 <= t < s.len() && s[t] as nat == i
}

/// How the rounded-up quotient by 128 grows by one step: it increments
/// exactly at the multiples of 128.
proof fn lemma_ceil128_step(m: int)
    requires
        m >= 0,
    ensures
        (m + 128) / 128 - (m + 127) / 128 == (if m % 128 == 0 {
            1int
        } else {
            0int
        }),
{
    lemma_fundamental_div_mod(m, 128);
    let q = m / 128;
    let r = m % 128;
    if r == 0 {
        vstd::arithmetic::div_mod::lemma_fundamental_div_mod_converse(m + 127, 128, q, 127);
        vstd::arithmetic::div_mod::lemma_fundamental_div_mod_converse(m + 128, 128, q + 1, 0);
    } else {
        vstd::arithmetic::div_mod::lemma_fundamental_div_mod_converse(m + 127, 128, q + 1, r - 1);
        vstd::arithmetic::div_mod::lemma_fundamental_div_mod_converse(m + 128, 128, q + 1, r);
    }
}

/// More data blocks never cost fewer blocks in total.
proof fn lemma_total_monotone(a: nat, b: nat)
    requires
        a <= b,
    ensures
        total_for_blocks(a) <= total_for_blocks(b),
{
    if a > 156 {
        lemma_div_is_ordered((a - 156 + 127) as int, (b - 156 + 127) as int, 128);
    }
}

/// How many blocks one more data block costs: itself, plus the index blocks
/// that first become necessary at that boundary.
proof fn lemma_total_step(i: int)
    requires
        0 <= i,
    ensures
        total_for_blocks((i + 1) as nat) == total_for_blocks(i as nat) + 1 + (if i == 28 {
            1int
        } else if i == 156 {
            2int
        } else if i > 156 && (i - 156) % 128 == 0 {
            1int
        } else {
            0int
        }),
{
    if i > 156 {
        lemma_ceil128_step(i - 156);
    }
}

impl DiskInode {
    /// The id sequence for `n` data blocks holds exactly
    /// `total_for_blocks(n)` ids.
    pub proof fn lemma_block_seq_len(&self, dv: Map<nat, Seq<u8>>, n: int)
        requires
            n >= 0,
        ensures
            self.spec_block_seq(dv, n).len() == total_for_blocks(n as nat),
        decreases n,
    {
        if n > 0 {
            self.lemma_block_seq_len(dv, n - 1);
            lemma_total_step(n - 1);
        }
    }

    /// The id sequence for fewer data blocks is a prefix of the id sequence
    /// for more.
    pub proof fn lemma_block_seq_prefix(&self, dv: Map<nat, Seq<u8>>, m: int, n: int)
        requires
            0 <= m <= n,
        ensures
            self.spec_block_seq(dv, n).take(self.spec_block_seq(dv, m).len() as int)
                == self.spec_block_seq(dv, m),
        decreases n,
    {
        if n > m {
            self.lemma_block_seq_prefix(dv, m, n - 1);
            self.lemma_block_seq_len(dv, m);
            self.lemma_block_seq_len(dv, n - 1);
            lemma_total_monotone(m as nat, (n - 1) as nat);
            assert(self.spec_block_seq(dv, n).take(self.spec_block_seq(dv, m).len() as int)
                =~= self.spec_block_seq(dv, n - 1).take(
                self.spec_block_seq(dv, m).len() as int,
            ));
        } else {
            assert(self.spec_block_seq(dv, n).take(self.spec_block_seq(dv, m).len() as int)
                =~= self.spec_block_seq(dv, m));
        }
    }

    /// Where each id sits in the id sequence: the data block for logical
    /// index `i` just before `total_for_blocks(i + 1)`, the indirect block
    /// at position 28, the double indirect block at position 157, and each
    /// second-level index block right where its first data block begins.
    pub proof fn lemma_block_positions(&self, dv: Map<nat, Seq<u8>>, n: int)
        requires
            0 <= n,
        ensures
            forall|i: int|
                0 <= i < n ==> #[trigger] self.spec_block_seq(dv, n)[total_for_blocks(
                    (i + 1) as nat,
                ) - 1] == self.spec_block_id(dv, i),
            n > 28 ==> self.spec_block_seq(dv, n)[28] == self.indirect1,
            n > 156 ==> self.spec_block_seq(dv, n)[157] == self.indirect2,
            n > 156 ==> self.spec_block_seq(dv, n)[158] == entry_of(
                dv[self.indirect2 as nat],
                0,
            ),
            forall|k: int|
                1 <= k && 156 + 128 * k < n ==> #[trigger] self.spec_block_seq(dv, n)[
                    total_for_blocks((156 + 128 * k) as nat) as int] == entry_of(
                    dv[self.indirect2 as nat],
                    k,
                ),
    {
        assert forall|i: int| 0 <= i < n implies #[trigger] self.spec_block_seq(dv, n)[
            total_for_blocks((i + 1) as nat) - 1] == self.spec_block_id(dv, i) by {
            self.lemma_block_seq_len(dv, i);
            self.lemma_block_seq_len(dv, i + 1);
            self.lemma_block_seq_len(dv, n);
            lemma_total_monotone((i + 1) as nat, n as nat);
            self.lemma_block_seq_prefix(dv, i + 1, n);
            lemma_total_step(i);
            let s1 = self.spec_block_seq(dv, i + 1);
            assert(s1[s1.len() - 1] == self.spec_block_id(dv, i));
            assert(self.spec_block_seq(dv, n).take(s1.len() as int)[s1.len() - 1] == s1[s1.len()
                - 1]);
        }
        if n > 28 {
            self.lemma_block_seq_len(dv, 28);
            self.lemma_block_seq_len(dv, 29);
            self.lemma_block_seq_len(dv, n);
            lemma_total_monotone(29nat, n as nat);
            self.lemma_block_seq_prefix(dv, 29, n);
            let s1 = self.spec_block_seq(dv, 29);
            assert(s1[28] == self.meta_step(dv, 28)[0]);
            assert(self.spec_block_seq(dv, n).take(s1.len() as int)[28] == s1[28]);
        }
        if n > 156 {
            self.lemma_block_seq_len(dv, 156);
            self.lemma_block_seq_len(dv, 157);
            self.lemma_block_seq_len(dv, n);
            lemma_total_monotone(157nat, n as nat);
            self.lemma_block_seq_prefix(dv, 157, n);
            let s1 = self.spec_block_seq(dv, 157);
            assert(s1[157] == self.meta_step(dv, 156)[0]);
            assert(self.spec_block_seq(dv, n).take(s1.len() as int)[157] == s1[157]);
        }
        if n > 156 {
            self.lemma_block_seq_len(dv, 156);
            self.lemma_block_seq_len(dv, 157);
            self.lemma_block_seq_len(dv, n);
            lemma_total_monotone(157nat, n as nat);
            self.lemma_block_seq_prefix(dv, 157, n);
            lemma_total_step(156);
            let s1 = self.spec_block_seq(dv, 157);
            assert(s1[158] == self.meta_step(dv, 156)[1]);
            assert(self.spec_block_seq(dv, n).take(s1.len() as int)[158] == s1[158]);
        }
        assert forall|k: int| 1 <= k && 156 + 128 * k < n implies #[trigger] self.spec_block_seq(
            dv,
            n,
        )[total_for_blocks((156 + 128 * k) as nat) as int] == entry_of(
            dv[self.indirect2 as nat],
            k,
        ) by {
            let j = 156 + 128 * k;
            self.lemma_block_seq_len(dv, j);
            self.lemma_block_seq_len(dv, j + 1);
            self.lemma_block_seq_len(dv, n);
            lemma_total_monotone((j + 1) as nat, n as nat);
            self.lemma_block_seq_prefix(dv, j + 1, n);
            lemma_total_step(j);
            let s1 = self.spec_block_seq(dv, j + 1);
            assert((j - 156) % 128 == 0) by {
                vstd::arithmetic::div_mod::lemma_mod_multiples_basic(k, 128);
            }
            assert((j - 156) / 128 == k) by {
                vstd::arithmetic::div_mod::lemma_fundamental_div_mod_converse(
                    j - 156,
                    128,
                    k,
                    0,
                );
            }
            assert(self.meta_step(dv, j)[0] == entry_of(dv[self.indirect2 as nat], k));
            assert(s1[total_for_blocks(j as nat) as int] == self.meta_step(dv, j)[0]);
            assert(self.spec_block_seq(dv, n).take(s1.len() as int)[total_for_blocks(
                j as nat,
            ) as int] == s1[total_for_blocks(j as nat) as int]);
        }
    }

    /// Resolution and the id sequence depend only on the direct table and
    /// the index entries actually in range for `n` data blocks: two states
    /// that agree there resolve every logical block alike.
    pub proof fn lemma_block_seq_frame(
        self,
        other: DiskInode,
        dv1: Map<nat, Seq<u8>>,
        dv2: Map<nat, Seq<u8>>,
        n: int,
    )
        requires
            0 <= n,
            forall|i: int| 0 <= i < n && i < 28 ==> other.direct@[i] == self.direct@[i],
            n > 28 ==> other.indirect1 == self.indirect1,
            n > 28 ==> forall|k: int|
                0 <= k < n - 28 && k < 128 ==> entry_of(
                    dv2[self.indirect1 as nat],
                    k,
                ) == entry_of(dv1[self.indirect1 as nat], k),
            n > 156 ==> other.indirect2 == self.indirect2,
            n > 156 ==> forall|k: int|
                0 <= k && 156 + 128 * k < n ==> entry_of(
                    dv2[self.indirect2 as nat],
                    k,
                ) == entry_of(dv1[self.indirect2 as nat], k),
            n > 156 ==> forall|k: int, b: int|
                0 <= k && 0 <= b < 128 && 156 + 128 * k + b < n ==> entry_of(
                    dv2[entry_of(dv1[self.indirect2 as nat], k) as nat],
                    b,
                ) == entry_of(dv1[entry_of(dv1[self.indirect2 as nat], k) as nat], b),
        ensures
            forall|i: int|
                0 <= i < n ==> other.spec_block_id(dv2, i) == self.spec_block_id(dv1, i),
            other.spec_block_seq(dv2, n) == self.spec_block_seq(dv1, n),
        decreases n,
    {
        if n > 0 {
            self.lemma_block_seq_frame(other, dv1, dv2, n - 1);
            let i = n - 1;
            assert(other.spec_block_id(dv2, i) == self.spec_block_id(dv1, i)) by {
                if i < 28 {
                } else if i < 156 {
                    assert(entry_of(dv2[self.indirect1 as nat], i - 28) == entry_of(
                        dv1[self.indirect1 as nat],
                        i - 28,
                    ));
                } else {
                    let k = (i - 156) / 128;
                    let b = (i - 156) % 128;
                    lemma_fundamental_div_mod(i - 156, 128);
                    assert(156 + 128 * k + b == i);
                    assert(entry_of(dv2[self.indirect2 as nat], k) == entry_of(
                        dv1[self.indirect2 as nat],
                        k,
                    ));
                    assert(entry_of(dv2[entry_of(dv1[self.indirect2 as nat], k) as nat], b)
                        == entry_of(dv1[entry_of(dv1[self.indirect2 as nat], k) as nat], b));
                }
            }
            assert(other.meta_step(dv2, i) == self.meta_step(dv1, i)) by {
                if i == 156 {
                    assert(entry_of(dv2[self.indirect2 as nat], 0) == entry_of(
                        dv1[self.indirect2 as nat],
                        0,
                    ));
                } else if i > 156 && (i - 156) % 128 == 0 {
                    let k = (i - 156) / 128;
                    lemma_fundamental_div_mod(i - 156, 128);
                    assert(156 + 128 * k < n);
                    assert(entry_of(dv2[self.indirect2 as nat], k) == entry_of(
                        dv1[self.indirect2 as nat],
                        k,
                    ));
                }
            }
            assert forall|i2: int|
                0 <= i2 < n implies other.spec_block_id(dv2, i2) == self.spec_block_id(
                dv1,
                i2,
            ) by {
            }
        } else {
            assert(other.spec_block_seq(dv2, n) =~= self.spec_block_seq(dv1, n));
        }
    }
}

/// More data blocks always cost strictly more blocks in total.
proof fn lemma_total_strict(a: int, b: int)
    requires
        0 <= a < b,
    ensures
        total_for_blocks(a as nat) < total_for_blocks(b as nat),
{
    lemma_total_step(a);
    lemma_total_monotone((a + 1) as nat, b as nat);
}

impl DiskInode {
    /// When no id repeats in the id sequence, distinct logical blocks live
    /// on distinct ids, and no data block doubles as one of the index
    /// blocks.
    pub proof fn lemma_data_blocks_distinct(&self, dv: Map<nat, Seq<u8>>, n: int)
        requires
            0 <= n,
            self.spec_block_seq(dv, n).no_duplicates(),
        ensures
            forall|i1: int, i2: int|
                0 <= i1 < i2 < n ==> self.spec_block_id(dv, i1) != self.spec_block_id(
                    dv,
                    i2,
                ),
            forall|i: int|
                0 <= i < n && n > 28 ==> self.spec_block_id(dv, i) != self.indirect1,
            forall|i: int|
                0 <= i < n && n > 156 ==> self.spec_block_id(dv, i) != self.indirect2,
            forall|i: int, k: int|
                0 <= i < n && 0 <= k && 156 + 128 * k < n ==> self.spec_block_id(dv, i)
                    != entry_of(dv[self.indirect2 as nat], k),
    {
        let s = self.spec_block_seq(dv, n);
        self.lemma_block_seq_len(dv, n);
        self.lemma_block_positions(dv, n);
        assert forall|i1: int, i2: int|
            0 <= i1 < i2 < n implies self.spec_block_id(dv, i1) != self.spec_block_id(
            dv,
            i2,
        ) by {
            let p1 = total_for_blocks((i1 + 1) as nat) - 1;
            let p2 = total_for_blocks((i2 + 1) as nat) - 1;
            lemma_total_strict(i1 + 1, i2 + 1);
            lemma_total_monotone((i2 + 1) as nat, n as nat);
            assert(s[p1] == self.spec_block_id(dv, i1));
            assert(s[p2] == self.spec_block_id(dv, i2));
        }
        assert forall|i: int|
            0 <= i < n && n > 28 implies self.spec_block_id(dv, i) != self.indirect1 by {
            let p = total_for_blocks((i + 1) as nat) - 1;
            lemma_total_monotone((i + 1) as nat, n as nat);
            assert(s[p] == self.spec_block_id(dv, i));
            assert(s[28] == self.indirect1);
            if i < 28 {
                assert(p == i);
            } else {
                lemma_total_monotone(29nat, (i + 1) as nat);
            }
        }
        assert forall|i: int|
            0 <= i < n && n > 156 implies self.spec_block_id(dv, i) != self.indirect2 by {
            let p = total_for_blocks((i + 1) as nat) - 1;
            lemma_total_monotone((i + 1) as nat, n as nat);
            assert(s[p] == self.spec_block_id(dv, i));
            assert(s[157] == self.indirect2);
            if i <= 155 {
                lemma_total_monotone((i + 1) as nat, 156nat);
            } else {
                lemma_total_monotone(157nat, (i + 1) as nat);
            }
        }
        assert forall|i: int, k: int|
            0 <= i < n && 0 <= k && 156 + 128 * k < n implies self.spec_block_id(dv, i)
            != entry_of(dv[self.indirect2 as nat], k) by {
            let p = total_for_blocks((i + 1) as nat) - 1;
            let j = 156 + 128 * k;
            lemma_total_monotone((i + 1) as nat, n as nat);
            lemma_total_monotone((j + 1) as nat, n as nat);
            lemma_total_step(j);
            assert(s[p] == self.spec_block_id(dv, i));
            if k == 0 {
                assert(s[158] == entry_of(dv[self.indirect2 as nat], 0));
                if i <= 155 {
                    lemma_total_monotone((i + 1) as nat, 156nat);
                } else {
                    lemma_total_monotone(157nat, (i + 1) as nat);
                }
            } else {
                let q = total_for_blocks(j as nat) as int;
                assert(s[q] == entry_of(dv[self.indirect2 as nat], k));
                if i + 1 <= j {
                    lemma_total_monotone((i + 1) as nat, j as nat);
                } else if i == j {
                } else {
                    lemma_total_strict(j + 1, i + 1);
                    lemma_total_step(j);
                }
            }
        }
    }
}

/// After growths whose combined id sequence is exactly `ids`, every logical
/// block of the file resolves to one of the supplied ids, and no id serves
/// two logical blocks.
pub proof fn lemma_growth_covers_resolution(
    ino: DiskInode,
    dv: Map<nat, Seq<u8>>,
    n: int,
    ids: Seq<u32>,
)
    requires
        0 <= n,
        ino.spec_block_seq(dv, n) == ids,
        ids.no_duplicates(),
    ensures
        forall|i: int| 0 <= i < n ==> ids.contains(ino.spec_block_id(dv, i)),
        forall|i1: int, i2: int|
            0 <= i1 < i2 < n ==> ino.spec_block_id(dv, i1) != ino.spec_block_id(dv, i2),
{
    ino.lemma_block_seq_len(dv, n);
    ino.lemma_block_positions(dv, n);
    ino.lemma_data_blocks_distinct(dv, n);
    assert forall|i: int| 0 <= i < n implies ids.contains(ino.spec_block_id(dv, i)) by {
        lemma_total_strict(i, n);
        lemma_total_monotone((i + 1) as nat, n as nat);
        let pos = total_for_blocks((i + 1) as nat) - 1;
        assert(ids[pos] == ino.spec_block_id(dv, i));
    }
}

/// A freshly initialized inode occupies no blocks at all: its id sequence
/// is empty, so the first growth's ids become the whole sequence and
/// `clear_size` returns exactly the ids of all growths, in order.
pub proof fn lemma_fresh_inode_has_no_blocks(ino: DiskInode, dv: Map<nat, Seq<u8>>)
    requires
        ino.size == 0,
    ensures
        ino.spec_block_seq(dv, ino.spec_data_blocks() as int) == Seq::<u32>::empty(),
{
    assert(ino.spec_data_blocks() == 0);
}

/// Writing a byte range and reading the same range back yields the written
/// bytes unchanged: both transfers speak of the same file bytes on the same
/// disk state.
pub proof fn lemma_write_read_round_trip(
    ino: DiskInode,
    dv: Map<nat, Seq<u8>>,
    offset: int,
    n: int,
    written: Seq<u8>,
    readback: Seq<u8>,
)
    requires
        written.len() == n,
        readback.len() == n,
        forall|j: int| 0 <= j < n ==> ino.byte_at(dv, offset + j) == written[j],
        forall|j: int| 0 <= j < n ==> readback[j] == ino.byte_at(dv, offset + j),
    ensures
        readback == written,
{
    assert(readback =~= written);
}

/// `blocks_for_size` is the rounded-up quotient: a non-empty file of `size`
/// bytes needs exactly enough blocks that the last one is non-empty.
pub proof fn lemma_data_blocks_ceil(size: nat)
    ensures
        size == 0 ==> blocks_for_size(size) == 0,
        size > 0 ==> 512 * (blocks_for_size(size) - 1) < size <= 512 * blocks_for_size(size),
{
    if size > 0 {
        let n = blocks_for_size(size) as int;
        lemma_fundamental_div_mod((size + 511) as int, 512);
    }
}

/// More bytes never need fewer blocks: `total_for_blocks ∘ blocks_for_size`
/// is monotone in the size.
pub proof fn lemma_total_blocks_monotonic(s1: nat, s2: nat)
    requires
        s1 <= s2,
    ensures
        blocks_for_size(s1) <= blocks_for_size(s2),
        total_for_blocks(blocks_for_size(s1)) <= total_for_blocks(blocks_for_size(s2)),
{
    lemma_div_is_ordered((s1 + 511) as int, (s2 + 511) as int, 512);
    let n1 = blocks_for_size(s1);
    let n2 = blocks_for_size(s2);
    if n2 > 156 && n1 > 156 {
        lemma_div_is_ordered((n1 - 156 + 127) as int, (n2 - 156 + 127) as int, 128);
    }
}

} // verus!
