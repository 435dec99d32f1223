//! The block device interface: synchronous, whole-block reads and writes.
use vstd::prelude::*;

use crate::BLOCK_SIZE;

verus! {

/// A synchronous block device. Each block holds exactly `BLOCK_SIZE` bytes,
/// and `block_data` is the abstract content of every block. The device is
/// modelled as unbounded: how many blocks are actually backed by hardware is
/// the provider's concern, not part of this interface.
pub trait BlockDevice: Sized {
    /// The current content of block `id`.
    spec fn block_data(&self, id: nat) -> Seq<u8>;

    /// Every block holds exactly `BLOCK_SIZE` bytes.
    proof fn block_data_len(&self, id: nat)
        ensures
            self.block_data(id).len() == BLOCK_SIZE,
    ;

    /// Replace the contents of `buf` with the content of block `block_id`.
    fn read_block(&self, block_id: usize, buf: &mut Vec<u8>)
        ensures
            final(buf)@ == self.block_data(block_id as nat),
    ;

    /// Overwrite block `block_id` with the bytes of `buf`.
    fn write_block(&mut self, block_id: usize, buf: &Vec<u8>)
        requires
            buf@.len() == BLOCK_SIZE,
        ensures
            final(self).block_data(block_id as nat) == buf@,
            forall|i: nat|
                i != block_id as nat ==> final(self).block_data(i) == old(self).block_data(i),
    ;
}

/// The content of an all-zero block.
pub open spec fn zero_block() -> Seq<u8> {
    Seq::new(BLOCK_SIZE as nat, |i: int| 0u8)
}

/// An in-memory block device. Blocks that were never written read as zeroes;
/// storage grows on demand when a fresh block is written.
pub struct MemBlockDevice {
    blocks: Vec<Vec<u8>>,
}

impl MemBlockDevice {
    pub fn new() -> (d: Self)
        ensures
            forall|i: nat| d.block_data(i) == zero_block(),
    {
        let d = MemBlockDevice { blocks: Vec::new() };
        proof {
            assert forall|i: nat| d.block_data(i) == zero_block() by {
                assert(!Self::stored(d, i as int));
            }
        }
        d
    }

    /// Whether block `i` is backed by storage of the right length.
    spec fn stored(d: Self, i: int) -> bool {
        0 <= i < d.blocks@.len() && d.blocks@[i]@.len() == BLOCK_SIZE
    }
}

/// A vector of `BLOCK_SIZE` zero bytes.
fn make_zero_block() -> (v: Vec<u8>)
    ensures
        v@ == zero_block(),
{
    let mut v: Vec<u8> = Vec::new();
    while v.len() < BLOCK_SIZE
        invariant
            v@.len() <= BLOCK_SIZE,
            forall|i: int| 0 <= i < v@.len() ==> v@[i] == 0u8,
        decreases BLOCK_SIZE - v@.len(),
    {
        v.push(0u8);
    }
    proof {
        assert(v@ =~= zero_block());
    }
    v
}

impl BlockDevice for MemBlockDevice {
    closed spec fn block_data(&self, id: nat) -> Seq<u8> {
        if Self::stored(*self, id as int) {
            self.blocks@[id as int]@
        } else {
            zero_block()
        }
    }

    proof fn block_data_len(&self, id: nat) {
    }

    fn read_block(&self, block_id: usize, buf: &mut Vec<u8>) {
        buf.clear();
        if block_id < self.blocks.len() && self.blocks[block_id].len() == BLOCK_SIZE {
            let src = &self.blocks[block_id];
            let mut k: usize = 0;
            while k < src.len()
                invariant
                    buf@.len() == k,
                    k <= src@.len(),
                    forall|i: int| 0 <= i < k ==> buf@[i] == src@[i],
                decreases src@.len() - k,
            {
                buf.push(src[k]);
                k += 1;
            }
            proof {
                assert(buf@ =~= src@);
            }
        } else {
            let z = make_zero_block();
            let mut k: usize = 0;
            while k < z.len()
                invariant
                    buf@.len() == k,
                    k <= z@.len(),
                    z@ == zero_block(),
                    forall|i: int| 0 <= i < k ==> buf@[i] == z@[i],
                decreases z@.len() - k,
            {
                buf.push(z[k]);
                k += 1;
            }
            proof {
                assert(buf@ =~= zero_block());
            }
        }
    }

    fn write_block(&mut self, block_id: usize, buf: &Vec<u8>) {
        while self.blocks.len() <= block_id
            invariant
                forall|i: nat| self.block_data(i) == old(self).block_data(i),
            decreases
                    (if self.blocks@.len() <= block_id {
                        block_id + 1 - self.blocks@.len()
                    } else {
                        0int
                    }),
        {
            let ghost pre = *self;
            let z = make_zero_block();
            self.blocks.push(z);
            proof {
                assert forall|i: nat| self.block_data(i) == pre.block_data(i) by {
                    if i as int == pre.blocks@.len() {
                        assert(!Self::stored(pre, i as int));
                        assert(self.block_data(i) == zero_block());
                    } else {
                        assert(Self::stored(*self, i as int) == Self::stored(pre, i as int));
                    }
                }
            }
        }
        let ghost pre = *self;
        let mut copy: Vec<u8> = Vec::new();
        let mut k: usize = 0;
        while k < buf.len()
            invariant
                copy@.len() == k,
                k <= buf@.len(),
                forall|i: int| 0 <= i < k ==> copy@[i] == buf@[i],
            decreases buf@.len() - k,
        {
            copy.push(buf[k]);
            k += 1;
        }
        proof {
            assert(copy@ =~= buf@);
        }
        self.blocks[block_id] = copy;
        proof {
            assert(Self::stored(*self, block_id as int));
            assert forall|i: nat|
                i != block_id as nat implies self.block_data(i) == pre.block_data(i) by {
                assert(Self::stored(*self, i as int) == Self::stored(pre, i as int));
            }
        }
    }
}

} // verus!
