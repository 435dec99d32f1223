//! On-disk record formats: the superblock and the directory entry. Records
//! are encoded explicitly, field by field, as little-endian bytes, so the
//! on-disk format does not depend on host memory layout.
use vstd::prelude::*;

use vstd::bytes::{
    lemma_auto_spec_u32_to_from_le_bytes, spec_u32_from_le_bytes, spec_u32_to_le_bytes,
    u32_from_le_bytes, u32_to_le_bytes,
};
use vstd::slice::slice_subrange;

use crate::DIRENT_SIZE;

verus! {

/// Magic number stamped into a valid superblock.
pub const EFS_MAGIC: u32 = 0xdeadbeef;

/// Number of bytes of an encoded superblock record.
pub const SUPER_BLOCK_SIZE: usize = 24;

/// Greatest number of name bytes a directory entry holds (one byte of the
/// 28-byte field is kept for the zero terminator).
pub const NAME_LENGTH_LIMIT: usize = 27;

/// The four bytes of `b` starting at `off`, read as a little-endian integer.
pub open spec fn le32_at(b: Seq<u8>, off: int) -> u32 {
    spec_u32_from_le_bytes(b.subrange(off, off + 4))
}

/// Read the little-endian integer stored at byte offset `off` of `b`.
pub fn read_le32(b: &Vec<u8>, off: usize) -> (r: u32)
    requires
        off + 4 <= b@.len(),
    ensures
        r == le32_at(b@, off as int),
{
    let n = b.len();
    proof {
        assert(off + 4 <= n);
    }
    let s = slice_subrange(b.as_slice(), off, off + 4);
    u32_from_le_bytes(s)
}

/// Fixed descriptor of the filesystem geometry, stored in block 0. The
/// magic number decides validity; the remaining fields give the sizes, in
/// blocks, of the four areas that follow the superblock, in on-disk order.
pub struct SuperBlock {
    pub magic: u32,
    pub total_blocks: u32,
    pub inode_bitmap_blocks: u32,
    pub inode_area_blocks: u32,
    pub data_bitmap_blocks: u32,
    pub data_area_blocks: u32,
}

impl SuperBlock {
    /// The stored magic number.
    pub open spec fn spec_magic(&self) -> u32 {
        self.magic
    }

    /// A superblock is valid exactly when it carries the magic number.
    pub open spec fn spec_valid(&self) -> bool {
        self.spec_magic() == EFS_MAGIC
    }

    /// The 24-byte on-disk encoding: six little-endian fields in order.
    pub open spec fn encoding(&self) -> Seq<u8> {
        spec_u32_to_le_bytes(self.spec_magic()) + spec_u32_to_le_bytes(self.total_blocks)
            + spec_u32_to_le_bytes(self.inode_bitmap_blocks) + spec_u32_to_le_bytes(
            self.inode_area_blocks,
        ) + spec_u32_to_le_bytes(self.data_bitmap_blocks) + spec_u32_to_le_bytes(
            self.data_area_blocks,
        )
    }

    /// An all-zero record, as read from a freshly zeroed disk; not valid.
    pub fn empty() -> (sb: Self)
        ensures
            !sb.spec_valid(),
            sb.total_blocks == 0,
            sb.inode_bitmap_blocks == 0,
            sb.inode_area_blocks == 0,
            sb.data_bitmap_blocks == 0,
            sb.data_area_blocks == 0,
    {
        SuperBlock {
            magic: 0,
            total_blocks: 0,
            inode_bitmap_blocks: 0,
            inode_area_blocks: 0,
            data_bitmap_blocks: 0,
            data_area_blocks: 0,
        }
    }

    /// Stamp the magic number and the geometry, overwriting every field.
    pub fn initialize(
        &mut self,
        total_blocks: u32,
        inode_bitmap_blocks: u32,
        inode_area_blocks: u32,
        data_bitmap_blocks: u32,
        data_area_blocks: u32,
    )
        ensures
            final(self).spec_valid(),
            final(self).total_blocks == total_blocks,
            final(self).inode_bitmap_blocks == inode_bitmap_blocks,
            final(self).inode_area_blocks == inode_area_blocks,
            final(self).data_bitmap_blocks == data_bitmap_blocks,
            final(self).data_area_blocks == data_area_blocks,
    {
        *self = SuperBlock {
            magic: EFS_MAGIC,
            total_blocks,
            inode_bitmap_blocks,
            inode_area_blocks,
            data_bitmap_blocks,
            data_area_blocks,
        };
    }

    /// Whether the record carries the magic number. A sanity check only: it
    /// cannot detect corruption of the geometry fields.
    pub fn is_valid(&self) -> (r: bool)
        ensures
            r == self.spec_valid(),
    {
        self.magic == EFS_MAGIC
    }

    /// Serialize the record to its 24-byte on-disk form.
    pub fn to_bytes(&self) -> (r: Vec<u8>)
        ensures
            r@ == self.encoding(),
            r@.len() == SUPER_BLOCK_SIZE,
    {
        let mut r = u32_to_le_bytes(self.magic);
        let mut f = u32_to_le_bytes(self.total_blocks);
        r.append(&mut f);
        let mut f = u32_to_le_bytes(self.inode_bitmap_blocks);
        r.append(&mut f);
        let mut f = u32_to_le_bytes(self.inode_area_blocks);
        r.append(&mut f);
        let mut f = u32_to_le_bytes(self.data_bitmap_blocks);
        r.append(&mut f);
        let mut f = u32_to_le_bytes(self.data_area_blocks);
        r.append(&mut f);
        r
    }

    /// Reconstruct a record from its on-disk bytes (the leading bytes of
    /// block 0). The result is valid exactly when the first four bytes hold
    /// the little-endian magic number.
    pub fn from_bytes(bytes: &Vec<u8>) -> (sb: Self)
        requires
            bytes@.len() >= SUPER_BLOCK_SIZE,
        ensures
            sb.spec_magic() == le32_at(bytes@, 0),
            sb.total_blocks == le32_at(bytes@, 4),
            sb.inode_bitmap_blocks == le32_at(bytes@, 8),
            sb.inode_area_blocks == le32_at(bytes@, 12),
            sb.data_bitmap_blocks == le32_at(bytes@, 16),
            sb.data_area_blocks == le32_at(bytes@, 20),
            sb.spec_valid() <==> le32_at(bytes@, 0) == EFS_MAGIC,
    {
        SuperBlock {
            magic: read_le32(bytes, 0),
            total_blocks: read_le32(bytes, 4),
            inode_bitmap_blocks: read_le32(bytes, 8),
            inode_area_blocks: read_le32(bytes, 12),
            data_bitmap_blocks: read_le32(bytes, 16),
            data_area_blocks: read_le32(bytes, 20),
        }
    }
}

/// Decoding an encoded superblock recovers every field: serialization to
/// block 0 and reconstruction from it lose nothing.
pub proof fn lemma_superblock_round_trip(sb: SuperBlock)
    ensures
        sb.encoding().len() == SUPER_BLOCK_SIZE,
        le32_at(sb.encoding(), 0) == sb.spec_magic(),
        le32_at(sb.encoding(), 4) == sb.total_blocks,
        le32_at(sb.encoding(), 8) == sb.inode_bitmap_blocks,
        le32_at(sb.encoding(), 12) == sb.inode_area_blocks,
        le32_at(sb.encoding(), 16) == sb.data_bitmap_blocks,
        le32_at(sb.encoding(), 20) == sb.data_area_blocks,
{
    lemma_auto_spec_u32_to_from_le_bytes();
    let e = sb.encoding();
    assert(e.subrange(0, 4) =~= spec_u32_to_le_bytes(sb.spec_magic()));
    assert(e.subrange(4, 8) =~= spec_u32_to_le_bytes(sb.total_blocks));
    assert(e.subrange(8, 12) =~= spec_u32_to_le_bytes(sb.inode_bitmap_blocks));
    assert(e.subrange(12, 16) =~= spec_u32_to_le_bytes(sb.inode_area_blocks));
    assert(e.subrange(16, 20) =~= spec_u32_to_le_bytes(sb.data_bitmap_blocks));
    assert(e.subrange(20, 24) =~= spec_u32_to_le_bytes(sb.data_area_blocks));
}

/// Index of the first zero byte of `b` (`b.len()` when none occurs).
pub open spec fn first_zero(b: Seq<u8>) -> int
    decreases b.len(),
{
    if b.len() == 0 {
        0
    } else if b[0] == 0 {
        0
    } else {
        1 + first_zero(b.skip(1))
    }
}

/// `first_zero` is the index of the first zero: every byte before it is
/// non-zero, and the byte at it (when within bounds) is zero.
pub proof fn lemma_first_zero(b: Seq<u8>)
    ensures
        0 <= first_zero(b) <= b.len(),
        forall|i: int| 0 <= i < first_zero(b) ==> b[i] != 0,
        first_zero(b) < b.len() ==> b[first_zero(b)] == 0,
    decreases b.len(),
{
    if b.len() > 0 && b[0] != 0 {
        lemma_first_zero(b.skip(1));
        assert forall|i: int| 0 <= i < first_zero(b) implies b[i] != 0 by {
            if i > 0 {
                assert(b.skip(1)[i - 1] != 0);
            }
        }
        if first_zero(b) < b.len() {
            assert(b[first_zero(b)] == b.skip(1)[first_zero(b.skip(1))]);
        }
    }
}

/// Any index with zero at it and no zero before it is `first_zero`.
pub proof fn lemma_first_zero_is(b: Seq<u8>, k: int)
    requires
        0 <= k <= b.len(),
        forall|i: int| 0 <= i < k ==> b[i] != 0,
        k < b.len() ==> b[k] == 0,
    ensures
        first_zero(b) == k,
    decreases b.len(),
{
    if b.len() > 0 && b[0] != 0 {
        assert forall|i: int| 0 <= i < k - 1 implies b.skip(1)[i] != 0 by {
            assert(b[i + 1] != 0);
        }
        lemma_first_zero_is(b.skip(1), k - 1);
    }
}

/// The characters with the code points of the given bytes.
pub open spec fn chars_of_bytes(b: Seq<u8>) -> Seq<char> {
    b.map_values(|x: u8| x as char)
}

/// Relies on `String::from_utf8`: bytes below 0x80 are one-byte UTF-8
/// sequences, so they decode one-for-one to the characters with the same
/// code points.
#[verifier::external_body]
fn ascii_bytes_to_string(bytes: Vec<u8>) -> (r: String)
    requires
        forall|i: int| 0 <= i < bytes@.len() ==> bytes@[i] < 128,
    ensures
        r@ == chars_of_bytes(bytes@),
{
    match String::from_utf8(bytes) {
        Ok(s) => s,
        Err(_) => String::new(),
    }
}

/// Fixed-size directory entry: a name of at most `NAME_LENGTH_LIMIT` bytes,
/// left-justified in a 28-byte zero-padded field, and an inode number. A
/// directory's content is a packed array of these 32-byte records.
pub struct DirEntry {
    name: Vec<u8>,
    inode_number: u32,
}

impl DirEntry {
    /// The full 28-byte name field, padding included.
    pub closed spec fn name_bytes(&self) -> Seq<u8> {
        self.name@
    }

    /// The stored inode number.
    pub closed spec fn spec_inode_number(&self) -> u32 {
        self.inode_number
    }

    /// The name field holds exactly its 28 bytes.
    pub open spec fn wf(&self) -> bool {
        self.name_bytes().len() == NAME_LENGTH_LIMIT + 1
    }

    /// The name proper: the bytes before the first zero of the name field.
    pub open spec fn spec_name(&self) -> Seq<u8> {
        self.name_bytes().take(first_zero(self.name_bytes()))
    }

    /// Whether the stored name is plain text this module can decode.
    pub open spec fn name_is_ascii(&self) -> bool {
        forall|i: int| 0 <= i < self.spec_name().len() ==> self.spec_name()[i] < 128
    }

    /// The zeroed record: blank name, inode number 0. Marks an unused slot.
    pub fn empty() -> (e: Self)
        ensures
            e.wf(),
            e.spec_inode_number() == 0,
            e.name_bytes() == Seq::new((NAME_LENGTH_LIMIT + 1) as nat, |i: int| 0u8),
            e.spec_name() == Seq::<u8>::empty(),
    {
        let mut name: Vec<u8> = Vec::new();
        while name.len() < NAME_LENGTH_LIMIT + 1
            invariant
                name@.len() <= NAME_LENGTH_LIMIT + 1,
                forall|i: int| 0 <= i < name@.len() ==> name@[i] == 0u8,
            decreases NAME_LENGTH_LIMIT + 1 - name@.len(),
        {
            name.push(0u8);
        }
        let e = DirEntry { name, inode_number: 0 };
        proof {
            assert(e.name_bytes() =~= Seq::new((NAME_LENGTH_LIMIT + 1) as nat, |i: int| 0u8));
            lemma_first_zero_is(e.name_bytes(), 0);
            assert(e.spec_name() =~= Seq::<u8>::empty());
        }
        e
    }

    /// Build an entry for `name` and `inode_number`. The name bytes are
    /// left-justified and the rest of the field is zero, the padding doubling
    /// as the terminator. The name must be ASCII without NUL: the
    /// character-to-byte correspondence the contract speaks of is specified
    /// for ASCII text only.
    pub fn new(name: &str, inode_number: u32) -> (e: Self)
        requires
            name@.len() <= NAME_LENGTH_LIMIT,
            name.is_ascii(),
            forall|i: int| 0 <= i < name@.len() ==> (#[trigger] name@[i]) != '\0',
        ensures
            e.wf(),
            e.spec_inode_number() == inode_number,
            e.name_is_ascii(),
            e.spec_name() == name@.map_values(|c: char| c as u8),
            chars_of_bytes(e.spec_name()) == name@,
            e.name_bytes() == name@.map_values(|c: char| c as u8) + Seq::new(
                (NAME_LENGTH_LIMIT + 1 - name@.len()) as nat,
                |i: int| 0u8,
            ),
    {
        let bytes = name.as_bytes_vec();
        proof {
            vstd::string::is_ascii_spec_bytes(name);
            assert(bytes@ =~= name@.map_values(|c: char| c as u8));
        }
        let mut field: Vec<u8> = Vec::new();
        let mut k: usize = 0;
        while k < bytes.len()
            invariant
                k <= bytes@.len(),
                field@ == bytes@.take(k as int),
            decreases bytes@.len() - k,
        {
            field.push(bytes[k]);
            k += 1;
            proof {
                assert(field@ =~= bytes@.take(k as int));
            }
        }
        proof {
            assert(field@ =~= bytes@);
        }
        while field.len() < NAME_LENGTH_LIMIT + 1
            invariant
                bytes@.len() <= field@.len() <= NAME_LENGTH_LIMIT + 1,
                field@.take(bytes@.len() as int) == bytes@,
                forall|i: int| bytes@.len() <= i < field@.len() ==> field@[i] == 0u8,
            decreases NAME_LENGTH_LIMIT + 1 - field@.len(),
        {
            field.push(0u8);
            proof {
                assert(field@.take(bytes@.len() as int) =~= bytes@);
            }
        }
        let e = DirEntry { name: field, inode_number };
        proof {
            assert forall|i: int| 0 <= i < bytes@.len() implies e.name_bytes()[i] != 0 by {
                assert(e.name_bytes()[i] == bytes@[i]);
                assert(bytes@[i] == name@[i] as u8);
                assert(0 < (name@[i] as u32) < 128);
            }
            lemma_first_zero_is(e.name_bytes(), bytes@.len() as int);
            assert(e.spec_name() =~= bytes@);
            assert(chars_of_bytes(e.spec_name()) =~= name@);
            assert(e.name_bytes() =~= bytes@ + Seq::new(
                (NAME_LENGTH_LIMIT + 1 - name@.len()) as nat,
                |i: int| 0u8,
            ));
        }
        e
    }

    /// Decode the stored name: the text before the zero padding. The stored
    /// bytes must be ASCII, the only text the decode contract covers.
    pub fn name(&self) -> (r: String)
        requires
            self.wf(),
            self.name_is_ascii(),
        ensures
            r@ == chars_of_bytes(self.spec_name()),
    {
        proof {
            lemma_first_zero(self.name_bytes());
        }
        let mut k: usize = 0;
        while k < self.name.len() && self.name[k] != 0
            invariant
                self.wf(),
                k <= self.name_bytes().len(),
                forall|i: int| 0 <= i < k ==> self.name_bytes()[i] != 0,
            decreases self.name_bytes().len() - k,
        {
            k += 1;
        }
        proof {
            lemma_first_zero_is(self.name_bytes(), k as int);
        }
        let mut prefix: Vec<u8> = Vec::new();
        let mut i: usize = 0;
        while i < k
            invariant
                self.wf(),
                k <= self.name_bytes().len(),
                i <= k,
                prefix@ == self.name_bytes().take(k as int).take(i as int),
            decreases k - i,
        {
            prefix.push(self.name[i]);
            i += 1;
            proof {
                assert(prefix@ =~= self.name_bytes().take(k as int).take(i as int));
            }
        }
        proof {
            assert(prefix@ =~= self.spec_name());
        }
        ascii_bytes_to_string(prefix)
    }

    /// The stored inode number.
    pub fn inode_number(&self) -> (r: u32)
        ensures
            r == self.spec_inode_number(),
    {
        self.inode_number
    }

    /// The 32-byte on-disk encoding: the name field, then the inode number.
    pub open spec fn encoding(&self) -> Seq<u8> {
        self.name_bytes() + spec_u32_to_le_bytes(self.spec_inode_number())
    }

    /// Serialize the entry to its 32-byte on-disk form.
    pub fn as_bytes(&self) -> (r: Vec<u8>)
        requires
            self.wf(),
        ensures
            r@ == self.encoding(),
            r@.len() == DIRENT_SIZE,
    {
        let mut r: Vec<u8> = Vec::new();
        let mut i: usize = 0;
        while i < self.name.len()
            invariant
                self.wf(),
                i <= self.name_bytes().len(),
                r@ == self.name_bytes().take(i as int),
            decreases self.name_bytes().len() - i,
        {
            r.push(self.name[i]);
            i += 1;
            proof {
                assert(r@ =~= self.name_bytes().take(i as int));
            }
        }
        let mut tail = u32_to_le_bytes(self.inode_number);
        r.append(&mut tail);
        proof {
            lemma_auto_spec_u32_to_from_le_bytes();
            assert(r@ =~= self.encoding());
        }
        r
    }

    /// Reconstruct an entry from its 32 on-disk bytes.
    pub fn from_bytes(bytes: &Vec<u8>) -> (e: Self)
        requires
            bytes@.len() == DIRENT_SIZE,
        ensures
            e.wf(),
            e.name_bytes() == bytes@.take((NAME_LENGTH_LIMIT + 1) as int),
            e.spec_inode_number() == le32_at(bytes@, (NAME_LENGTH_LIMIT + 1) as int),
    {
        let mut name: Vec<u8> = Vec::new();
        let mut i: usize = 0;
        while i < NAME_LENGTH_LIMIT + 1
            invariant
                bytes@.len() == DIRENT_SIZE,
                i <= NAME_LENGTH_LIMIT + 1,
                name@ == bytes@.take(i as int),
            decreases NAME_LENGTH_LIMIT + 1 - i,
        {
            name.push(bytes[i]);
            i += 1;
            proof {
                assert(name@ =~= bytes@.take(i as int));
            }
        }
        let inode_number = read_le32(bytes, NAME_LENGTH_LIMIT + 1);
        DirEntry { name, inode_number }
    }
}

/// Serializing a directory entry and reconstructing it recovers the name
/// field and the inode number exactly.
pub proof fn lemma_dirent_round_trip(e: DirEntry)
    requires
        e.wf(),
    ensures
        e.encoding().len() == DIRENT_SIZE,
        e.encoding().take((NAME_LENGTH_LIMIT + 1) as int) == e.name_bytes(),
        le32_at(e.encoding(), (NAME_LENGTH_LIMIT + 1) as int) == e.spec_inode_number(),
{
    lemma_auto_spec_u32_to_from_le_bytes();
    assert(e.encoding().take((NAME_LENGTH_LIMIT + 1) as int) =~= e.name_bytes());
    assert(e.encoding().subrange(28, 32) =~= spec_u32_to_le_bytes(e.spec_inode_number()));
}

} // verus!
