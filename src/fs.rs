use vstd::prelude::*;
use crate::layout::{blocks_for, blocks_num_needed, BLOCK_SZ, DIRENT_SZ};

verus! {

/// Kind of an on-disk inode record.
#[derive(Clone, Copy, Debug, PartialEq, Eq, Structural)]
pub enum DiskInodeType {
    File,
    Directory,
}

/// One record of a directory: a name and the index of the inode it refers to.
pub struct DirEntry {
    pub name: String,
    pub inode_number: u32,
}

/// An on-disk inode record: size, kind, link count, the data blocks it owns
/// and, for a directory, its entry records in storage order.
pub struct DiskInode {
    pub size: u32,
    pub type_: DiskInodeType,
    pub nlink: u32,
    pub blocks: Vec<u32>,
    pub entries: Vec<DirEntry>,
}

/// The filesystem-wide state: the inode table, the free data blocks and the
/// bytes of every data block. Whoever holds `&mut FileSystem` holds the
/// filesystem-wide lock.
pub struct FileSystem {
    pub inodes: Vec<DiskInode>,
    pub inode_capacity: u32,
    pub total_blocks: u32,
    pub free: Vec<u32>,
    pub data: Vec<u8>,
}

/// Whether `name` is the name of some entry.
pub open spec fn has_name(entries: Seq<DirEntry>, name: Seq<char>) -> bool {
    exists|k: int| 0 <= k < entries.len() && #[trigger] entries[k].name@ == name
}

/// No two entries share a name.
pub open spec fn names_unique(entries: Seq<DirEntry>) -> bool {
    forall|a: int, b: int|
        0 <= a < entries.len() && 0 <= b < entries.len() && a != b
            ==> #[trigger] entries[a].name@ != #[trigger] entries[b].name@
}

impl DiskInode {
    /// The record's own invariant: it owns blocks enough for its size; a
    /// directory's size is one record per entry, its names are distinct and
    /// its entries refer to existing inodes; a file has no entries.
    pub open spec fn wf(&self, n_inodes: nat) -> bool {
        &&& self.blocks@.len() >= blocks_for(self.size as nat)
        &&& self.type_ == DiskInodeType::Directory ==> self.size as nat == self.entries@.len()
            * DIRENT_SZ
        &&& self.type_ == DiskInodeType::Directory ==> names_unique(self.entries@)
        &&& self.type_ == DiskInodeType::File ==> self.entries@.len() == 0
        &&& forall|k: int|
            0 <= k < self.entries@.len() ==> (#[trigger] self.entries@[k]).inode_number < n_inodes
    }

    /// The record is a directory.
    pub open spec fn is_dir(&self) -> bool {
        self.type_ == DiskInodeType::Directory
    }
}

impl FileSystem {
    /// The block at position `k` of inode `i`.
    pub open spec fn block_of(&self, i: int, k: int) -> u32 {
        self.inodes@[i].blocks@[k]
    }

    /// The filesystem invariant: the block accounting holds and every record
    /// is well formed.
    pub open spec fn wf(&self) -> bool {
        &&& self.wf_blocks()
        &&& forall|i: int|
            0 <= i < self.inodes@.len() ==> (#[trigger] self.inodes@[i]).wf(self.inodes@.len())
    }

    /// The block accounting: every owned block exists, no block is owned twice,
    /// and no owned block is on the free list.
    pub open spec fn wf_blocks(&self) -> bool {
        &&& self.data@.len() == self.total_blocks as nat * BLOCK_SZ
        &&& self.inodes@.len() <= self.inode_capacity
        &&& forall|i: int, k: int|
            0 <= i < self.inodes@.len() && 0 <= k < self.inodes@[i].blocks@.len()
                ==> #[trigger] self.block_of(i, k) < self.total_blocks
        &&& forall|f: int| 0 <= f < self.free@.len() ==> (#[trigger] self.free@[f]) < self.total_blocks
        &&& forall|f: int, g: int|
            0 <= f < self.free@.len() && 0 <= g < self.free@.len() && f != g ==> #[trigger] self.free@[f]
                != #[trigger] self.free@[g]
        &&& forall|i: int, k: int, f: int|
            0 <= i < self.inodes@.len() && 0 <= k < self.inodes@[i].blocks@.len() && 0 <= f
                < self.free@.len() ==> #[trigger] self.block_of(i, k) != #[trigger] self.free@[f]
        &&& forall|i: int, k: int, j: int, l: int|
            0 <= i < self.inodes@.len() && 0 <= k < self.inodes@[i].blocks@.len() && 0 <= j
                < self.inodes@.len() && 0 <= l < self.inodes@[j].blocks@.len() && (i != j || k != l)
                ==> #[trigger] self.block_of(i, k) != #[trigger] self.block_of(j, l)
    }

    /// The byte address in the data store of byte `j` of inode `i`.
    pub open spec fn addr(&self, i: int, j: int) -> int {
        self.block_of(i, j / 512) * 512 + j % 512
    }

    /// The bytes of inode `i`, as many as its size.
    pub open spec fn content(&self, i: int) -> Seq<u8> {
        Seq::new(self.inodes@[i].size as nat, |j: int| self.data@[self.addr(i, j)])
    }

    /// Whether `b` is owned by some inode.
    pub open spec fn owned(&self, b: u32) -> bool {
        exists|i: int, k: int|
            0 <= i < self.inodes@.len() && 0 <= k < self.inodes@[i].blocks@.len() && #[trigger] self.block_of(i, k) == b
    }

    /// Number of inode slots in use.
    pub open spec fn n_inodes(&self) -> nat {
        self.inodes@.len()
    }

    /// Number of free data blocks.
    pub open spec fn n_free(&self) -> nat {
        self.free@.len()
    }
}

/// `b` keeps the block accounting of `a`: same store, same free list, and
/// every inode owns the same blocks.
pub open spec fn same_blocks(a: &FileSystem, b: &FileSystem) -> bool {
    &&& a.data@.len() == b.data@.len()
    &&& a.total_blocks == b.total_blocks
    &&& a.inode_capacity == b.inode_capacity
    &&& a.free@ == b.free@
    &&& a.inodes@.len() == b.inodes@.len()
    &&& forall|i: int| 0 <= i < a.inodes@.len() ==> (#[trigger] a.inodes@[i]).blocks@ == b.inodes@[i].blocks@
}

/// A state with the same block accounting as a well-formed one keeps it.
pub proof fn lemma_same_blocks(a: &FileSystem, b: &FileSystem)
    requires
        a.wf_blocks(),
        same_blocks(a, b),
    ensures
        b.wf_blocks(),
        forall|i: int, k: int| 0 <= i < a.inodes@.len() ==> #[trigger] b.block_of(i, k) == a.block_of(i, k),
{
    assert forall|i: int, k: int| 0 <= i < a.inodes@.len() implies #[trigger] b.block_of(i, k) == a.block_of(i, k) by {
        assert(a.inodes@[i].blocks@ == b.inodes@[i].blocks@);
    }
}

/// Byte addresses of distinct (block, offset) pairs differ.
pub proof fn lemma_addr_injective(b1: int, r1: int, b2: int, r2: int)
    requires
        0 <= r1 < 512,
        0 <= r2 < 512,
        b1 * 512 + r1 == b2 * 512 + r2,
    ensures
        b1 == b2,
        r1 == r2,
{
    assert(b1 == b2) by (nonlinear_arith)
        requires
            0 <= r1 < 512,
            0 <= r2 < 512,
            b1 * 512 + r1 == b2 * 512 + r2,
    ;
}

/// A byte of an owned block lies inside the store.
pub proof fn lemma_addr_in_store(b: int, r: int, total: int)
    requires
        0 <= b < total,
        0 <= r < 512,
    ensures
        0 <= b * 512 + r < total * 512,
{
    assert(0 <= b * 512 + r < total * 512) by (nonlinear_arith)
        requires
            0 <= b < total,
            0 <= r < 512,
    ;
}

impl DiskInode {
    /// An inode record with nothing in it, used while another is taken out
    /// of the table.
    pub fn empty() -> (r: DiskInode)
        ensures
            r.size == 0,
            r.type_ == DiskInodeType::File,
            r.nlink == 0,
            r.blocks@.len() == 0,
            r.entries@.len() == 0,
    {
        DiskInode { size: 0, type_: DiskInodeType::File, nlink: 0, blocks: Vec::new(), entries: Vec::new() }
    }
}

impl FileSystem {
    /// A filesystem of `total_blocks` free data blocks and room for
    /// `inode_capacity` inodes, whose inode 0 is an empty root directory.
    pub fn new(total_blocks: u32, inode_capacity: u32) -> (r: FileSystem)
        requires
            inode_capacity >= 1,
            total_blocks as nat * 512 <= usize::MAX,
        ensures
            r.wf(),
            r.n_inodes() == 1,
            r.inodes@[0].type_ == DiskInodeType::Directory,
            r.inodes@[0].entries@.len() == 0,
            r.inodes@[0].size == 0,
            r.inodes@[0].nlink == 1,
            r.n_free() == total_blocks,
            r.total_blocks == total_blocks,
            r.inode_capacity == inode_capacity,
    {
        let n: usize = total_blocks as usize * BLOCK_SZ;
        let mut data: Vec<u8> = Vec::new();
        while data.len() < n
            invariant
                data@.len() <= n,
            decreases n - data@.len(),
        {
            data.push(0);
        }
        let mut free: Vec<u32> = Vec::new();
        let mut b: u32 = total_blocks;
        while b > 0
            invariant
                b <= total_blocks,
                free@.len() == total_blocks - b,
                forall|f: int| 0 <= f < free@.len() ==> #[trigger] free@[f] == total_blocks - 1 - f,
            decreases b,
        {
            b = b - 1;
            free.push(b);
        }
        let root = DiskInode {
            size: 0,
            type_: DiskInodeType::Directory,
            nlink: 1,
            blocks: Vec::new(),
            entries: Vec::new(),
        };
        let mut inodes: Vec<DiskInode> = Vec::new();
        inodes.push(root);
        let r = FileSystem { inodes, inode_capacity, total_blocks, free, data };
        assert(r.inodes@[0].blocks@.len() == 0);
        r
    }

    /// Takes a free inode slot and initializes it as an empty file with one
    /// link; `None` when every slot is taken.
    pub fn alloc_inode(&mut self) -> (r: Option<u32>)
        requires
            old(self).wf(),
        ensures
            final(self).wf(),
            old(self).n_inodes() < old(self).inode_capacity <==> r.is_some(),
            r.is_none() ==> *final(self) == *old(self),
            r.is_some() ==> {
                &&& r.unwrap() == old(self).n_inodes()
                &&& final(self).inodes@.len() == old(self).inodes@.len() + 1
                &&& final(self).inodes@.subrange(0, old(self).inodes@.len() as int) == old(self).inodes@
                &&& final(self).inodes@[r.unwrap() as int].type_ == DiskInodeType::File
                &&& final(self).inodes@[r.unwrap() as int].size == 0
                &&& final(self).inodes@[r.unwrap() as int].nlink == 1
                &&& final(self).inodes@[r.unwrap() as int].blocks@.len() == 0
                &&& final(self).free@ == old(self).free@
                &&& final(self).data@ == old(self).data@
                &&& final(self).total_blocks == old(self).total_blocks
                &&& final(self).inode_capacity == old(self).inode_capacity
            },
    {
        if self.inodes.len() >= self.inode_capacity as usize {
            return None;
        }
        let idx = self.inodes.len() as u32;
        let ino = DiskInode {
            size: 0,
            type_: DiskInodeType::File,
            nlink: 1,
            blocks: Vec::new(),
            entries: Vec::new(),
        };
        self.inodes.push(ino);
        proof {
            let o = old(self);
            let s = &*self;
            assert forall|i: int, k: int| 0 <= i < o.inodes@.len() implies #[trigger] s.block_of(i, k) == o.block_of(i, k) by {
                assert(s.inodes@[i] == o.inodes@[i]);
            }
            assert forall|i: int| 0 <= i < s.inodes@.len() implies (#[trigger] s.inodes@[i]).wf(s.inodes@.len()) by {
                if i < o.inodes@.len() {
                    assert(s.inodes@[i] == o.inodes@[i]);
                    assert(o.inodes@[i].wf(o.inodes@.len()));
                }
            }
            assert(s.inodes@.subrange(0, o.inodes@.len() as int) =~= o.inodes@);
        }
        Some(idx)
    }

    /// Moves the last block of the free list to the end of inode `i`'s blocks.
    fn move_free_block(&mut self, i: usize)
        requires
            old(self).wf_blocks(),
            i < old(self).inodes@.len(),
            old(self).free@.len() > 0,
        ensures
            final(self).wf_blocks(),
            final(self).free@ == old(self).free@.drop_last(),
            final(self).inodes@.len() == old(self).inodes@.len(),
            final(self).data@ == old(self).data@,
            final(self).total_blocks == old(self).total_blocks,
            final(self).inode_capacity == old(self).inode_capacity,
            forall|j: int| 0 <= j < old(self).inodes@.len() && j != i ==> #[trigger] final(self).inodes@[j] == old(self).inodes@[j],
            final(self).inodes@[i as int].blocks@ == old(self).inodes@[i as int].blocks@.push(old(self).free@.last()),
            final(self).inodes@[i as int].size == old(self).inodes@[i as int].size,
            final(self).inodes@[i as int].type_ == old(self).inodes@[i as int].type_,
            final(self).inodes@[i as int].nlink == old(self).inodes@[i as int].nlink,
            final(self).inodes@[i as int].entries@ == old(self).inodes@[i as int].entries@,
    {
        let b = self.free.pop().unwrap();
        let mut ino = DiskInode::empty();
        self.inodes.set_and_swap(i, &mut ino);
        ino.blocks.push(b);
        self.inodes.set(i, ino);
        proof {
            let o = old(self);
            let s = &*self;
            let last = o.free@.len() - 1;
            assert(b == o.free@[last]);
            let ol = o.inodes@[i as int].blocks@.len() as int;
            assert forall|j: int, k: int| 0 <= j < s.inodes@.len() && 0 <= k < s.inodes@[j].blocks@.len() && !(j == i && k == ol)
                implies #[trigger] s.block_of(j, k) == o.block_of(j, k) by {
                if j != i {
                    assert(s.inodes@[j] == o.inodes@[j]);
                }
            }
            assert(s.block_of(i as int, ol) == b);
            assert forall|j: int, k: int| 0 <= j < s.inodes@.len() && 0 <= k < s.inodes@[j].blocks@.len()
                && !(j == i && k == ol) implies #[trigger] s.block_of(j, k) != b by {
                assert(o.block_of(j, k) != o.free@[last]);
            }
            assert forall|f: int| 0 <= f < s.free@.len() implies #[trigger] s.free@[f] != b by {
                assert(s.free@[f] == o.free@[f]);
                assert(o.free@[f] != o.free@[last]);
            }
            assert forall|j: int, k: int, f: int|
                0 <= j < s.inodes@.len() && 0 <= k < s.inodes@[j].blocks@.len() && 0 <= f < s.free@.len()
                implies #[trigger] s.block_of(j, k) != #[trigger] s.free@[f] by {
                assert(s.free@[f] == o.free@[f]);
                if !(j == i && k == ol) {
                    assert(o.block_of(j, k) != o.free@[f]);
                }
            }
            assert forall|j: int, k: int, j2: int, l: int|
                0 <= j < s.inodes@.len() && 0 <= k < s.inodes@[j].blocks@.len() && 0 <= j2
                    < s.inodes@.len() && 0 <= l < s.inodes@[j2].blocks@.len() && (j != j2 || k != l)
                implies #[trigger] s.block_of(j, k) != #[trigger] s.block_of(j2, l) by {
                if (j == i && k == ol) || (j2 == i && l == ol) {
                } else {
                    assert(o.block_of(j, k) != o.block_of(j2, l));
                }
            }
            assert forall|j: int, k: int|
                0 <= j < s.inodes@.len() && 0 <= k < s.inodes@[j].blocks@.len()
                implies #[trigger] s.block_of(j, k) < s.total_blocks by {
                if !(j == i && k == ol) {
                    assert(o.block_of(j, k) < o.total_blocks);
                }
            }
            assert forall|f: int, g: int|
                0 <= f < s.free@.len() && 0 <= g < s.free@.len() && f != g
                implies #[trigger] s.free@[f] != #[trigger] s.free@[g] by {
                assert(o.free@[f] != o.free@[g]);
            }
        }
    }

    /// Gives inode `i` blocks from the free list until it owns enough to hold
    /// `target` bytes. Fails, changing nothing, when the free list is too short.
    fn grow_blocks(&mut self, i: usize, target: u32) -> (ok: bool)
        requires
            old(self).wf(),
            i < old(self).inodes@.len(),
        ensures
            final(self).wf(),
            ok == (blocks_for(target as nat) <= old(self).inodes@[i as int].blocks@.len()
                + old(self).free@.len()),
            !ok ==> *final(self) == *old(self),
            ok ==> {
                &&& final(self).inodes@[i as int].blocks@.len() == if blocks_for(target as nat)
                    <= old(self).inodes@[i as int].blocks@.len() {
                    old(self).inodes@[i as int].blocks@.len()
                } else {
                    blocks_for(target as nat)
                }
                &&& final(self).inodes@[i as int].size == old(self).inodes@[i as int].size
                &&& final(self).inodes@[i as int].entries@ == old(self).inodes@[i as int].entries@
                &&& grown(old(self), final(self), i as int)
            },
    {
        let need = blocks_num_needed(target) as usize;
        let have = self.inodes[i].blocks.len();
        if need <= have {
            proof { lemma_grown_refl(old(self)); }
            return true;
        }
        if need - have > self.free.len() {
            return false;
        }
        let mut t: usize = 0;
        proof { lemma_grown_refl(old(self)); }
        while t < need - have
            invariant
                self.wf_blocks(),
                have == old(self).inodes@[i as int].blocks@.len(),
                need == blocks_for(target as nat),
                have < need,
                need - have <= old(self).free@.len(),
                i < old(self).inodes@.len(),
                t <= need - have,
                self.free@ == old(self).free@.subrange(0, old(self).free@.len() - t),
                self.inodes@[i as int].blocks@.len() == have + t,
                self.inodes@[i as int].size == old(self).inodes@[i as int].size,
                self.inodes@[i as int].entries@ == old(self).inodes@[i as int].entries@,
                grown(old(self), &*self, i as int),
            decreases need - have - t,
        {
            let ghost mid = *self;
            self.move_free_block(i);
            t = t + 1;
            proof {
                let o = old(self);
                let s = &*self;
                assert(s.free@ =~= o.free@.subrange(0, o.free@.len() - t));
                let ol = o.inodes@[i as int].blocks@.len() as int;
                let ml = mid.inodes@[i as int].blocks@.len() as int;
                assert(s.inodes@[i as int].blocks@.subrange(0, ol) =~= o.inodes@[i as int].blocks@) by {
                    assert(mid.inodes@[i as int].blocks@.subrange(0, ol) == o.inodes@[i as int].blocks@);
                }
                assert forall|k: int| ol <= k < s.inodes@[i as int].blocks@.len() implies o.free@.contains(
                    #[trigger] s.inodes@[i as int].blocks@[k]) by {
                    if k < ml {
                        assert(mid.inodes@[i as int].blocks@[k] == s.inodes@[i as int].blocks@[k]);
                    } else {
                        let f = mid.free@.len() - 1;
                        assert(o.free@[f] == mid.free@[f]);
                    }
                }
            }
        }
        proof {
            let o = old(self);
            let s = &*self;
            assert forall|j: int| 0 <= j < s.inodes@.len() implies (#[trigger] s.inodes@[j]).wf(s.inodes@.len()) by {
                assert(o.inodes@[j].wf(o.inodes@.len()));
            }
        }
        true
    }
}

/// `b` differs from `a` only in blocks moved from the free list to the end of
/// inode `i`'s blocks.
pub open spec fn grown(a: &FileSystem, b: &FileSystem, i: int) -> bool {
    &&& b.inodes@.len() == a.inodes@.len()
    &&& b.data@ == a.data@
    &&& b.total_blocks == a.total_blocks
    &&& b.inode_capacity == a.inode_capacity
    &&& b.free@.len() <= a.free@.len()
    &&& b.free@ == a.free@.subrange(0, b.free@.len() as int)
    &&& forall|j: int| 0 <= j < a.inodes@.len() && j != i ==> #[trigger] b.inodes@[j] == a.inodes@[j]
    &&& b.inodes@[i].type_ == a.inodes@[i].type_
    &&& b.inodes@[i].nlink == a.inodes@[i].nlink
    &&& a.inodes@[i].blocks@.len() <= b.inodes@[i].blocks@.len()
    &&& b.inodes@[i].blocks@.len() - a.inodes@[i].blocks@.len() == a.free@.len() - b.free@.len()
    &&& b.inodes@[i].blocks@.subrange(0, a.inodes@[i].blocks@.len() as int) == a.inodes@[i].blocks@
    &&& forall|k: int|
        a.inodes@[i].blocks@.len() <= k < b.inodes@[i].blocks@.len() ==> a.free@.contains(
            #[trigger] b.inodes@[i].blocks@[k],
        )
}

/// Every state is a growth of itself.
pub proof fn lemma_grown_refl(a: &FileSystem)
    ensures
        forall|i: int| 0 <= i < a.inodes@.len() ==> #[trigger] grown(a, a, i),
{
    assert forall|i: int| 0 <= i < a.inodes@.len() implies #[trigger] grown(a, a, i) by {
        assert(a.free@ =~= a.free@.subrange(0, a.free@.len() as int));
        assert(a.inodes@[i].blocks@ =~= a.inodes@[i].blocks@.subrange(0, a.inodes@[i].blocks@.len() as int));
    }
}

/// `s` with the bytes from `off` on replaced by `b`, as far as `s` reaches.
pub open spec fn splice(s: Seq<u8>, off: int, b: Seq<u8>) -> Seq<u8> {
    Seq::new(s.len(), |j: int| if off <= j < off + b.len() { b[j - off] } else { s[j] })
}

/// A byte below an inode's size lies in one of its blocks.
pub proof fn lemma_pos_in_blocks(p: int, size: int, nblocks: int)
    requires
        0 <= p < size,
        nblocks >= (size + 511) / 512,
    ensures
        0 <= p / 512 < nblocks,
{
}

impl FileSystem {
    /// Where byte `p` of inode `i` lies in the store, and that it lies inside.
    pub proof fn lemma_addr(&self, i: int, p: int)
        requires
            self.wf(),
            0 <= i < self.inodes@.len(),
            0 <= p < self.inodes@[i].blocks@.len() * 512,
        ensures
            0 <= self.addr(i, p) < self.data@.len(),
            0 <= p / 512 < self.inodes@[i].blocks@.len(),
    {
        assert(0 <= p / 512 < self.inodes@[i].blocks@.len()) by (nonlinear_arith)
            requires 0 <= p < self.inodes@[i].blocks@.len() * 512;
        lemma_addr_in_store(self.block_of(i, p / 512) as int, p % 512, self.total_blocks as int);
    }

    /// Distinct bytes of owned blocks have distinct addresses.
    pub proof fn lemma_addr_distinct(&self, i: int, p: int, j: int, q: int)
        requires
            self.wf(),
            0 <= i < self.inodes@.len(),
            0 <= j < self.inodes@.len(),
            0 <= p < self.inodes@[i].blocks@.len() * 512,
            0 <= q < self.inodes@[j].blocks@.len() * 512,
            i != j || p != q,
        ensures
            self.addr(i, p) != self.addr(j, q),
    {
        self.lemma_addr(i, p);
        self.lemma_addr(j, q);
        if self.addr(i, p) == self.addr(j, q) {
            lemma_addr_injective(
                self.block_of(i, p / 512) as int,
                p % 512,
                self.block_of(j, q / 512) as int,
                q % 512,
            );
            assert(i == j && p / 512 == q / 512);
            assert(p == q);
        }
    }

    /// Grows file `i` to `new_size` bytes, taking blocks from the free list.
    /// Never shrinks; fails, changing nothing, when the free list is too short.
    pub fn increase_size(&mut self, i: usize, new_size: u32) -> (ok: bool)
        requires
            old(self).wf(),
            i < old(self).inodes@.len(),
            !old(self).inodes@[i as int].is_dir(),
        ensures
            final(self).wf(),
            ok == (new_size <= old(self).inodes@[i as int].size || blocks_for(new_size as nat)
                <= old(self).inodes@[i as int].blocks@.len() + old(self).free@.len()),
            new_size <= old(self).inodes@[i as int].size ==> *final(self) == *old(self),
            !ok ==> *final(self) == *old(self),
            ok ==> final(self).inodes@[i as int].size >= old(self).inodes@[i as int].size,
            ok ==> final(self).inodes@[i as int].size >= new_size,
            ok && new_size > old(self).inodes@[i as int].size ==> final(self).inodes@[i as int].size == new_size,
            ok ==> grown(old(self), final(self), i as int),
            ok ==> final(self).inodes@[i as int].blocks@.len() == if blocks_for(new_size as nat)
                <= old(self).inodes@[i as int].blocks@.len() {
                old(self).inodes@[i as int].blocks@.len()
            } else {
                blocks_for(new_size as nat)
            },
    {
        if new_size <= self.inodes[i].size {
            proof { lemma_grown_refl(old(self)); }
            return true;
        }
        if !self.grow_blocks(i, new_size) {
            return false;
        }
        let ghost mid = *self;
        let mut ino = DiskInode::empty();
        self.inodes.set_and_swap(i, &mut ino);
        ino.size = new_size;
        self.inodes.set(i, ino);
        proof {
            let s = &*self;
            assert(same_blocks(&mid, s));
            lemma_same_blocks(&mid, s);
            assert forall|j: int| 0 <= j < s.inodes@.len() implies (#[trigger] s.inodes@[j]).wf(s.inodes@.len()) by {
                assert(mid.inodes@[j].wf(mid.inodes@.len()));
            }
        }
        true
    }

    /// The bytes of inode `i`'s blocks are kept by a growth.
    pub proof fn lemma_grown_content(a: &FileSystem, b: &FileSystem, i: int)
        requires
            a.wf(),
            b.wf(),
            0 <= i < a.inodes@.len(),
            grown(a, b, i),
        ensures
            forall|j: int| 0 <= j < a.inodes@.len() && j != i ==> #[trigger] b.content(j) == a.content(j),
            forall|p: int|
                0 <= p < a.inodes@[i].blocks@.len() * 512 ==> #[trigger] b.addr(i, p) == a.addr(i, p),
    {
        assert forall|j: int| 0 <= j < a.inodes@.len() && j != i implies #[trigger] b.content(j) == a.content(j) by {
            assert(b.inodes@[j] == a.inodes@[j]);
            assert(b.content(j) =~= a.content(j));
        }
        assert forall|p: int| 0 <= p < a.inodes@[i].blocks@.len() * 512 implies #[trigger] b.addr(i, p) == a.addr(i, p) by {
            a.lemma_addr(i, p);
            let ol = a.inodes@[i].blocks@.len() as int;
            assert(b.inodes@[i].blocks@.subrange(0, ol)[p / 512] == b.inodes@[i].blocks@[p / 512]);
        }
    }

    /// Writes `buf` into file `i` from byte `offset` on; the file must
    /// already reach that far.
    pub fn write_data(&mut self, i: usize, offset: usize, buf: &[u8])
        requires
            old(self).wf(),
            i < old(self).inodes@.len(),
            offset + buf@.len() <= old(self).inodes@[i as int].size,
        ensures
            final(self).wf(),
            final(self).inodes@ == old(self).inodes@,
            final(self).free@ == old(self).free@,
            final(self).total_blocks == old(self).total_blocks,
            final(self).inode_capacity == old(self).inode_capacity,
            final(self).content(i as int) == splice(old(self).content(i as int), offset as int, buf@),
            forall|j: int| 0 <= j < old(self).inodes@.len() && j != i ==> #[trigger] final(self).content(j) == old(self).content(j),
    {
        let n = buf.len();
        let mut t: usize = 0;
        proof {
            assert(old(self).inodes@[i as int].wf(old(self).inodes@.len()));
        }
        while t < n
            invariant
                self.wf(),
                self.inodes@ == old(self).inodes@,
                self.free@ == old(self).free@,
                self.total_blocks == old(self).total_blocks,
                self.inode_capacity == old(self).inode_capacity,
                self.data@.len() == old(self).data@.len(),
                i < self.inodes@.len(),
                n == buf@.len(),
                offset + n <= self.inodes@[i as int].size,
                self.inodes@[i as int].size <= self.inodes@[i as int].blocks@.len() * 512,
                t <= n,
                forall|j: int, p: int|
                    0 <= j < self.inodes@.len() && 0 <= p < self.inodes@[j].blocks@.len() * 512 && !(j == i
                        && offset <= p < offset + t) ==> #[trigger] self.data@[self.addr(j, p)] == old(
                        self,
                    ).data@[self.addr(j, p)],
                forall|p: int| offset <= p < offset + t ==> #[trigger] self.data@[self.addr(i as int, p)] == buf@[p - offset],
            decreases n - t,
        {
            let q = offset + t;
            proof {
                self.lemma_addr(i as int, q as int);
            }
            let blk = self.inodes[i].blocks[q / 512];
            let dlen = self.data.len();
            assert(blk == self.block_of(i as int, q as int / 512));
            assert(blk as int * 512 + q as int % 512 < dlen);
            let a = blk as usize * 512 + q % 512;
            assert(a == self.addr(i as int, q as int));
            let ghost pre = *self;
            self.data.set(a, buf[t]);
            proof {
                let s = &*self;
                let o = old(self);
                assert(same_blocks(&pre, s));
                lemma_same_blocks(&pre, s);
                assert forall|j: int| 0 <= j < s.inodes@.len() implies (#[trigger] s.inodes@[j]).wf(s.inodes@.len()) by {
                    assert(pre.inodes@[j].wf(pre.inodes@.len()));
                }
                assert forall|j: int, p: int|
                    0 <= j < s.inodes@.len() && 0 <= p < s.inodes@[j].blocks@.len() * 512 && !(j == i
                        && offset <= p < offset + t + 1)
                    implies #[trigger] s.data@[s.addr(j, p)] == o.data@[s.addr(j, p)] by {
                    s.lemma_addr_distinct(j, p, i as int, q as int);
                    assert(pre.addr(j, p) == s.addr(j, p));
                    assert(pre.data@[pre.addr(j, p)] == o.data@[pre.addr(j, p)]);
                }
                assert forall|p: int| offset <= p < offset + t + 1
                    implies #[trigger] s.data@[s.addr(i as int, p)] == buf@[p - offset] by {
                    if p != q {
                        s.lemma_addr_distinct(i as int, p, i as int, q as int);
                        assert(pre.addr(i as int, p) == s.addr(i as int, p));
                        assert(pre.data@[pre.addr(i as int, p)] == buf@[p - offset]);
                    }
                }
            }
            t = t + 1;
        }
        proof {
            let s = &*self;
            let o = old(self);
            assert forall|j: int| 0 <= j < o.inodes@.len() && j != i implies #[trigger] s.content(j) == o.content(j) by {
                assert(o.inodes@[j].wf(o.inodes@.len()));
                assert forall|p: int| 0 <= p < s.content(j).len() implies s.content(j)[p] == o.content(j)[p] by {
                    lemma_pos_in_blocks(p, o.inodes@[j].size as int, o.inodes@[j].blocks@.len() as int);
                }
                assert(s.content(j) =~= o.content(j));
            }
            let c = splice(o.content(i as int), offset as int, buf@);
            assert forall|p: int| 0 <= p < s.content(i as int).len() implies s.content(i as int)[p] == c[p] by {
                lemma_pos_in_blocks(p, o.inodes@[i as int].size as int, o.inodes@[i as int].blocks@.len() as int);
            }
            assert(s.content(i as int) =~= c);
        }
    }

    /// Copies bytes of inode `i` from byte `offset` on into `buf`, as many
    /// as fit and as the inode holds; returns how many were copied.
    pub fn read_data(&self, i: usize, offset: usize, buf: &mut [u8]) -> (r: usize)
        requires
            self.wf(),
            i < self.inodes@.len(),
        ensures
            r == read_len(self.inodes@[i as int].size as int, offset as int, old(buf)@.len() as int),
            final(buf)@.len() == old(buf)@.len(),
            forall|p: int| 0 <= p < r ==> #[trigger] final(buf)@[p] == self.content(i as int)[offset + p],
            final(buf)@.subrange(r as int, old(buf)@.len() as int) == old(buf)@.subrange(r as int, old(buf)@.len() as int),
    {
        let size = self.inodes[i].size as usize;
        let r: usize = if offset >= size {
            0
        } else if buf.len() < size - offset {
            buf.len()
        } else {
            size - offset
        };
        proof {
            assert(self.inodes@[i as int].wf(self.inodes@.len()));
        }
        let dlen = self.data.len();
        let mut t: usize = 0;
        while t < r
            invariant
                self.wf(),
                i < self.inodes@.len(),
                dlen == self.data@.len(),
                r <= buf@.len(),
                r == 0 || offset + r <= self.inodes@[i as int].size,
                buf@.len() == old(buf)@.len(),
                t <= r,
                forall|p: int| 0 <= p < t ==> #[trigger] buf@[p] == self.content(i as int)[offset + p],
                forall|p: int| r <= p < buf@.len() ==> #[trigger] buf@[p] == old(buf)@[p],
            decreases r - t,
        {
            let q = offset + t;
            proof {
                lemma_pos_in_blocks(q as int, self.inodes@[i as int].size as int, self.inodes@[i as int].blocks@.len() as int);
                assert(self.inodes@[i as int].blocks@.len() * 512 >= self.inodes@[i as int].size) by (nonlinear_arith)
                    requires self.inodes@[i as int].blocks@.len() >= (self.inodes@[i as int].size + 511) / 512;
                self.lemma_addr(i as int, q as int);
            }
            let blk = self.inodes[i].blocks[q / 512];
            assert(blk == self.block_of(i as int, q as int / 512));
            assert(blk as int * 512 + q as int % 512 < dlen);
            let a = blk as usize * 512 + q % 512;
            buf[t] = self.data[a];
            t = t + 1;
        }
        proof {
            assert(buf@.subrange(r as int, old(buf)@.len() as int) =~= old(buf)@.subrange(r as int, old(buf)@.len() as int));
        }
        r
    }

    /// Moves the last block of inode `i` to the end of the free list.
    fn release_last_block(&mut self, i: usize)
        requires
            old(self).wf(),
            i < old(self).inodes@.len(),
            old(self).inodes@[i as int].blocks@.len() > 0,
            old(self).inodes@[i as int].size == 0,
        ensures
            final(self).wf(),
            final(self).free@ == old(self).free@.push(old(self).inodes@[i as int].blocks@.last()),
            final(self).inodes@.len() == old(self).inodes@.len(),
            final(self).data@ == old(self).data@,
            final(self).total_blocks == old(self).total_blocks,
            final(self).inode_capacity == old(self).inode_capacity,
            forall|j: int| 0 <= j < old(self).inodes@.len() && j != i ==> #[trigger] final(self).inodes@[j] == old(self).inodes@[j],
            final(self).inodes@[i as int].blocks@ == old(self).inodes@[i as int].blocks@.drop_last(),
            final(self).inodes@[i as int].size == 0,
            final(self).inodes@[i as int].type_ == old(self).inodes@[i as int].type_,
            final(self).inodes@[i as int].nlink == old(self).inodes@[i as int].nlink,
            final(self).inodes@[i as int].entries@ == old(self).inodes@[i as int].entries@,
    {
        let mut ino = DiskInode::empty();
        self.inodes.set_and_swap(i, &mut ino);
        let b = ino.blocks.pop().unwrap();
        self.inodes.set(i, ino);
        self.free.push(b);
        proof {
            let o = old(self);
            let s = &*self;
            let ol = o.inodes@[i as int].blocks@.len() - 1;
            assert(b == o.block_of(i as int, ol));
            assert forall|j: int, k: int| 0 <= j < s.inodes@.len() && 0 <= k < s.inodes@[j].blocks@.len()
                implies #[trigger] s.block_of(j, k) == o.block_of(j, k) by {
                if j != i {
                    assert(s.inodes@[j] == o.inodes@[j]);
                }
            }
            let nf = s.free@.len() - 1;
            assert forall|j: int, k: int, f: int|
                0 <= j < s.inodes@.len() && 0 <= k < s.inodes@[j].blocks@.len() && 0 <= f < s.free@.len()
                implies #[trigger] s.block_of(j, k) != #[trigger] s.free@[f] by {
                if f == nf {
                    assert(o.block_of(j, k) != o.block_of(i as int, ol));
                } else {
                    assert(o.block_of(j, k) != o.free@[f]);
                }
            }
            assert forall|f: int, g: int|
                0 <= f < s.free@.len() && 0 <= g < s.free@.len() && f != g
                implies #[trigger] s.free@[f] != #[trigger] s.free@[g] by {
                if f == nf {
                    assert(o.block_of(i as int, ol) != o.free@[g]);
                } else if g == nf {
                    assert(o.block_of(i as int, ol) != o.free@[f]);
                } else {
                    assert(o.free@[f] != o.free@[g]);
                }
            }
            assert forall|f: int| 0 <= f < s.free@.len() implies (#[trigger] s.free@[f]) < s.total_blocks by {
                if f == nf {
                    assert(o.block_of(i as int, ol) < o.total_blocks);
                } else {
                    assert(o.free@[f] < o.total_blocks);
                }
            }
            assert forall|j: int, k: int, j2: int, l: int|
                0 <= j < s.inodes@.len() && 0 <= k < s.inodes@[j].blocks@.len() && 0 <= j2
                    < s.inodes@.len() && 0 <= l < s.inodes@[j2].blocks@.len() && (j != j2 || k != l)
                implies #[trigger] s.block_of(j, k) != #[trigger] s.block_of(j2, l) by {
                assert(o.block_of(j, k) != o.block_of(j2, l));
            }
            assert forall|j: int| 0 <= j < s.inodes@.len() implies (#[trigger] s.inodes@[j]).wf(s.inodes@.len()) by {
                assert(o.inodes@[j].wf(o.inodes@.len()));
            }
        }
    }

    /// Empties inode `i`: its size becomes 0, a directory loses its entries,
    /// and every block it owned goes back to the free list.
    pub fn clear_data(&mut self, i: usize)
        requires
            old(self).wf(),
            i < old(self).inodes@.len(),
        ensures
            final(self).wf(),
            final(self).inodes@.len() == old(self).inodes@.len(),
            forall|j: int| 0 <= j < old(self).inodes@.len() && j != i ==> #[trigger] final(self).inodes@[j] == old(self).inodes@[j],
            final(self).inodes@[i as int].size == 0,
            final(self).inodes@[i as int].blocks@.len() == 0,
            final(self).inodes@[i as int].entries@.len() == 0,
            final(self).inodes@[i as int].type_ == old(self).inodes@[i as int].type_,
            final(self).inodes@[i as int].nlink == old(self).inodes@[i as int].nlink,
            final(self).free@.len() == old(self).free@.len() + old(self).inodes@[i as int].blocks@.len(),
            final(self).free@.subrange(0, old(self).free@.len() as int) == old(self).free@,
            forall|k: int| 0 <= k < old(self).inodes@[i as int].blocks@.len()
                ==> final(self).free@.contains(#[trigger] old(self).inodes@[i as int].blocks@[k]),
    {
        let mut ino = DiskInode::empty();
        self.inodes.set_and_swap(i, &mut ino);
        ino.size = 0;
        ino.entries = Vec::new();
        self.inodes.set(i, ino);
        let ghost mid = *self;
        proof {
            let o = old(self);
            let s = &*self;
            assert(same_blocks(o, s));
            lemma_same_blocks(o, s);
            assert forall|j: int| 0 <= j < s.inodes@.len() implies (#[trigger] s.inodes@[j]).wf(s.inodes@.len()) by {
                assert(o.inodes@[j].wf(o.inodes@.len()));
            }
        }
        let n = self.inodes[i].blocks.len();
        while self.inodes[i].blocks.len() > 0
            invariant
                self.wf(),
                i < self.inodes@.len(),
                mid.inodes@.len() == self.inodes@.len(),
                old(self).inodes@.len() == self.inodes@.len(),
                forall|j: int| 0 <= j < old(self).inodes@.len() && j != i ==> #[trigger] self.inodes@[j] == old(self).inodes@[j],
                self.inodes@[i as int].size == 0,
                self.inodes@[i as int].entries@.len() == 0,
                self.inodes@[i as int].type_ == old(self).inodes@[i as int].type_,
                self.inodes@[i as int].nlink == old(self).inodes@[i as int].nlink,
                n == old(self).inodes@[i as int].blocks@.len(),
                self.inodes@[i as int].blocks@.len() <= n,
                self.inodes@[i as int].blocks@ == old(self).inodes@[i as int].blocks@.subrange(0, self.inodes@[i as int].blocks@.len() as int),
                self.free@.len() == old(self).free@.len() + n - self.inodes@[i as int].blocks@.len(),
                self.free@.subrange(0, old(self).free@.len() as int) == old(self).free@,
                forall|k: int| self.inodes@[i as int].blocks@.len() <= k < n
                    ==> self.free@.contains(#[trigger] old(self).inodes@[i as int].blocks@[k]),
            decreases self.inodes@[i as int].blocks@.len(),
        {
            let ghost pre = *self;
            self.release_last_block(i);
            proof {
                let o = old(self);
                let s = &*self;
                let len = s.inodes@[i as int].blocks@.len();
                assert(s.inodes@[i as int].blocks@ =~= o.inodes@[i as int].blocks@.subrange(0, len as int));
                assert(s.free@.subrange(0, o.free@.len() as int) =~= o.free@) by {
                    assert(pre.free@.subrange(0, o.free@.len() as int) == o.free@);
                }
                assert forall|k: int| len <= k < n implies s.free@.contains(#[trigger] o.inodes@[i as int].blocks@[k]) by {
                    if k == len {
                        assert(s.free@[s.free@.len() - 1] == o.inodes@[i as int].blocks@[k]);
                    } else {
                        let f = choose|f: int| 0 <= f < pre.free@.len() && pre.free@[f] == o.inodes@[i as int].blocks@[k];
                        assert(s.free@[f] == pre.free@[f]);
                    }
                }
            }
        }
    }
}

/// The entries after the one at `k` is deleted by moving the last into its place.
pub open spec fn swap_delete(entries: Seq<DirEntry>, k: int) -> Seq<DirEntry> {
    entries.update(k, entries.last()).drop_last()
}

/// How many bytes a read of `len` bytes from `offset` gets from `size` bytes.
pub open spec fn read_len(size: int, offset: int, len: int) -> int {
    if offset >= size {
        0
    } else if len < size - offset {
        len
    } else {
        size - offset
    }
}

impl FileSystem {
    /// The position of the entry of directory `d` named `name`, if any.
    pub fn entry_index(&self, d: usize, name: &String) -> (r: Option<usize>)
        requires
            self.wf(),
            d < self.inodes@.len(),
        ensures
            r.is_none() <==> !has_name(self.inodes@[d as int].entries@, name@),
            r.is_some() ==> r.unwrap() < self.inodes@[d as int].entries@.len()
                && self.inodes@[d as int].entries@[r.unwrap() as int].name@ == name@,
    {
        let n = self.inodes[d].entries.len();
        let mut k: usize = 0;
        while k < n
            invariant
                d < self.inodes@.len(),
                n == self.inodes@[d as int].entries@.len(),
                k <= n,
                forall|m: int| 0 <= m < k ==> (#[trigger] self.inodes@[d as int].entries@[m]).name@ != name@,
            decreases n - k,
        {
            if self.inodes[d].entries[k].name.eq(name) {
                return Some(k);
            }
            k = k + 1;
        }
        None
    }

    /// Appends the entry `{name, num}` to directory `d`, growing it by one
    /// record. Fails, changing nothing, when the directory cannot grow.
    pub fn append_entry(&mut self, d: usize, name: String, num: u32) -> (ok: bool)
        requires
            old(self).wf(),
            d < old(self).inodes@.len(),
            old(self).inodes@[d as int].is_dir(),
            !has_name(old(self).inodes@[d as int].entries@, name@),
            num < old(self).inodes@.len(),
        ensures
            final(self).wf(),
            ok == (old(self).inodes@[d as int].size + DIRENT_SZ <= u32::MAX && blocks_for(
                (old(self).inodes@[d as int].size + DIRENT_SZ) as nat,
            ) <= old(self).inodes@[d as int].blocks@.len() + old(self).free@.len()),
            !ok ==> *final(self) == *old(self),
            ok ==> final(self).inodes@[d as int].entries@ == old(self).inodes@[d as int].entries@.push(
                DirEntry { name, inode_number: num },
            ),
            ok ==> final(self).inodes@[d as int].size == old(self).inodes@[d as int].size + DIRENT_SZ,
            ok ==> final(self).inodes@[d as int].type_ == old(self).inodes@[d as int].type_,
            ok ==> final(self).inodes@[d as int].nlink == old(self).inodes@[d as int].nlink,
            ok ==> grown(old(self), final(self), d as int),
            ok ==> final(self).inodes@[d as int].blocks@.len() == if blocks_for(
                (old(self).inodes@[d as int].size + DIRENT_SZ) as nat,
            ) <= old(self).inodes@[d as int].blocks@.len() {
                old(self).inodes@[d as int].blocks@.len()
            } else {
                blocks_for((old(self).inodes@[d as int].size + DIRENT_SZ) as nat)
            },
    {
        let size = self.inodes[d].size;
        if size > u32::MAX - 32 {
            return false;
        }
        if !self.grow_blocks(d, size + 32) {
            return false;
        }
        let ghost mid = *self;
        let mut ino = DiskInode::empty();
        self.inodes.set_and_swap(d, &mut ino);
        ino.size = size + 32;
        ino.entries.push(DirEntry { name, inode_number: num });
        self.inodes.set(d, ino);
        proof {
            let s = &*self;
            let o = old(self);
            assert(same_blocks(&mid, s));
            lemma_same_blocks(&mid, s);
            assert forall|j: int| 0 <= j < s.inodes@.len() implies (#[trigger] s.inodes@[j]).wf(s.inodes@.len()) by {
                assert(mid.inodes@[j].wf(mid.inodes@.len()));
                if j == d {
                    let es = s.inodes@[j].entries@;
                    let last = es.len() - 1;
                    assert forall|a: int, b: int| 0 <= a < es.len() && 0 <= b < es.len() && a != b
                        implies #[trigger] es[a].name@ != #[trigger] es[b].name@ by {
                        if a == last {
                            assert(o.inodes@[d as int].entries@[b] == es[b]);
                        } else if b == last {
                            assert(o.inodes@[d as int].entries@[a] == es[a]);
                        } else {
                            assert(o.inodes@[d as int].entries@[a] == es[a]);
                            assert(o.inodes@[d as int].entries@[b] == es[b]);
                        }
                    }
                    assert forall|k: int| 0 <= k < es.len() implies (#[trigger] es[k]).inode_number < s.inodes@.len() by {
                        if k < last {
                            assert(o.inodes@[d as int].entries@[k] == es[k]);
                        }
                    }
                }
            }
        }
        true
    }

    /// Deletes the entry of directory `d` named `name`, if any, by moving the
    /// last entry into its place and shrinking the directory by one record.
    pub fn remove_entry(&mut self, d: usize, name: &String) -> (r: Option<usize>)
        requires
            old(self).wf(),
            d < old(self).inodes@.len(),
            old(self).inodes@[d as int].is_dir(),
        ensures
            final(self).wf(),
            r.is_none() <==> !has_name(old(self).inodes@[d as int].entries@, name@),
            r.is_none() ==> *final(self) == *old(self),
            r.is_some() ==> {
                let k = r.unwrap() as int;
                &&& k < old(self).inodes@[d as int].entries@.len()
                &&& old(self).inodes@[d as int].entries@[k].name@ == name@
                &&& final(self).inodes@[d as int].entries@ == swap_delete(old(self).inodes@[d as int].entries@, k)
                &&& final(self).inodes@[d as int].size == old(self).inodes@[d as int].size - DIRENT_SZ
                &&& final(self).inodes@[d as int].type_ == old(self).inodes@[d as int].type_
                &&& final(self).inodes@[d as int].nlink == old(self).inodes@[d as int].nlink
                &&& final(self).inodes@[d as int].blocks@ == old(self).inodes@[d as int].blocks@
                &&& same_blocks(old(self), final(self))
                &&& final(self).data@ == old(self).data@
                &&& forall|j: int| 0 <= j < old(self).inodes@.len() && j != d ==> #[trigger] final(self).inodes@[j] == old(self).inodes@[j]
            },
    {
        let k = match self.entry_index(d, name) {
            Some(k) => k,
            None => return None,
        };
        proof {
            assert(self.inodes@[d as int].wf(self.inodes@.len()));
        }
        let mut ino = DiskInode::empty();
        self.inodes.set_and_swap(d, &mut ino);
        let _gone = ino.entries.swap_remove(k);
        ino.size = ino.size - 32;
        self.inodes.set(d, ino);
        proof {
            let s = &*self;
            let o = old(self);
            assert(same_blocks(o, s));
            lemma_same_blocks(o, s);
            let oes = o.inodes@[d as int].entries@;
            let es = s.inodes@[d as int].entries@;
            assert(es == swap_delete(oes, k as int));
            assert forall|a: int| 0 <= a < es.len() implies exists|b: int| 0 <= b < oes.len() && (a != k ==> b == a) && #[trigger] es[a] == oes[b] by {
                if a == k {
                    assert(es[a] == oes[oes.len() - 1]);
                } else {
                    assert(es[a] == oes[a]);
                }
            }
            assert forall|j: int| 0 <= j < s.inodes@.len() implies (#[trigger] s.inodes@[j]).wf(s.inodes@.len()) by {
                assert(o.inodes@[j].wf(o.inodes@.len()));
                if j == d {
                    let last = oes.len() - 1;
                    assert forall|a: int, b: int| 0 <= a < es.len() && 0 <= b < es.len() && a != b
                        implies #[trigger] es[a].name@ != #[trigger] es[b].name@ by {
                        let a2 = if a == k { last } else { a };
                        let b2 = if b == k { last } else { b };
                        assert(es[a] == oes[a2]);
                        assert(es[b] == oes[b2]);
                    }
                    assert forall|m: int| 0 <= m < es.len() implies (#[trigger] es[m]).inode_number < s.inodes@.len() by {
                        let m2 = if m == k { last } else { m };
                        assert(es[m] == oes[m2]);
                    }
                }
            }
        }
        Some(k)
    }

    /// The names of directory `d`'s entries, in storage order.
    pub fn entry_names(&self, d: usize) -> (r: Vec<String>)
        requires
            self.wf(),
            d < self.inodes@.len(),
        ensures
            r@.len() == self.inodes@[d as int].entries@.len(),
            forall|k: int| 0 <= k < r@.len() ==> #[trigger] r@[k]@ == self.inodes@[d as int].entries@[k].name@,
    {
        let n = self.inodes[d].entries.len();
        let mut v: Vec<String> = Vec::new();
        let mut k: usize = 0;
        while k < n
            invariant
                d < self.inodes@.len(),
                n == self.inodes@[d as int].entries@.len(),
                k <= n,
                v@.len() == k,
                forall|m: int| 0 <= m < k ==> #[trigger] v@[m]@ == self.inodes@[d as int].entries@[m].name@,
            decreases n - k,
        {
            v.push(self.inodes[d].entries[k].name.clone());
            k = k + 1;
        }
        v
    }

    /// Sets the link count of inode `i`.
    pub fn set_nlink(&mut self, i: usize, n: u32)
        requires
            old(self).wf(),
            i < old(self).inodes@.len(),
        ensures
            final(self).wf(),
            final(self).inodes@ == old(self).inodes@.update(i as int, DiskInode { nlink: n, ..old(self).inodes@[i as int] }),
            same_blocks(old(self), final(self)),
            final(self).data@ == old(self).data@,
    {
        let mut ino = DiskInode::empty();
        self.inodes.set_and_swap(i, &mut ino);
        ino.nlink = n;
        self.inodes.set(i, ino);
        proof {
            let s = &*self;
            let o = old(self);
            assert(same_blocks(o, s));
            lemma_same_blocks(o, s);
            assert forall|j: int| 0 <= j < s.inodes@.len() implies (#[trigger] s.inodes@[j]).wf(s.inodes@.len()) by {
                assert(o.inodes@[j].wf(o.inodes@.len()));
            }
        }
    }
}

} // verus!
