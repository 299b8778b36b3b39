use vstd::prelude::*;
use crate::fs::{
    has_name, lemma_grown_refl, names_unique, read_len, splice, swap_delete, grown, DirEntry, DiskInode,
    DiskInodeType, FileSystem,
};
use crate::layout::{blocks_for, disk_inode_pos, inode_block, inode_offset, DIRENT_SZ};

verus! {

/// `s` without its leading and trailing NUL padding.
pub open spec fn trim_nul(s: Seq<char>) -> Seq<char> {
    trim_nul_back(trim_nul_front(s))
}

/// `s` without its leading NULs.
pub open spec fn trim_nul_front(s: Seq<char>) -> Seq<char>
    decreases s.len(),
{
    if s.len() > 0 && s[0] == '\0' {
        trim_nul_front(s.drop_first())
    } else {
        s
    }
}

/// `s` without its trailing NULs.
pub open spec fn trim_nul_back(s: Seq<char>) -> Seq<char>
    decreases s.len(),
{
    if s.len() > 0 && s.last() == '\0' {
        trim_nul_back(s.drop_last())
    } else {
        s
    }
}

/// Relies on `str::trim_matches` with the pattern `'\0'`: every leading and
/// every trailing NUL removed, nothing else.
#[verifier::external_body]
pub(crate) fn trim_nul_str(s: &str) -> (r: &str)
    ensures
        r@ == trim_nul(s@),
{
    s.trim_matches('\0')
}

/// The index of the inode named `name` in `entries`, if any.
pub open spec fn lookup(entries: Seq<DirEntry>, name: Seq<char>) -> Option<u32> {
    if has_name(entries, name) {
        Some(entries[choose|k: int| 0 <= k < entries.len() && #[trigger] entries[k].name@ == name].inode_number)
    } else {
        None
    }
}

/// A handle on one inode: the block and in-block offset of its record.
/// Every operation takes the filesystem it lives in; holding it by `&mut`
/// stands for holding the filesystem-wide lock.
#[derive(Clone, Copy, Debug, PartialEq, Eq, Structural)]
pub struct Inode {
    pub block_id: usize,
    pub block_offset: usize,
}

/// What `write_at` leaves behind on success: file `i` reaches at least
/// `off + b.len()` bytes, holds `b` there and its other old bytes, and no
/// other inode changes.
pub open spec fn wrote(a: &FileSystem, b: &FileSystem, i: int, off: int, bytes: Seq<u8>) -> bool {
    let old_size = a.inodes@[i].size as int;
    let new_size = if off + bytes.len() > old_size { off + bytes.len() } else { old_size };
    &&& b.inodes@.len() == a.inodes@.len()
    &&& b.inodes@[i].size == new_size
    &&& b.inodes@[i].type_ == a.inodes@[i].type_
    &&& b.inodes@[i].nlink == a.inodes@[i].nlink
    &&& b.inodes@[i].blocks@.len() == if blocks_for(new_size as nat) <= a.inodes@[i].blocks@.len() {
        a.inodes@[i].blocks@.len()
    } else {
        blocks_for(new_size as nat)
    }
    &&& a.free@.len() - b.free@.len() == b.inodes@[i].blocks@.len() - a.inodes@[i].blocks@.len()
    &&& forall|p: int| 0 <= p < bytes.len() ==> #[trigger] b.content(i)[off + p] == bytes[p]
    &&& forall|p: int| 0 <= p < old_size && !(off <= p < off + bytes.len()) ==> #[trigger] b.content(i)[p] == a.content(i)[p]
    &&& forall|j: int| 0 <= j < a.inodes@.len() && j != i ==> #[trigger] b.inodes@[j] == a.inodes@[j]
    &&& forall|j: int| 0 <= j < a.inodes@.len() && j != i ==> #[trigger] b.content(j) == a.content(j)
}

impl Inode {
    /// The inode index this handle addresses.
    pub open spec fn index(&self) -> int {
        (self.block_id - 2) * 4 + self.block_offset / 128
    }

    /// The handle addresses an inode record of `fs`.
    pub open spec fn valid(&self, fs: &FileSystem) -> bool {
        &&& self.block_id >= 2
        &&& self.block_offset % 128 == 0
        &&& self.block_offset < 512
        &&& 0 <= self.index() < fs.inodes@.len()
    }

    /// The record this handle addresses.
    pub open spec fn disk(&self, fs: &FileSystem) -> DiskInode {
        fs.inodes@[self.index()]
    }

    /// A handle on the record at `block_offset` within block `block_id`.
    pub fn new(block_id: u32, block_offset: usize) -> (r: Inode)
        ensures
            r.block_id == block_id,
            r.block_offset == block_offset,
    {
        Inode { block_id: block_id as usize, block_offset }
    }

    /// The handle on inode `idx`.
    pub fn at(idx: u32) -> (r: Inode)
        ensures
            r.index() == idx,
            r.block_id == inode_block(idx as nat),
            r.block_offset == inode_offset(idx as nat),
            r.block_id >= 2,
            r.block_offset % 128 == 0,
            r.block_offset < 512,
    {
        let (b, o) = disk_inode_pos(idx);
        Inode::new(b, o)
    }

    /// The handle on the root directory, inode 0.
    pub fn root() -> (r: Inode)
        ensures
            r.index() == 0,
            r.block_id >= 2,
            r.block_offset % 128 == 0,
            r.block_offset < 512,
    {
        Inode::at(0)
    }

    /// The block id of this handle's record.
    pub fn inode_id(&self) -> (r: usize)
        ensures
            r == self.block_id,
    {
        self.block_id
    }

    /// The inode index this handle addresses, computed.
    fn disk_index(&self, Ghost(fs): Ghost<&FileSystem>) -> (r: usize)
        requires
            fs.wf(),
            self.valid(fs),
        ensures
            r == self.index(),
    {
        (self.block_id - 2) * 4 + self.block_offset / 128
    }

    /// The link count of the record.
    pub fn get_nlink(&self, fs: &FileSystem) -> (r: u32)
        requires
            fs.wf(),
            self.valid(fs),
        ensures
            r == self.disk(fs).nlink,
    {
        let i = self.disk_index(Ghost(fs));
        fs.inodes[i].nlink
    }

    /// The kind of the record.
    pub fn get_type(&self, fs: &FileSystem) -> (r: DiskInodeType)
        requires
            fs.wf(),
            self.valid(fs),
        ensures
            r == self.disk(fs).type_,
    {
        let i = self.disk_index(Ghost(fs));
        fs.inodes[i].type_
    }

    /// Adds one to the link count of the record.
    pub fn increase_nlink(&self, fs: &mut FileSystem)
        requires
            old(fs).wf(),
            self.valid(old(fs)),
            self.disk(old(fs)).nlink < u32::MAX,
        ensures
            final(fs).wf(),
            final(fs).inodes@ == old(fs).inodes@.update(
                self.index(),
                DiskInode { nlink: (self.disk(old(fs)).nlink + 1) as u32, ..self.disk(old(fs)) },
            ),
            final(fs).data@ == old(fs).data@,
            final(fs).free@ == old(fs).free@,
    {
        let i = self.disk_index(Ghost(&*fs));
        let n = fs.inodes[i].nlink;
        fs.set_nlink(i, n + 1);
    }

    /// Takes one from the link count of the record; true exactly when the
    /// count reaches zero.
    pub fn decrease_nlink(&self, fs: &mut FileSystem) -> (r: bool)
        requires
            old(fs).wf(),
            self.valid(old(fs)),
            self.disk(old(fs)).nlink >= 1,
        ensures
            final(fs).wf(),
            r == (self.disk(old(fs)).nlink == 1),
            r == (self.disk(final(fs)).nlink == 0),
            final(fs).inodes@ == old(fs).inodes@.update(
                self.index(),
                DiskInode { nlink: (self.disk(old(fs)).nlink - 1) as u32, ..self.disk(old(fs)) },
            ),
            final(fs).data@ == old(fs).data@,
            final(fs).free@ == old(fs).free@,
    {
        let i = self.disk_index(Ghost(&*fs));
        let n = fs.inodes[i].nlink - 1;
        fs.set_nlink(i, n);
        n == 0
    }

    /// The inode named `name` in this directory, if any.
    pub fn find(&self, fs: &FileSystem, name: &str) -> (r: Option<Inode>)
        requires
            fs.wf(),
            self.valid(fs),
            self.disk(fs).is_dir(),
        ensures
            r.is_some() == has_name(self.disk(fs).entries@, trim_nul(name@)),
            r.is_some() ==> r.unwrap().valid(fs) && lookup(self.disk(fs).entries@, trim_nul(name@)) == Some(
                r.unwrap().index() as u32,
            ),
    {
        let d = self.disk_index(Ghost(fs));
        let key = trim_nul_str(name).to_owned();
        match fs.entry_index(d, &key) {
            None => None,
            Some(k) => {
                let num = fs.inodes[d].entries[k].inode_number;
                proof {
                    let es = fs.inodes@[d as int].entries@;
                    assert(fs.inodes@[d as int].wf(fs.inodes@.len()));
                    assert(es[k as int].inode_number < fs.inodes@.len());
                    let c = choose|c: int| 0 <= c < es.len() && #[trigger] es[c].name@ == trim_nul(name@);
                    assert(es[c].name@ == es[k as int].name@);
                    assert(c == k);
                }
                Some(Inode::at(num))
            },
        }
    }

    /// Whether directory `d` can take one more record.
    fn can_append(fs: &FileSystem, d: usize) -> (r: bool)
        requires
            fs.wf(),
            d < fs.inodes@.len(),
        ensures
            r == appendable(fs, d as int),
    {
        let size = fs.inodes[d].size;
        if size > u32::MAX - 32 {
            return false;
        }
        let need = crate::layout::blocks_num_needed(size + 32) as usize;
        let have = fs.inodes[d].blocks.len();
        need <= have || need - have <= fs.free.len()
    }

    /// Creates an empty file named `name` in this directory and returns a
    /// handle on it. Returns `None`, changing nothing, when the name is taken,
    /// no inode slot is free or the directory cannot grow.
    pub fn create(&self, fs: &mut FileSystem, name: &str) -> (r: Option<Inode>)
        requires
            old(fs).wf(),
            self.valid(old(fs)),
            self.disk(old(fs)).is_dir(),
        ensures
            final(fs).wf(),
            r.is_none() <==> (has_name(self.disk(old(fs)).entries@, trim_nul(name@)) || old(fs).inodes@.len()
                >= old(fs).inode_capacity || !appendable(old(fs), self.index())),
            r.is_none() ==> *final(fs) == *old(fs),
            r.is_some() ==> {
                let h = r.unwrap();
                &&& h.valid(final(fs))
                &&& h.index() == old(fs).inodes@.len()
                &&& final(fs).inodes@.len() == old(fs).inodes@.len() + 1
                &&& h.disk(final(fs)).type_ == DiskInodeType::File
                &&& h.disk(final(fs)).size == 0
                &&& h.disk(final(fs)).nlink == 1
                &&& appended(old(fs), final(fs), self.index(), trim_nul(name@), h.index())
            },
    {
        let d = self.disk_index(Ghost(&*fs));
        let key = trim_nul_str(name).to_owned();
        if fs.entry_index(d, &key).is_some() {
            return None;
        }
        if fs.inodes.len() >= fs.inode_capacity as usize {
            return None;
        }
        if !Inode::can_append(fs, d) {
            return None;
        }
        let idx = match fs.alloc_inode() {
            Some(idx) => idx,
            None => return None,
        };
        let ghost mid = *fs;
        proof {
            assert(mid.inodes@[d as int] == old(fs).inodes@[d as int]);
        }
        let ok = fs.append_entry(d, key, idx);
        proof {
            assert(ok);
            let o = old(fs);
            let s = &*fs;
            lemma_appended(o, &mid, s, d as int, trim_nul(name@), idx as int);
        }
        Some(Inode::at(idx))
    }

    /// Adds the name `name` in this directory for the record of `old_inode`
    /// and returns a handle on that record. The link count is not changed.
    /// Returns `None`, changing nothing, when the name is taken or the
    /// directory cannot grow.
    pub fn create_link(&self, fs: &mut FileSystem, name: &str, old_inode: &Inode) -> (r: Option<Inode>)
        requires
            old(fs).wf(),
            self.valid(old(fs)),
            self.disk(old(fs)).is_dir(),
            old_inode.valid(old(fs)),
        ensures
            final(fs).wf(),
            r.is_none() <==> (has_name(self.disk(old(fs)).entries@, trim_nul(name@)) || !appendable(old(fs), self.index())),
            r.is_none() ==> *final(fs) == *old(fs),
            r.is_some() ==> {
                let h = r.unwrap();
                &&& h.block_id == old_inode.block_id
                &&& h.block_offset == old_inode.block_offset
                &&& final(fs).inodes@.len() == old(fs).inodes@.len()
                &&& appended(old(fs), final(fs), self.index(), trim_nul(name@), old_inode.index())
            },
    {
        let d = self.disk_index(Ghost(&*fs));
        let target = old_inode.disk_index(Ghost(&*fs));
        let key = trim_nul_str(name).to_owned();
        if fs.entry_index(d, &key).is_some() {
            return None;
        }
        if !Inode::can_append(fs, d) {
            return None;
        }
        let ok = fs.append_entry(d, key, target as u32);
        proof {
            assert(ok);
            lemma_grown_refl(old(fs));
            assert(old(fs).inodes@.subrange(0, old(fs).inodes@.len() as int) =~= old(fs).inodes@);
            lemma_appended(old(fs), old(fs), &*fs, d as int, trim_nul(name@), target as int);
        }
        Some(Inode { block_id: old_inode.block_id, block_offset: old_inode.block_offset })
    }

    /// The names in this directory, in storage order.
    pub fn ls(&self, fs: &FileSystem) -> (r: Vec<String>)
        requires
            fs.wf(),
            self.valid(fs),
        ensures
            r@.len() == self.disk(fs).entries@.len(),
            forall|k: int| 0 <= k < r@.len() ==> #[trigger] r@[k]@ == self.disk(fs).entries@[k].name@,
    {
        let d = self.disk_index(Ghost(fs));
        fs.entry_names(d)
    }

    /// Copies bytes of this file from byte `offset` on into `buf`; returns
    /// how many were copied.
    pub fn read_at(&self, fs: &FileSystem, offset: usize, buf: &mut [u8]) -> (r: usize)
        requires
            fs.wf(),
            self.valid(fs),
        ensures
            r == read_len(self.disk(fs).size as int, offset as int, old(buf)@.len() as int),
            final(buf)@.len() == old(buf)@.len(),
            forall|p: int| 0 <= p < r ==> #[trigger] final(buf)@[p] == fs.content(self.index())[offset + p],
            final(buf)@.subrange(r as int, old(buf)@.len() as int) == old(buf)@.subrange(r as int, old(buf)@.len() as int),
    {
        let i = self.disk_index(Ghost(fs));
        fs.read_data(i, offset, buf)
    }

    /// Writes `buf` into this file from byte `offset` on, growing the file
    /// first if it is too short. Returns the number of bytes written, or
    /// `None`, changing nothing, when the record is a directory, the end
    /// would pass the largest size, or too few blocks are free.
    pub fn write_at(&self, fs: &mut FileSystem, offset: usize, buf: &[u8]) -> (r: Option<usize>)
        requires
            old(fs).wf(),
            self.valid(old(fs)),
        ensures
            final(fs).wf(),
            r.is_some() <==> can_write(old(fs), self.index(), offset as int, buf@.len() as int),
            r.is_none() ==> *final(fs) == *old(fs),
            r.is_some() ==> r.unwrap() == buf@.len() && wrote(old(fs), final(fs), self.index(), offset as int, buf@),
    {
        let i = self.disk_index(Ghost(&*fs));
        if fs.inodes[i].type_ == DiskInodeType::Directory {
            return None;
        }
        if offset > u32::MAX as usize || buf.len() > u32::MAX as usize - offset {
            return None;
        }
        let end = (offset + buf.len()) as u32;
        if !fs.increase_size(i, end) {
            return None;
        }
        let ghost mid = *fs;
        proof {
            FileSystem::lemma_grown_content(old(fs), &mid, i as int);
        }
        fs.write_data(i, offset, buf);
        proof {
            let o = old(fs);
            let s = &*fs;
            let c = splice(mid.content(i as int), offset as int, buf@);
            assert(o.inodes@[i as int].wf(o.inodes@.len()));
            assert forall|p: int| 0 <= p < o.inodes@[i as int].size && !(offset <= p < offset + buf@.len())
                implies #[trigger] s.content(i as int)[p] == o.content(i as int)[p] by {
                lemma_pos_in_blocks_mul(p, o.inodes@[i as int].size as int, o.inodes@[i as int].blocks@.len() as int);
                assert(mid.addr(i as int, p) == o.addr(i as int, p));
            }
            assert forall|p: int| 0 <= p < buf@.len() implies #[trigger] s.content(i as int)[offset + p] == buf@[p] by {
                assert(c[offset + p] == buf@[p]);
            }
        }
        Some(buf.len())
    }

    /// Empties this record: size 0, no entries, every data block back on the
    /// free list. The link count is kept.
    pub fn clear(&self, fs: &mut FileSystem)
        requires
            old(fs).wf(),
            self.valid(old(fs)),
        ensures
            final(fs).wf(),
            final(fs).inodes@.len() == old(fs).inodes@.len(),
            forall|j: int| 0 <= j < old(fs).inodes@.len() && j != self.index() ==> #[trigger] final(fs).inodes@[j] == old(fs).inodes@[j],
            self.disk(final(fs)).size == 0,
            self.disk(final(fs)).blocks@.len() == 0,
            self.disk(final(fs)).entries@.len() == 0,
            self.disk(final(fs)).type_ == self.disk(old(fs)).type_,
            self.disk(final(fs)).nlink == self.disk(old(fs)).nlink,
            final(fs).free@.len() == old(fs).free@.len() + self.disk(old(fs)).blocks@.len(),
            forall|k: int| 0 <= k < self.disk(old(fs)).blocks@.len()
                ==> final(fs).free@.contains(#[trigger] self.disk(old(fs)).blocks@[k]),
    {
        let i = self.disk_index(Ghost(&*fs));
        fs.clear_data(i);
    }

    /// Deletes the entry named `name` from this directory, moving the last
    /// entry into its place; true when there was such an entry.
    pub fn remove_dirent(&self, fs: &mut FileSystem, name: &str) -> (r: bool)
        requires
            old(fs).wf(),
            self.valid(old(fs)),
            self.disk(old(fs)).is_dir(),
        ensures
            final(fs).wf(),
            r == has_name(self.disk(old(fs)).entries@, trim_nul(name@)),
            !r ==> *final(fs) == *old(fs),
            r ==> {
                let es = self.disk(old(fs)).entries@;
                &&& exists|k: int| 0 <= k < es.len() && #[trigger] es[k].name@ == trim_nul(name@)
                    && self.disk(final(fs)).entries@ == swap_delete(es, k)
                &&& self.disk(final(fs)).size == self.disk(old(fs)).size - DIRENT_SZ
                &&& self.disk(final(fs)).nlink == self.disk(old(fs)).nlink
                &&& self.disk(final(fs)).type_ == self.disk(old(fs)).type_
                &&& final(fs).inodes@.len() == old(fs).inodes@.len()
                &&& forall|j: int| 0 <= j < old(fs).inodes@.len() && j != self.index() ==> #[trigger] final(fs).inodes@[j] == old(fs).inodes@[j]
            },
    {
        let d = self.disk_index(Ghost(&*fs));
        let key = trim_nul_str(name).to_owned();
        let r = fs.remove_entry(d, &key);
        r.is_some()
    }
}

/// `len` bytes can be written to record `i` from byte `off` on: it is a
/// file, the end stays within the largest size, and enough blocks are free.
pub open spec fn can_write(fs: &FileSystem, i: int, off: int, len: int) -> bool {
    let ino = fs.inodes@[i];
    &&& !ino.is_dir()
    &&& off + len <= u32::MAX
    &&& (off + len <= ino.size || blocks_for((off + len) as nat) <= ino.blocks@.len() + fs.free@.len())
}

/// Directory `d` of `fs` can take one more record.
pub open spec fn appendable(fs: &FileSystem, d: int) -> bool {
    let size = fs.inodes@[d].size as int;
    size + DIRENT_SZ <= u32::MAX && blocks_for((size + DIRENT_SZ) as nat) <= fs.inodes@[d].blocks@.len()
        + fs.free@.len()
}

/// `b` is `a` with the entry `{name, num}` appended to directory `d`; the
/// records that `a` had keep their kind, link count and bytes.
pub open spec fn appended(a: &FileSystem, b: &FileSystem, d: int, name: Seq<char>, num: int) -> bool {
    let es = a.inodes@[d].entries@;
    let es2 = b.inodes@[d].entries@;
    &&& es2.len() == es.len() + 1
    &&& es2.subrange(0, es.len() as int) == es
    &&& es2[es.len() as int].name@ == name
    &&& es2[es.len() as int].inode_number == num
    &&& b.inodes@[d].size == a.inodes@[d].size + DIRENT_SZ
    &&& b.inodes@[d].blocks@.len() == if blocks_for(b.inodes@[d].size as nat) <= a.inodes@[d].blocks@.len() {
        a.inodes@[d].blocks@.len()
    } else {
        blocks_for(b.inodes@[d].size as nat)
    }
    &&& a.free@.len() - b.free@.len() == b.inodes@[d].blocks@.len() - a.inodes@[d].blocks@.len()
    &&& b.inodes@[d].type_ == a.inodes@[d].type_
    &&& b.inodes@[d].nlink == a.inodes@[d].nlink
    &&& forall|j: int| 0 <= j < a.inodes@.len() && j != d ==> #[trigger] b.inodes@[j] == a.inodes@[j]
    &&& forall|j: int| 0 <= j < a.inodes@.len() && j != d ==> #[trigger] b.content(j) == a.content(j)
}

/// The steps of `create` and `create_link` add up to `appended`.
proof fn lemma_appended(o: &FileSystem, mid: &FileSystem, s: &FileSystem, d: int, name: Seq<char>, num: int)
    requires
        o.wf(),
        mid.wf(),
        s.wf(),
        0 <= d < o.inodes@.len(),
        o.inodes@.len() <= mid.inodes@.len(),
        mid.inodes@.subrange(0, o.inodes@.len() as int) == o.inodes@,
        mid.data@ == o.data@,
        mid.free@ == o.free@,
        grown(mid, s, d),
        s.inodes@[d].entries@ == mid.inodes@[d].entries@.push(s.inodes@[d].entries@.last()),
        s.inodes@[d].entries@.last().name@ == name,
        s.inodes@[d].entries@.last().inode_number == num,
        s.inodes@[d].size == mid.inodes@[d].size + DIRENT_SZ,
        s.inodes@[d].blocks@.len() == if blocks_for(s.inodes@[d].size as nat) <= mid.inodes@[d].blocks@.len() {
            mid.inodes@[d].blocks@.len()
        } else {
            blocks_for(s.inodes@[d].size as nat)
        },
        s.inodes@[d].type_ == mid.inodes@[d].type_,
        s.inodes@[d].nlink == mid.inodes@[d].nlink,
    ensures
        appended(o, s, d, name, num),
{
    assert(mid.inodes@[d] == o.inodes@[d]);
    FileSystem::lemma_grown_content(mid, s, d);
    assert forall|j: int| 0 <= j < o.inodes@.len() && j != d implies #[trigger] s.inodes@[j] == o.inodes@[j] by {
        assert(mid.inodes@[j] == o.inodes@[j]);
    }
    assert forall|j: int| 0 <= j < o.inodes@.len() && j != d implies #[trigger] s.content(j) == o.content(j) by {
        assert(mid.inodes@[j] == o.inodes@[j]);
        assert(s.content(j) == mid.content(j));
        assert(mid.content(j) =~= o.content(j));
    }
    assert(s.inodes@[d].entries@.subrange(0, o.inodes@[d].entries@.len() as int) =~= o.inodes@[d].entries@);
}

/// A byte below an inode's size lies below its blocks' end.
proof fn lemma_pos_in_blocks_mul(p: int, size: int, nblocks: int)
    requires
        0 <= p < size,
        nblocks >= (size + 511) / 512,
    ensures
        p < nblocks * 512,
{
    assert(p < nblocks * 512) by (nonlinear_arith)
        requires
            0 <= p < size,
            nblocks >= (size + 511) / 512,
    ;
}

} // verus!
