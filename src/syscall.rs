use vstd::prelude::*;
use crate::fs::{has_name, read_len, swap_delete, DiskInodeType, FileSystem};
use crate::vfs::{appendable, can_write, lookup, trim_nul, trim_nul_str, wrote, Inode};

verus! {

/// The root directory of `fs` is inode 0.
pub open spec fn rooted(fs: &FileSystem) -> bool {
    &&& fs.wf()
    &&& fs.inodes@.len() >= 1
    &&& fs.inodes@[0].is_dir()
}

/// The entries of the root directory.
pub open spec fn root_entries(fs: &FileSystem) -> Seq<crate::fs::DirEntry> {
    fs.inodes@[0].entries@
}

/// Gives the file `old_name` of the root directory the second name
/// `new_name`, and adds one to its link count. Returns 0 on success and -1,
/// changing nothing, when `old_name` is missing, the two names are equal,
/// `new_name` is taken, the link count is at its largest, or the directory
/// cannot grow.
pub fn sys_linkat(fs: &mut FileSystem, old_name: &str, new_name: &str) -> (r: isize)
    requires
        rooted(old(fs)),
    ensures
        rooted(final(fs)),
        r == 0 || r == -1,
        r == 0 <==> {
            &&& has_name(root_entries(old(fs)), trim_nul(old_name@))
            &&& trim_nul(old_name@) != trim_nul(new_name@)
            &&& !has_name(root_entries(old(fs)), trim_nul(new_name@))
            &&& old(fs).inodes@[lookup(root_entries(old(fs)), trim_nul(old_name@)).unwrap() as int].nlink < u32::MAX
            &&& appendable(old(fs), 0)
        },
        r == -1 ==> *final(fs) == *old(fs),
        r == 0 ==> {
            let t = lookup(root_entries(old(fs)), trim_nul(old_name@)).unwrap() as int;
            let es = root_entries(old(fs));
            let es2 = root_entries(final(fs));
            &&& final(fs).inodes@[t].nlink == old(fs).inodes@[t].nlink + 1
            &&& es2.len() == es.len() + 1
            &&& es2.subrange(0, es.len() as int) == es
            &&& es2[es.len() as int].name@ == trim_nul(new_name@)
            &&& es2[es.len() as int].inode_number == t
            &&& has_name(es2, trim_nul(new_name@))
            &&& lookup(root_entries(final(fs)), trim_nul(new_name@)) == Some(t as u32)
        },
{
    let root = Inode::root();
    let old_inode = match root.find(fs, old_name) {
        Some(h) => h,
        None => return -1,
    };
    if trim_nul_str(old_name).to_owned().eq(&trim_nul_str(new_name).to_owned()) {
        return -1;
    }
    if root.find(fs, new_name).is_some() {
        return -1;
    }
    if old_inode.get_nlink(fs) == u32::MAX {
        return -1;
    }
    let ghost before = *fs;
    match root.create_link(fs, new_name, &old_inode) {
        Some(h) => {
            let ghost mid = *fs;
            proof {
                let es = root_entries(&mid);
                let n = root_entries(&before).len() as int;
                assert(es[n].name@ == trim_nul(new_name@));
                assert(has_name(es, trim_nul(new_name@)));
                assert(mid.inodes@[0].wf(mid.inodes@.len()));
                let c = choose|c: int| 0 <= c < es.len() && #[trigger] es[c].name@ == trim_nul(new_name@);
                assert(es[c].name@ == es[n].name@);
                if old_inode.index() != 0 {
                    assert(mid.inodes@[old_inode.index()] == before.inodes@[old_inode.index()]);
                }
            }
            h.increase_nlink(fs);
            proof {
                let s = &*fs;
                let es = root_entries(&mid);
                assert(root_entries(s) == es);
            }
            0
        },
        None => -1,
    }
}

/// Removes the name `name` from the root directory and takes one from the
/// link count of its file; when that count reaches zero the file's data is
/// released. Returns 0 on success and -1, changing nothing, when the name
/// is missing or its file's link count is already zero.
pub fn sys_unlinkat(fs: &mut FileSystem, name: &str) -> (r: isize)
    requires
        rooted(old(fs)),
    ensures
        rooted(final(fs)),
        r == 0 || r == -1,
        r == 0 <==> has_name(root_entries(old(fs)), trim_nul(name@)) && old(fs).inodes@[lookup(
            root_entries(old(fs)),
            trim_nul(name@),
        ).unwrap() as int].nlink >= 1,
        r == -1 ==> *final(fs) == *old(fs),
        r == 0 ==> {
            let t = lookup(root_entries(old(fs)), trim_nul(name@)).unwrap() as int;
            let es = root_entries(old(fs));
            &&& final(fs).inodes@[t].nlink == old(fs).inodes@[t].nlink - 1
            &&& old(fs).inodes@[t].nlink == 1 ==> final(fs).inodes@[t].size == 0
                && final(fs).inodes@[t].blocks@.len() == 0
            &&& t == 0 && old(fs).inodes@[t].nlink == 1 ==> root_entries(final(fs)).len() == 0
            &&& (t != 0 || old(fs).inodes@[t].nlink != 1) ==> exists|k: int|
                0 <= k < es.len() && #[trigger] es[k].name@ == trim_nul(name@) && root_entries(final(fs))
                    == swap_delete(es, k)
        },
{
    let root = Inode::root();
    let inode = match root.find(fs, name) {
        Some(h) => h,
        None => return -1,
    };
    if inode.get_nlink(fs) == 0 {
        return -1;
    }
    let ghost before = *fs;
    let removed = root.remove_dirent(fs, name);
    let ghost mid = *fs;
    proof {
        assert(removed);
        assert(inode.valid(&mid));
        if inode.index() != 0 {
            assert(mid.inodes@[inode.index()] == before.inodes@[inode.index()]);
        }
    }
    let gone = inode.decrease_nlink(fs);
    let ghost mid2 = *fs;
    proof {
        assert(mid2.inodes@[0].type_ == mid.inodes@[0].type_);
    }
    if gone {
        inode.clear(fs);
        proof {
            if inode.index() != 0 {
                assert(fs.inodes@[0] == mid2.inodes@[0]);
            } else {
                assert(inode.disk(&*fs).type_ == inode.disk(&mid2).type_);
            }
        }
    }
    proof {
        assert(fs.inodes@[0].type_ == mid2.inodes@[0].type_);
        assert(mid.inodes@[0].type_ == before.inodes@[0].type_);
        assert(root_entries(&mid2) == root_entries(&mid));
        if inode.index() != 0 || !gone {
            assert(root_entries(&*fs) == root_entries(&mid));
        }
    }
    0
}

/// Closes descriptor `fd`. Returns 0 on success and -1, changing nothing,
/// when `fd` is out of the table or not open.
pub fn sys_close<T>(fd_table: &mut Vec<Option<T>>, fd: usize) -> (r: isize)
    ensures
        r == 0 || r == -1,
        r == 0 <==> fd < old(fd_table)@.len() && old(fd_table)@[fd as int].is_some(),
        r == -1 ==> final(fd_table)@ == old(fd_table)@,
        r == 0 ==> final(fd_table)@ == old(fd_table)@.update(fd as int, None),
{
    if fd >= fd_table.len() {
        return -1;
    }
    if fd_table[fd].is_none() {
        return -1;
    }
    fd_table.set(fd, None);
    0
}

/// An open file: the inode, what it was opened for, and where the next
/// read or write starts.
#[derive(Clone, Copy, Debug, PartialEq, Eq, Structural)]
pub struct OpenFile {
    pub readable: bool,
    pub writable: bool,
    pub offset: usize,
    pub inode: Inode,
}

/// Every open file of `table` addresses an inode of `fs`.
pub open spec fn table_ok(fs: &FileSystem, table: Seq<Option<OpenFile>>) -> bool {
    forall|k: int| 0 <= k < table.len() && (#[trigger] table[k]).is_some() ==> table[k].unwrap().inode.valid(fs)
}

/// Open for writing only.
pub const O_WRONLY: u32 = 1;
/// Open for reading and writing.
pub const O_RDWR: u32 = 2;
/// Create the file when it is missing; empty it when it is there.
pub const O_CREATE: u32 = 512;
/// Empty the file.
pub const O_TRUNC: u32 = 1024;

/// The flags are a combination of the known bits.
pub open spec fn flags_known(flags: u32) -> bool {
    flags & !(O_WRONLY | O_RDWR | O_CREATE | O_TRUNC) == 0
}

/// Whether `flags` open for reading and for writing.
pub open spec fn access_of(flags: u32) -> (bool, bool) {
    if flags & 3 == 0 {
        (true, false)
    } else if flags & O_WRONLY != 0 {
        (false, true)
    } else {
        (true, true)
    }
}

/// File status as reported to a task.
#[derive(Clone, Copy, Debug, PartialEq, Eq, Structural)]
pub struct Stat {
    pub dev: u64,
    pub ino: u64,
    pub mode: u32,
    pub nlink: u32,
}

/// Mode of a directory.
pub const MODE_DIR: u32 = 0o040000;
/// Mode of a regular file.
pub const MODE_FILE: u32 = 0o100000;

/// The open file of descriptor `fd`, if any.
pub open spec fn open_at(table: Seq<Option<OpenFile>>, fd: int) -> Option<OpenFile> {
    if 0 <= fd < table.len() {
        table[fd]
    } else {
        None
    }
}

/// Writes `buf` to descriptor `fd` at its offset and moves the offset past
/// it. Returns the number of bytes written, or -1, changing nothing, when
/// `fd` is not open for writing, `buf` is too long for its count to be
/// returned, or the write cannot be done.
pub fn sys_write(fs: &mut FileSystem, fd_table: &mut Vec<Option<OpenFile>>, fd: usize, buf: &[u8]) -> (r: isize)
    requires
        old(fs).wf(),
        table_ok(old(fs), old(fd_table)@),
    ensures
        final(fs).wf(),
        table_ok(final(fs), final(fd_table)@),
        r == -1 || r == buf@.len() as isize,
        open_at(old(fd_table)@, fd as int).is_none() ==> r == -1,
        open_at(old(fd_table)@, fd as int).is_some() && !open_at(old(fd_table)@, fd as int).unwrap().writable ==> r == -1,
        r != -1 <==> {
            let f = open_at(old(fd_table)@, fd as int);
            &&& f.is_some()
            &&& f.unwrap().writable
            &&& buf@.len() <= isize::MAX
            &&& can_write(old(fs), f.unwrap().inode.index(), f.unwrap().offset as int, buf@.len() as int)
        },
        r == -1 ==> *final(fs) == *old(fs) && final(fd_table)@ == old(fd_table)@,
        r != -1 ==> {
            let f = open_at(old(fd_table)@, fd as int).unwrap();
            &&& f.writable
            &&& wrote(old(fs), final(fs), f.inode.index(), f.offset as int, buf@)
            &&& final(fd_table)@ == old(fd_table)@.update(
                fd as int,
                Some(OpenFile { offset: (f.offset + buf@.len()) as usize, ..f }),
            )
        },
{
    if fd >= fd_table.len() {
        return -1;
    }
    let f = match fd_table[fd] {
        Some(f) => f,
        None => return -1,
    };
    if !f.writable || buf.len() > isize::MAX as usize {
        return -1;
    }
    proof {
        assert(old(fd_table)@[fd as int].is_some());
    }
    match f.inode.write_at(fs, f.offset, buf) {
        None => -1,
        Some(n) => {
            fd_table.set(fd, Some(OpenFile { offset: f.offset + n, ..f }));
            proof {
                assert forall|k: int| 0 <= k < fd_table@.len() && (#[trigger] fd_table@[k]).is_some()
                    implies fd_table@[k].unwrap().inode.valid(&*fs) by {
                    if k != fd {
                        assert(old(fd_table)@[k] == fd_table@[k]);
                    }
                }
            }
            n as isize
        },
    }
}

/// Reads from descriptor `fd` at its offset into `buf` and moves the offset
/// past what was read. Returns the number of bytes read, or -1 when `fd` is
/// not open for reading or `buf` is too long for its count to be returned.
pub fn sys_read(fs: &FileSystem, fd_table: &mut Vec<Option<OpenFile>>, fd: usize, buf: &mut [u8]) -> (r: isize)
    requires
        fs.wf(),
        table_ok(fs, old(fd_table)@),
    ensures
        table_ok(fs, final(fd_table)@),
        final(buf)@.len() == old(buf)@.len(),
        r == -1 <==> (open_at(old(fd_table)@, fd as int).is_none() || !open_at(old(fd_table)@, fd as int).unwrap().readable
            || old(buf)@.len() > isize::MAX),
        r == -1 ==> final(fd_table)@ == old(fd_table)@ && final(buf)@ == old(buf)@,
        r != -1 ==> {
            let f = open_at(old(fd_table)@, fd as int).unwrap();
            let n = read_len(f.inode.disk(fs).size as int, f.offset as int, old(buf)@.len() as int);
            &&& r == n
            &&& forall|p: int| 0 <= p < n ==> #[trigger] final(buf)@[p] == fs.content(f.inode.index())[f.offset + p]
            &&& final(buf)@.subrange(n, old(buf)@.len() as int) == old(buf)@.subrange(n, old(buf)@.len() as int)
            &&& final(fd_table)@ == old(fd_table)@.update(fd as int, Some(OpenFile { offset: (f.offset + n) as usize, ..f }))
        },
{
    if fd >= fd_table.len() {
        return -1;
    }
    let f = match fd_table[fd] {
        Some(f) => f,
        None => return -1,
    };
    if !f.readable || buf.len() > isize::MAX as usize {
        return -1;
    }
    proof {
        assert(old(fd_table)@[fd as int].is_some());
        assert(fs.inodes@[f.inode.index()].wf(fs.inodes@.len()));
    }
    let n = f.inode.read_at(fs, f.offset, buf);
    fd_table.set(fd, Some(OpenFile { offset: f.offset + n, ..f }));
    proof {
        assert forall|k: int| 0 <= k < fd_table@.len() && (#[trigger] fd_table@[k]).is_some()
            implies fd_table@[k].unwrap().inode.valid(fs) by {
            if k != fd {
                assert(old(fd_table)@[k] == fd_table@[k]);
            }
        }
    }
    n as isize
}

/// The status of the file of descriptor `fd`, or `None` when it is not open.
pub fn sys_fstat(fs: &FileSystem, fd_table: &Vec<Option<OpenFile>>, fd: usize) -> (r: Option<Stat>)
    requires
        fs.wf(),
        table_ok(fs, fd_table@),
    ensures
        r.is_some() == open_at(fd_table@, fd as int).is_some(),
        r.is_some() ==> {
            let f = open_at(fd_table@, fd as int).unwrap();
            &&& r.unwrap().dev == 0
            &&& r.unwrap().ino == f.inode.block_id as u64
            &&& r.unwrap().mode == (if f.inode.disk(fs).is_dir() { MODE_DIR } else { MODE_FILE })
            &&& r.unwrap().nlink == f.inode.disk(fs).nlink
        },
{
    if fd >= fd_table.len() {
        return None;
    }
    let f = match fd_table[fd] {
        Some(f) => f,
        None => return None,
    };
    proof {
        assert(fd_table@[fd as int].is_some());
    }
    let mode = match f.inode.get_type(fs) {
        DiskInodeType::Directory => MODE_DIR,
        DiskInodeType::File => MODE_FILE,
    };
    Some(Stat { dev: 0, ino: f.inode.inode_id() as u64, mode, nlink: f.inode.get_nlink(fs) })
}

/// Opens the file `path` of the root directory with `flags` and returns the
/// lowest free descriptor for it. With `O_CREATE` a missing file is
/// created and an existing one emptied; with `O_TRUNC` an existing file is
/// emptied. Returns -1, changing nothing, when `flags` holds an unknown
/// bit, the table is full, or the file is missing and is not, or cannot
/// be, created.
pub fn sys_open(fs: &mut FileSystem, fd_table: &mut Vec<Option<OpenFile>>, path: &str, flags: u32) -> (r: isize)
    requires
        rooted(old(fs)),
        table_ok(old(fs), old(fd_table)@),
    ensures
        rooted(final(fs)),
        table_ok(final(fs), final(fd_table)@),
        r >= -1,
        r == -1 <==> {
            ||| !flags_known(flags)
            ||| old(fd_table)@.len() >= isize::MAX
            ||| !has_name(root_entries(old(fs)), trim_nul(path@)) && (flags & O_CREATE == 0 || old(fs).inodes@.len()
                >= old(fs).inode_capacity || !appendable(old(fs), 0))
        },
        r == -1 ==> *final(fs) == *old(fs) && final(fd_table)@ == old(fd_table)@,
        r >= 0 ==> {
            let f = final(fd_table)@[r as int].unwrap();
            let t = lookup(root_entries(old(fs)), trim_nul(path@));
            &&& r < final(fd_table)@.len()
            &&& final(fd_table)@[r as int].is_some()
            &&& (r < old(fd_table)@.len() ==> old(fd_table)@[r as int].is_none())
            &&& (forall|k: int| 0 <= k < r && k < old(fd_table)@.len() ==> (#[trigger] old(fd_table)@[k]).is_some())
            &&& (forall|k: int| 0 <= k < old(fd_table)@.len() && k != r ==> #[trigger] final(fd_table)@[k] == old(fd_table)@[k])
            &&& final(fd_table)@.len() == if r < old(fd_table)@.len() { old(fd_table)@.len() } else { old(fd_table)@.len() + 1 }
            &&& (f.readable, f.writable) == access_of(flags)
            &&& f.offset == 0
            &&& f.inode.valid(final(fs))
            &&& (t.is_some() ==> f.inode.index() == t.unwrap() as int)
            &&& (t.is_some() && flags & (O_CREATE | O_TRUNC) != 0 ==> f.inode.disk(final(fs)).size == 0)
            &&& (t.is_none() ==> f.inode.index() == old(fs).inodes@.len() && f.inode.disk(final(fs)).size == 0
                && crate::vfs::appended(old(fs), final(fs), 0, trim_nul(path@), f.inode.index()))
        },
{
    if flags & !(O_WRONLY | O_RDWR | O_CREATE | O_TRUNC) != 0 {
        return -1;
    }
    if fd_table.len() >= isize::MAX as usize {
        return -1;
    }
    let (readable, writable) = if flags & 3 == 0 {
        (true, false)
    } else if flags & O_WRONLY != 0 {
        (false, true)
    } else {
        (true, true)
    };
    let root = Inode::root();
    let inode = match root.find(fs, path) {
        Some(h) => {
            if flags & (O_CREATE | O_TRUNC) != 0 {
                h.clear(fs);
                proof {
                    if h.index() != 0 {
                        assert(fs.inodes@[0] == old(fs).inodes@[0]);
                    }
                }
            }
            h
        },
        None => {
            if flags & O_CREATE == 0 {
                return -1;
            }
            match root.create(fs, path) {
                Some(h) => h,
                None => return -1,
            }
        },
    };
    let ghost opened = *fs;
    proof {
        assert forall|k: int| 0 <= k < fd_table@.len() && (#[trigger] fd_table@[k]).is_some()
            implies fd_table@[k].unwrap().inode.valid(&*fs) by {
            assert(fd_table@[k].unwrap().inode.valid(old(fs)));
        }
        assert(fs.inodes@[0].type_ == old(fs).inodes@[0].type_);
    }
    let n = fd_table.len();
    let mut fd: usize = 0;
    while fd < n && fd_table[fd].is_some()
        invariant
            n == fd_table@.len(),
            fd <= n,
            forall|k: int| 0 <= k < fd ==> (#[trigger] fd_table@[k]).is_some(),
        decreases n - fd,
    {
        fd = fd + 1;
    }
    let file = OpenFile { readable, writable, offset: 0, inode };
    if fd == n {
        fd_table.push(Some(file));
    } else {
        fd_table.set(fd, Some(file));
    }
    proof {
        assert forall|k: int| 0 <= k < fd_table@.len() && (#[trigger] fd_table@[k]).is_some()
            implies fd_table@[k].unwrap().inode.valid(&*fs) by {
            if k != fd {
                assert(fd_table@[k] == old(fd_table)@[k]);
                assert(old(fd_table)@[k].unwrap().inode.valid(old(fs)));
            }
        }
        assert((flags & 3 == 0) == (flags & O_WRONLY == 0 && flags & O_RDWR == 0)) by (bit_vector);
    }
    fd as isize
}

} // verus!
