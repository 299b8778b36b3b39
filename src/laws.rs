use vstd::prelude::*;
use crate::fs::{grown, has_name, names_unique, read_len, swap_delete, DirEntry, FileSystem};
use crate::vfs::wrote;

verus! {

/// In a well-formed filesystem no directory holds two entries of one name.
pub proof fn lemma_names_unique(fs: &FileSystem, d: int, name: Seq<char>)
    requires
        fs.wf(),
        0 <= d < fs.inodes@.len(),
        fs.inodes@[d].is_dir(),
    ensures
        forall|a: int, b: int|
            0 <= a < fs.inodes@[d].entries@.len() && 0 <= b < fs.inodes@[d].entries@.len()
                && #[trigger] fs.inodes@[d].entries@[a].name@ == name
                && #[trigger] fs.inodes@[d].entries@[b].name@ == name ==> a == b,
{
    assert(fs.inodes@[d].wf(fs.inodes@.len()));
}

/// Reading back, from the same offset, as many bytes as a successful write
/// wrote returns exactly those bytes.
pub proof fn lemma_round_trip(a: &FileSystem, b: &FileSystem, i: int, off: int, bytes: Seq<u8>)
    requires
        0 <= off,
        0 <= i < a.inodes@.len(),
        wrote(a, b, i, off, bytes),
    ensures
        read_len(b.inodes@[i].size as int, off, bytes.len() as int) == bytes.len(),
        forall|p: int| 0 <= p < bytes.len() ==> #[trigger] b.content(i)[off + p] == bytes[p],
{
}

/// The blocks a growth gives an inode were owned by no inode before it, and
/// are owned by no other inode after it.
pub proof fn lemma_growth_fresh(a: &FileSystem, b: &FileSystem, i: int)
    requires
        a.wf(),
        b.wf(),
        0 <= i < a.inodes@.len(),
        grown(a, b, i),
    ensures
        forall|k: int|
            a.inodes@[i].blocks@.len() <= k < b.inodes@[i].blocks@.len() ==> !a.owned(#[trigger] b.block_of(i, k)),
        forall|k: int, j: int, l: int|
            a.inodes@[i].blocks@.len() <= k < b.inodes@[i].blocks@.len() && 0 <= j < b.inodes@.len() && j != i
                && 0 <= l < b.inodes@[j].blocks@.len() ==> #[trigger] b.block_of(i, k) != #[trigger] b.block_of(j, l),
{
    assert forall|k: int|
        a.inodes@[i].blocks@.len() <= k < b.inodes@[i].blocks@.len() implies !a.owned(#[trigger] b.block_of(i, k)) by {
        let blk = b.block_of(i, k);
        assert(a.free@.contains(b.inodes@[i].blocks@[k]));
        let f = choose|f: int| 0 <= f < a.free@.len() && a.free@[f] == blk;
        if a.owned(blk) {
            let (j, l) = choose|j: int, l: int|
                0 <= j < a.inodes@.len() && 0 <= l < a.inodes@[j].blocks@.len() && #[trigger] a.block_of(j, l) == blk;
            assert(a.block_of(j, l) != a.free@[f]);
        }
    }
}

/// Deleting the entry at `k` by moving the last into its place leaves one
/// entry fewer, every other name still present, and the deleted name gone.
pub proof fn lemma_swap_delete(es: Seq<DirEntry>, k: int)
    requires
        names_unique(es),
        0 <= k < es.len(),
    ensures
        swap_delete(es, k).len() == es.len() - 1,
        forall|m: int| 0 <= m < es.len() && m != k ==> has_name(swap_delete(es, k), #[trigger] es[m].name@),
        !has_name(swap_delete(es, k), es[k].name@),
{
    let r = swap_delete(es, k);
    let last = es.len() - 1;
    assert forall|m: int| 0 <= m < es.len() && m != k implies has_name(r, #[trigger] es[m].name@) by {
        if m == last {
            assert(r[k].name@ == es[m].name@);
        } else {
            assert(r[m].name@ == es[m].name@);
        }
    }
    if has_name(r, es[k].name@) {
        let m = choose|m: int| 0 <= m < r.len() && #[trigger] r[m].name@ == es[k].name@;
        if m == k {
            assert(es[last].name@ == es[k].name@);
        } else {
            assert(es[m].name@ == es[k].name@);
        }
    }
}

} // verus!
