use vstd::prelude::*;

verus! {

/// Size in bytes of one data block.
pub const BLOCK_SZ: usize = 512;

/// Width in bytes of one directory entry record.
pub const DIRENT_SZ: usize = 32;

/// Width in bytes of one on-disk inode record.
pub const DISK_INODE_SZ: usize = 128;

/// How many on-disk inode records one block holds.
pub const INODES_PER_BLOCK: usize = 4;

/// First block of the inode area.
pub const INODE_AREA_START: usize = 2;

/// Number of data blocks needed to hold `size` bytes.
pub open spec fn blocks_for(size: nat) -> nat {
    (size + 511) / 512
}

/// The block that holds the record of inode `idx`.
pub open spec fn inode_block(idx: nat) -> nat {
    INODE_AREA_START as nat + idx / 4
}

/// The byte offset of the record of inode `idx` within its block.
pub open spec fn inode_offset(idx: nat) -> nat {
    (idx % 4) * 128
}

/// Number of data blocks needed to hold `size` bytes.
pub fn blocks_num_needed(size: u32) -> (r: u32)
    ensures
        r as nat == blocks_for(size as nat),
{
    ((size as u64 + 511) / 512) as u32
}

/// Where the record of inode `idx` lives: its block and the offset within it.
pub fn disk_inode_pos(idx: u32) -> (r: (u32, usize))
    ensures
        r.0 as nat == inode_block(idx as nat),
        r.1 as nat == inode_offset(idx as nat),
{
    ((INODE_AREA_START as u32) + idx / 4, ((idx % 4) as usize) * 128)
}

} // verus!
