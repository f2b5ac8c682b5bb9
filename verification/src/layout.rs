//! Where everything lies in the image.

use vstd::prelude::*;

verus! {

/// Inode type of a directory.
pub const T_DIR: u16 = 1;

/// Inode type of a regular file.
pub const T_FILE: u16 = 2;

/// Size of the file system in blocks.
pub const FSSIZE: u32 = 2000;

/// Largest number of blocks that one file-system operation writes.
pub const MAXOPBLOCKS: u32 = 10;

/// Number of data blocks in the on-disk log.
pub const LOGSIZE: u32 = MAXOPBLOCKS * 3;

/// Number of inodes that the superblock announces.
pub const NINODES: u32 = 200;

/// Inode number of the root directory.
pub const ROOTINO: u32 = 1;

/// Block size in bytes.
pub const BSIZE: u32 = 512;

/// Block size in bytes, as an array length.
pub const BLOCK: usize = 512;

/// Number of block addresses that an inode holds itself.
pub const NDIRECT: u32 = 12;

/// Number of block addresses in an indirect block.
pub const NINDIRECT: u32 = 128;

/// Largest size of a file in blocks.
pub const MAXFILE: u32 = NDIRECT + NINDIRECT;

/// Number of addresses in an inode: the direct blocks, and the indirect block.
pub const NADDRS: usize = 13;

/// Bytes of an on-disk inode.
pub const DINODE_SIZE: u32 = 64;

/// Bytes of a name in a directory entry.
pub const DIRSIZ: usize = 14;

/// Bytes of a directory entry.
pub const DIRENT_SIZE: usize = 16;

/// Inodes per block.
pub const IPB: u32 = 8;

/// Number of blocks of the inode table.
pub const NINODEBLOCKS: u32 = 26;

/// Number of blocks of the free-block bitmap.
pub const NBITMAP: u32 = 1;

/// Number of log blocks.
pub const NLOG: u32 = LOGSIZE;

/// First block of the log.
pub const LOGSTART: u32 = 2;

/// First block of the inode table.
pub const INODESTART: u32 = LOGSTART + NLOG;

/// First block of the free-block bitmap.
pub const BMAPSTART: u32 = INODESTART + NINODEBLOCKS;

/// Number of blocks before the first data block: boot, super, log, inodes, bitmap.
pub const NMETA: u32 = 2 + NLOG + NINODEBLOCKS + NBITMAP;

/// Number of data blocks.
pub const NBLOCKS: u32 = FSSIZE - NMETA;

/// Description of the layout, stored in block 1.
#[derive(Clone, Copy, Debug, PartialEq, Eq, Structural)]
pub struct Superblock {
    /// Size of the image in blocks.
    pub size: u32,
    /// Number of data blocks.
    pub nblocks: u32,
    /// Number of inodes.
    pub ninodes: u32,
    /// Number of log blocks.
    pub nlog: u32,
    /// First log block.
    pub logstart: u32,
    /// First inode block.
    pub inodestart: u32,
    /// First bitmap block.
    pub bmapstart: u32,
}

/// The block that holds inode `inum`.
pub open spec fn iblock(inum: int) -> int {
    inum / (IPB as int) + INODESTART
}

/// The byte within its block at which inode `inum` starts.
pub open spec fn ioffset(inum: int) -> int {
    (inum % (IPB as int)) * DINODE_SIZE
}

/// The derived sizes are what the block size and the record sizes make them.
pub proof fn law_derived_sizes()
    ensures
        BLOCK == BSIZE,
        NINDIRECT == BSIZE / 4,
        NADDRS == NDIRECT + 1,
        IPB == BSIZE / DINODE_SIZE,
        NINODEBLOCKS == NINODES / IPB + 1,
        NBITMAP == FSSIZE / ((BSIZE * 8) as u32) + 1,
{
    assert(512u32 / 64u32 == 8);
    assert(200u32 / 8u32 + 1 == 26);
    assert(2000u32 / 4096u32 + 1 == 1);
}

/// The areas follow each other without gap or overlap and fill the image.
pub proof fn law_areas_tile_the_image()
    ensures
        LOGSTART == 2,
        LOGSTART + NLOG == INODESTART,
        INODESTART + NINODEBLOCKS == BMAPSTART,
        BMAPSTART + NBITMAP == NMETA,
        NMETA + NBLOCKS == FSSIZE,
        FSSIZE <= NBITMAP * (BSIZE * 8),
{
}

/// The numbers of the layout.
pub proof fn law_layout_values()
    ensures
        FSSIZE == 2000,
        BSIZE == 512,
        NLOG == 30,
        INODESTART == 32,
        BMAPSTART == 58,
        NMETA == 59,
        NBLOCKS == 1941,
        NINODES == 200,
        ROOTINO == 1,
        MAXFILE == 140,
{
}

/// The inodes stand one after the other from the start of the inode table on:
/// inode `i` starts `i` inode sizes behind it.
pub proof fn law_inode_place(i: int)
    requires
        0 <= i,
    ensures
        (iblock(i) - INODESTART) * BSIZE + ioffset(i) == i * DINODE_SIZE,
        0 <= ioffset(i) < BSIZE,
        INODESTART <= iblock(i),
{
}

/// Every announced inode lies inside the inode table, within one block; no
/// directory entry straddles two blocks; and two inodes never share a byte.
pub proof fn law_records_fit_blocks(i: int, j: int)
    requires
        0 <= i,
        0 <= j,
    ensures
        i < NINODES ==> INODESTART <= iblock(i) < BMAPSTART,
        0 <= ioffset(i),
        ioffset(i) + DINODE_SIZE <= BSIZE,
        i != j ==> iblock(i) != iblock(j) || ioffset(i) + DINODE_SIZE <= ioffset(j) || ioffset(j)
            + DINODE_SIZE <= ioffset(i),
        BSIZE % DINODE_SIZE == 0,
        BSIZE as int % DIRENT_SIZE as int == 0,
{
}

} // verus!
