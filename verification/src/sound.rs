//! What makes an image a sound file system, and what its files hold.

use vstd::prelude::*;
use crate::bytes::{le32, law_read_value, law_u32_read_back, splice, u32_at, word32};
use crate::image::{inode, write_inode, zero_block, ImageView};
use crate::inode::{
    free_dinode, law_dinode_depends_on_own_bytes, law_dinode_len, law_dinode_read_back, DinodeView,
};
use crate::layout::{iblock, ioffset, law_records_fit_blocks};
use crate::layout::{BLOCK, BSIZE, FSSIZE, IPB, MAXFILE, NADDRS, NDIRECT, NINODEBLOCKS, NMETA};

verus! {

/// Number of inodes that the inode table has room for.
pub const MAXINODE: u32 = 208;

/// Largest size of a file in bytes.
pub const MAXBYTES: u32 = 71680;

/// Number of places in which a file holds a block address: the direct ones, the
/// one of the indirect block, and those inside the indirect block.
pub const NSLOTS: u32 = 141;

/// The number of blocks that hold a file of `size` bytes.
pub open spec fn data_blocks(size: int) -> int {
    (size + BSIZE - 1) / (BSIZE as int)
}

/// The number of blocks that a file of `size` bytes owns, its indirect block counted.
pub open spec fn owned_blocks(size: int) -> int {
    if data_blocks(size) > NDIRECT {
        data_blocks(size) + 1
    } else {
        data_blocks(size)
    }
}

/// The slot that holds the address of block `fbn` of a file.
pub open spec fn slot(fbn: int) -> int {
    if fbn < NDIRECT {
        fbn
    } else {
        fbn + 1
    }
}

/// Whether a file of `size` bytes has an address in slot `s`.
pub open spec fn in_use(size: int, s: int) -> bool {
    if s < NDIRECT {
        s < data_blocks(size)
    } else if s == NDIRECT {
        data_blocks(size) > NDIRECT
    } else {
        s - 1 < data_blocks(size)
    }
}

/// The block address in slot `s` of a file with inode `d`, or 0.
pub open spec fn address(d: DinodeView, disk: Seq<Seq<u8>>, s: int) -> int {
    if s <= NDIRECT {
        d.addrs[s] as int
    } else if d.addrs[NDIRECT as int] == 0 {
        0
    } else {
        u32_at(disk[d.addrs[NDIRECT as int] as int], 4 * (s - NDIRECT - 1)) as int
    }
}

/// The block address in slot `s` of the file with inode `inum`, or 0.
pub open spec fn block_of(disk: Seq<Seq<u8>>, inum: int, s: int) -> int {
    address(inode(disk, inum), disk, s)
}

/// Byte `p` of the blocks of the file with inode `inum`.
pub open spec fn byte_at(disk: Seq<Seq<u8>>, inum: int, p: int) -> u8 {
    disk[block_of(disk, inum, slot(p / (BSIZE as int)))][p % (BSIZE as int)]
}

/// The first `len` bytes of the file with inode `inum`.
pub open spec fn prefix(disk: Seq<Seq<u8>>, inum: int, len: int) -> Seq<u8> {
    Seq::new(len as nat, |p: int| byte_at(disk, inum, p))
}

/// The bytes of the file with inode `inum`.
pub open spec fn contents(disk: Seq<Seq<u8>>, inum: int) -> Seq<u8> {
    prefix(disk, inum, inode(disk, inum).size as int)
}

/// Whether `inum` has been handed out.
pub open spec fn live(st: ImageView, inum: int) -> bool {
    1 <= inum < st.freeinode
}

/// The image has its full size, and its counters are in range.
pub open spec fn sized(st: ImageView) -> bool {
    &&& st.disk.len() == FSSIZE
    &&& forall|q: int| 0 <= q < st.disk.len() ==> #[trigger] st.disk[q].len() == BLOCK
    &&& 1 <= st.freeinode <= MAXINODE
    &&& NMETA <= st.freeblock <= FSSIZE
}

/// A file has an address in exactly the slots that its size calls for.
pub open spec fn addressed(st: ImageView) -> bool {
    &&& forall|i: int| live(st, i) ==> (#[trigger] inode(st.disk, i)).size <= MAXBYTES
    &&& forall|i: int, s: int|
        live(st, i) && 0 <= s < NSLOTS ==> (#[trigger] block_of(st.disk, i, s) != 0 <==> in_use(
            inode(st.disk, i).size as int,
            s,
        ))
}

/// Every address names a data block that has been handed out.
pub open spec fn in_range(st: ImageView) -> bool {
    forall|i: int, s: int|
        live(st, i) && 0 <= s < NSLOTS && #[trigger] block_of(st.disk, i, s) != 0 ==> NMETA
            <= block_of(st.disk, i, s) < st.freeblock
}

/// No block is named twice.
pub open spec fn unshared(st: ImageView) -> bool {
    forall|i: int, s: int, j: int, t: int|
        live(st, i) && live(st, j) && 0 <= s < NSLOTS && 0 <= t < NSLOTS && #[trigger] block_of(
            st.disk,
            i,
            s,
        ) != 0 && block_of(st.disk, i, s) == #[trigger] block_of(st.disk, j, t) ==> i == j && s
            == t
}

/// Blocks that have not been handed out hold zeroes.
pub open spec fn clean(st: ImageView) -> bool {
    forall|q: int| st.freeblock <= q < FSSIZE ==> #[trigger] st.disk[q] == zero_block()
}

/// The last block of a file holds zeroes past the end of the file.
pub open spec fn zero_padded(st: ImageView) -> bool {
    forall|i: int, p: int|
        live(st, i) && inode(st.disk, i).size <= p < data_blocks(inode(st.disk, i).size as int)
            * BSIZE ==> #[trigger] byte_at(st.disk, i, p) == 0
}

/// The inodes that have not been handed out are free.
pub open spec fn vacant(st: ImageView) -> bool {
    forall|j: int|
        0 <= j < MAXINODE && !live(st, j) ==> #[trigger] inode(st.disk, j) == free_dinode()
}

/// File `inum` has an address in exactly the slots that `size` bytes call for.
pub open spec fn allotted(disk: Seq<Seq<u8>>, inum: int, size: int) -> bool {
    forall|s: int|
        0 <= s < NSLOTS ==> (#[trigger] block_of(disk, inum, s) != 0 <==> in_use(size, s))
}

/// Whether block `q` is named by some file.
pub open spec fn named(st: ImageView, q: int) -> bool {
    exists|i: int, s: int|
        live(st, i) && 0 <= s < NSLOTS && #[trigger] block_of(st.disk, i, s) == q
}

/// No block is lost: every data block that has been handed out belongs to a file.
pub open spec fn accounted(st: ImageView) -> bool {
    forall|q: int| NMETA <= q < st.freeblock ==> #[trigger] named(st, q)
}

/// A sound file system.
#[verifier::opaque]
pub open spec fn sound(st: ImageView) -> bool {
    &&& sized(st)
    &&& addressed(st)
    &&& in_range(st)
    &&& unshared(st)
    &&& clean(st)
    &&& zero_padded(st)
    &&& accounted(st)
}

/// The limits on inode numbers and file sizes follow from the layout.
pub proof fn law_limits()
    ensures
        MAXINODE == NINODEBLOCKS * IPB,
        MAXBYTES == MAXFILE * BSIZE,
        NSLOTS == MAXFILE + 1,
{
}

/// The number of blocks of a file of `size` bytes is the least that has room for
/// them; past twelve of them the file owns one block more.
pub proof fn law_block_counts(size: int)
    requires
        0 <= size,
    ensures
        size <= 512 * data_blocks(size) < size + 512,
        size <= 12 * 512 ==> owned_blocks(size) == data_blocks(size),
        size > 12 * 512 ==> owned_blocks(size) == data_blocks(size) + 1,
        forall|k: int| 0 <= k < 140 ==> (in_use(size, #[trigger] slot(k)) <==> 512 * k < size),
        in_use(size, 12) <==> size > 12 * 512,
{
}

/// Where block `k` of a file lies, and byte `i` in it: the first twelve blocks are
/// named by the inode itself, the others by the four-byte numbers, in order, in the
/// block that the last address of the inode names.
pub proof fn law_file_blocks(disk: Seq<Seq<u8>>, inum: int, k: int, i: int)
    requires
        0 <= k < 140,
        0 <= i < 512,
    ensures
        ({
            let addrs = inode(disk, inum).addrs;
            let x = if k < 12 {
                addrs[k] as int
            } else {
                word32(disk[addrs[12] as int], 4 * (k - 12))
            };
            &&& k < 12 || addrs[12] != 0 ==> block_of(disk, inum, slot(k)) == x
            &&& k >= 12 && addrs[12] == 0 ==> block_of(disk, inum, slot(k)) == 0
            &&& block_of(disk, inum, 12) == addrs[12]
            &&& k < 12 || addrs[12] != 0 ==> byte_at(disk, inum, 512 * k + i) == disk[x][i]
            &&& contents(disk, inum).len() == inode(disk, inum).size
            &&& 512 * k + i < inode(disk, inum).size ==> contents(disk, inum)[512 * k + i]
                == byte_at(disk, inum, 512 * k + i)
        }),
{
    let addrs = inode(disk, inum).addrs;
    law_read_value(disk[addrs[12] as int], 4 * (k - 12));
    assert((512 * k + i) / 512 == k && (512 * k + i) % 512 == i);
}

/// An inode is read back as it was stored, and no other inode is touched.
pub proof fn law_inode_read_back(disk: Seq<Seq<u8>>, inum: int, d: DinodeView, other: int)
    requires
        0 <= inum,
        0 <= other,
        iblock(inum) < disk.len(),
        iblock(other) < disk.len(),
        disk[iblock(inum)].len() == BLOCK,
        d.addrs.len() == NADDRS,
    ensures
        inode(write_inode(disk, inum, d), inum) == d,
        other != inum ==> inode(write_inode(disk, inum, d), other) == inode(disk, other),
        write_inode(disk, inum, d).len() == disk.len(),
        write_inode(disk, inum, d)[iblock(inum)].len() == BLOCK,
        forall|q: int|
            0 <= q < disk.len() && q != iblock(inum) ==> #[trigger] write_inode(disk, inum, d)[q]
                == disk[q],
{
    law_records_fit_blocks(inum, other);
    law_records_fit_blocks(other, inum);
    law_dinode_len(d);
    law_dinode_read_back(disk[iblock(inum)], ioffset(inum), d);
    if other != inum {
        law_dinode_depends_on_own_bytes(
            write_inode(disk, inum, d)[iblock(other)],
            disk[iblock(other)],
            ioffset(other),
        );
    }
}

/// A file's addresses depend on its inode and its indirect block alone.
pub proof fn lemma_addresses_kept(d: DinodeView, a: Seq<Seq<u8>>, b: Seq<Seq<u8>>)
    requires
        d.addrs[NDIRECT as int] != 0 ==> a[d.addrs[NDIRECT as int] as int]
            == b[d.addrs[NDIRECT as int] as int],
    ensures
        forall|s: int| #[trigger] address(d, a, s) == address(d, b, s),
{
}

/// An entry of an indirect block is read back, and no other entry is touched.
pub proof fn lemma_entry_read_back(table: Seq<u8>, k: int, x: u32, other: int)
    requires
        table.len() == BLOCK,
        0 <= k < 128,
        0 <= other < 128,
    ensures
        u32_at(splice(table, 4 * k, le32(x)), 4 * k) == x,
        other != k ==> u32_at(splice(table, 4 * k, le32(x)), 4 * other) == u32_at(
            table,
            4 * other,
        ),
{
    let t = splice(table, 4 * k, le32(x));
    law_u32_read_back(t, 4 * k, x);
}

} // verus!
