//! What appending does to the files of a sound image.

use vstd::prelude::*;
use crate::bytes::{le32, splice, u32_at};
use crate::image::{
    append, append_run, chunk_len, inode, map_block, put_chunk, readable, with_size, write_inode,
    zero_block,
};
use crate::image::{Cursor, Fault, ImageView};
use crate::inode::{law_dinode_write_back, DinodeView};
use crate::layout::{iblock, ioffset, law_records_fit_blocks};
use crate::layout::{BLOCK, BSIZE, FSSIZE, MAXFILE, NADDRS, NDIRECT, NMETA};
use crate::sound::{
    accounted, address, addressed, block_of, byte_at, clean, contents, data_blocks, in_range,
    in_use, live, named, owned_blocks, sized, slot, sound, unshared, zero_padded,
};
use crate::sound::{law_block_counts, law_inode_read_back, lemma_addresses_kept, lemma_entry_read_back};
use crate::sound::{MAXBYTES, MAXINODE, NSLOTS};
use crate::stopped::{freeblock_after_stop, lemma_append_stopped};

verus! {

/// The image in which the inode of a cursor is stored, with size `off`.
pub open spec fn stored(c: Cursor, inum: int, off: int, freeinode: int) -> ImageView {
    ImageView {
        disk: write_inode(c.disk, inum, with_size(c.din, off as u32)),
        freeinode,
        freeblock: c.freeblock,
    }
}

/// A cursor in the middle of an append to file `inum`, at byte `off`, that would
/// leave a sound image if its inode were stored now.
#[verifier::opaque]
pub open spec fn steady(c: Cursor, inum: int, off: int, freeinode: int) -> bool {
    &&& 1 <= inum < freeinode
    &&& 0 <= off <= MAXBYTES
    &&& c.din.addrs.len() == NADDRS
    &&& c.disk.len() == FSSIZE
    &&& forall|q: int| 0 <= q < c.disk.len() ==> #[trigger] c.disk[q].len() == BLOCK
    &&& sound(stored(c, inum, off, freeinode))
}

/// In a steady cursor, the addresses in memory are those of the stored image,
/// and the data blocks are those of the stored image.
#[verifier::rlimit(30)]
pub proof fn lemma_steady(c: Cursor, inum: int, off: int, freeinode: int)
    requires
        steady(c, inum, off, freeinode),
    ensures
        ({
            let m = stored(c, inum, off, freeinode).disk;
            &&& 1 <= inum < freeinode <= MAXINODE
            &&& 0 <= off <= MAXBYTES
            &&& NMETA <= c.freeblock <= FSSIZE
            &&& c.din.addrs.len() == NADDRS
            &&& c.disk.len() == FSSIZE
            &&& forall|q: int| 0 <= q < c.disk.len() ==> #[trigger] c.disk[q].len() == BLOCK
            &&& forall|q: int|
                c.freeblock <= q < FSSIZE ==> #[trigger] c.disk[q] == zero_block()
            &&& inode(m, inum) == with_size(c.din, off as u32)
            &&& iblock(inum) < NMETA
            &&& forall|q: int| NMETA <= q < FSSIZE ==> #[trigger] m[q] == c.disk[q]
            &&& forall|s: int|
                0 <= s < NSLOTS ==> #[trigger] address(c.din, c.disk, s) == block_of(m, inum, s)
            &&& forall|s: int|
                0 <= s < NSLOTS ==> (#[trigger] address(c.din, c.disk, s) != 0 <==> in_use(off, s))
            &&& forall|s: int|
                0 <= s < NSLOTS && #[trigger] address(c.din, c.disk, s) != 0 ==> NMETA <= address(
                    c.din,
                    c.disk,
                    s,
                ) < c.freeblock
        }),
{
    reveal(steady);
    reveal(sound);
    let st = stored(c, inum, off, freeinode);
    let m = st.disk;
    law_inode_read_back(c.disk, inum, with_size(c.din, off as u32), inum);
    assert(live(st, inum));
    assert forall|q: int| c.freeblock <= q < FSSIZE implies #[trigger] c.disk[q]
        == zero_block() by {
        assert(m[q] == zero_block());
    }
    assert forall|s: int| 0 <= s < NSLOTS implies #[trigger] address(c.din, c.disk, s) == block_of(
        m,
        inum,
        s,
    ) by {
        let ib = c.din.addrs[NDIRECT as int] as int;
        assert(block_of(m, inum, NDIRECT as int) == ib);
        if ib != 0 {
            assert(m[ib] == c.disk[ib]);
        }
    }
}

/// The number of blocks that a file of `off` bytes is short of for one more byte.
pub open spec fn shortfall(off: int) -> int {
    owned_blocks(off + 1) - owned_blocks(off)
}

/// How `c1` differs from `c` after the block at byte `off` has been mapped to `x`.
pub open spec fn mapped(c: Cursor, off: int, c1: Cursor, x: int) -> bool {
    let fbn = off / (BSIZE as int);
    let ib = c1.din.addrs[NDIRECT as int] as int;
    &&& c1.din == DinodeView { addrs: c1.din.addrs, ..c.din }
    &&& c1.din.addrs.len() == NADDRS
    &&& c1.disk.len() == FSSIZE
    &&& forall|q: int| 0 <= q < c1.disk.len() ==> #[trigger] c1.disk[q].len() == BLOCK
    &&& forall|q: int|
        0 <= q < FSSIZE && !(fbn >= NDIRECT && q == ib) ==> #[trigger] c1.disk[q] == c.disk[q]
    &&& c1.freeblock == c.freeblock + shortfall(off)
    &&& forall|s: int|
        0 <= s < NSLOTS && s != slot(fbn) && !(s == NDIRECT && fbn >= NDIRECT)
            ==> #[trigger] address(c1.din, c1.disk, s) == address(c.din, c.disk, s)
    &&& address(c1.din, c1.disk, slot(fbn)) == x
    &&& in_use(off, slot(fbn)) ==> x == address(c.din, c.disk, slot(fbn))
    &&& !in_use(off, slot(fbn)) ==> x == c1.freeblock - 1
    &&& fbn >= NDIRECT && in_use(off, NDIRECT as int) ==> ib == c.din.addrs[NDIRECT as int]
    &&& fbn >= NDIRECT && !in_use(off, NDIRECT as int) ==> ib == c.freeblock
}

/// The table of zeroes has no entry.
proof fn lemma_zero_table(k: int)
    requires
        0 <= k < 128,
    ensures
        u32_at(zero_block(), 4 * k) == 0,
{
}

/// Mapping the next block of a file.
#[verifier::rlimit(30)]
pub proof fn lemma_map(c: Cursor, inum: int, off: int, freeinode: int)
    requires
        steady(c, inum, off, freeinode),
        off < MAXBYTES,
    ensures
        ({
            let (c1, r) = map_block(c, off / (BSIZE as int));
            &&& c.freeblock + shortfall(off) <= FSSIZE ==> r is Ok && mapped(
                c,
                off,
                c1,
                r->Ok_0 as int,
            )
            &&& c.freeblock + shortfall(off) > FSSIZE ==> r == Err::<u32, Fault>(
                Fault::BadSector,
            ) || (r is Ok && !readable(c1.disk, r->Ok_0 as int))
        }),
{
    lemma_steady(c, inum, off, freeinode);
    let fbn = off / (BSIZE as int);
    let (c1, r) = map_block(c, fbn);
    let nd = NDIRECT as int;
    assert(0 <= fbn < MAXFILE);
    assert(address(c.din, c.disk, slot(fbn)) != 0 <==> in_use(off, slot(fbn)));
    assert(address(c.din, c.disk, nd) != 0 <==> in_use(off, nd));
    if fbn < NDIRECT {
        if c.freeblock + shortfall(off) <= FSSIZE {
            lemma_addresses_kept(c.din, c.disk, c1.disk);
            assert forall|s: int|
                0 <= s < NSLOTS && s != slot(fbn) implies #[trigger] address(c1.din, c1.disk, s)
                == address(c.din, c.disk, s) by {
                assert(c1.din.addrs[nd] == c.din.addrs[nd]);
            }
            assert(mapped(c, off, c1, r->Ok_0 as int));
        }
    } else {
        let ib = if c.din.addrs[nd] != 0 {
            c.din.addrs[nd] as int
        } else {
            c.freeblock
        };
        let k = fbn - NDIRECT;
        if ib < FSSIZE {
            let table = c.disk[ib];
            if c.din.addrs[nd] == 0 {
                assert(table == zero_block());
                lemma_zero_table(k);
            } else {
                assert(address(c.din, c.disk, slot(fbn)) == u32_at(table, 4 * k));
            }
            if c.freeblock + shortfall(off) <= FSSIZE {
                let x = r->Ok_0;
                assert(r is Ok);
                assert(c1.din.addrs[nd] == ib);
                assert(c1.disk[ib] == if u32_at(table, 4 * k) == 0 {
                    splice(table, 4 * k, le32(x))
                } else {
                    table
                });
                lemma_entry_read_back(table, k, x, k);
                assert forall|s: int|
                    0 <= s < NSLOTS && s != slot(fbn) && s != nd implies #[trigger] address(
                    c1.din,
                    c1.disk,
                    s,
                ) == address(c.din, c.disk, s) by {
                    if s > nd {
                        lemma_entry_read_back(table, k, x, s - nd - 1);
                        lemma_zero_table(s - nd - 1);
                    }
                }
                assert(mapped(c, off, c1, x as int));
            }
        }
    }
}

/// Every file of `a` other than `inum` has the same inode and holds the same bytes in `b`.
#[verifier::opaque]
pub open spec fn others_kept(a: ImageView, b: ImageView, inum: int) -> bool {
    &&& a.freeinode <= b.freeinode
    &&& forall|j: int|
        live(a, j) && j != inum ==> #[trigger] inode(b.disk, j) == inode(a.disk, j)
    &&& forall|j: int|
        live(a, j) && j != inum ==> #[trigger] contents(b.disk, j) == contents(a.disk, j)
}

/// What two changes keep, they keep together.
pub proof fn lemma_kept_twice(a: ImageView, b: ImageView, c: ImageView, inum: int)
    requires
        others_kept(a, b, inum),
        others_kept(b, c, inum),
    ensures
        others_kept(a, c, inum),
{
    reveal(others_kept);
    assert forall|j: int| live(a, j) && j != inum implies #[trigger] inode(c.disk, j) == inode(
        a.disk,
        j,
    ) by {
        assert(inode(b.disk, j) == inode(a.disk, j));
    }
    assert forall|j: int| live(a, j) && j != inum implies #[trigger] contents(c.disk, j)
        == contents(a.disk, j) by {
        assert(contents(b.disk, j) == contents(a.disk, j));
    }
}

/// Within a block, the number of owned blocks does not depend on how far it is filled.
proof fn lemma_owned_within_block(off: int, n: int)
    requires
        0 <= off,
        0 < n <= BSIZE - off % (BSIZE as int),
    ensures
        owned_blocks(off + n) == owned_blocks(off + 1),
        data_blocks(off + n) == off / (BSIZE as int) + 1,
{
}

/// A chunk has been written at byte `off` of file `inum`: `c` is the cursor
/// before, `c1` after mapping its block to `x`, `c2` after writing to that block.
spec fn chunk_written(
    c: Cursor,
    inum: int,
    off: int,
    freeinode: int,
    c1: Cursor,
    x: int,
    c2: Cursor,
    chunk: Seq<u8>,
) -> bool {
    &&& steady(c, inum, off, freeinode)
    &&& off < MAXBYTES
    &&& c.freeblock + shortfall(off) <= FSSIZE
    &&& mapped(c, off, c1, x)
    &&& 0 < chunk.len() <= BSIZE - off % (BSIZE as int)
    &&& c2 == put_chunk(c1, x, off % (BSIZE as int), chunk)
}

/// The blocks that change when a chunk is written: the data block `x`, and the
/// indirect block where the file has come to need one. They belong to file `inum`.
#[verifier::rlimit(30)]
proof fn lemma_chunk_blocks(
    c: Cursor,
    inum: int,
    off: int,
    freeinode: int,
    c1: Cursor,
    x: int,
    c2: Cursor,
    chunk: Seq<u8>,
)
    requires
        chunk_written(c, inum, off, freeinode, c1, x, c2, chunk),
    ensures
        ({
            let n = chunk.len() as int;
            let fbn = off / (BSIZE as int);
            let ib = c1.din.addrs[NDIRECT as int] as int;
            let m = stored(c, inum, off, freeinode).disk;
            let m2 = stored(c2, inum, off + n, freeinode).disk;
            &&& NMETA <= x < c2.freeblock
            &&& fbn >= NDIRECT ==> NMETA <= ib < c2.freeblock && ib != x
            &&& m2.len() == FSSIZE
            &&& forall|q: int| 0 <= q < FSSIZE ==> #[trigger] m2[q].len() == BLOCK
            &&& inode(m2, inum) == with_size(c2.din, (off + n) as u32)
            &&& forall|q: int|
                NMETA <= q < FSSIZE && q != x && !(fbn >= NDIRECT && q == ib)
                    ==> #[trigger] m2[q] == m[q]
            &&& m2[x] == splice(c.disk[x], off % (BSIZE as int), chunk)
            &&& m[x] == c.disk[x]
            &&& forall|s: int|
                0 <= s < NSLOTS ==> #[trigger] block_of(m2, inum, s) == address(c1.din, c1.disk, s)
            &&& forall|j: int|
                1 <= j < freeinode && j != inum ==> #[trigger] inode(m2, j) == inode(m, j)
            &&& forall|j: int, s: int|
                1 <= j < freeinode && j != inum && 0 <= s < NSLOTS ==> #[trigger] block_of(m2, j, s)
                    == block_of(m, j, s)
            &&& forall|j: int, s: int|
                1 <= j < freeinode && j != inum && 0 <= s < NSLOTS && block_of(m, j, s) != 0 ==> {
                    &&& #[trigger] block_of(m, j, s) != x
                    &&& !(fbn >= NDIRECT && block_of(m, j, s) == ib)
                }
        }),
{
    reveal(steady);
    reveal(sound);
    let n = chunk.len() as int;
    let fbn = off / (BSIZE as int);
    let nd = NDIRECT as int;
    let ib = c1.din.addrs[nd] as int;
    let st = stored(c, inum, off, freeinode);
    let st2 = stored(c2, inum, off + n, freeinode);
    let m = st.disk;
    let m2 = st2.disk;
    let sx = slot(fbn);
    lemma_steady(c, inum, off, freeinode);
    assert(0 <= sx < NSLOTS && sx != nd);
    assert(live(st, inum));
    assert(block_of(m, inum, sx) == address(c.din, c.disk, sx));
    assert(block_of(m, inum, nd) == address(c.din, c.disk, nd));
    assert(NMETA <= x < c1.freeblock);
    if fbn >= NDIRECT {
        assert(NMETA <= ib < c1.freeblock && ib != x);
    }
    law_inode_read_back(c2.disk, inum, with_size(c2.din, (off + n) as u32), inum);
    assert forall|j: int, s: int|
        1 <= j < freeinode && j != inum && 0 <= s < NSLOTS && block_of(m, j, s) != 0 implies {
        &&& #[trigger] block_of(m, j, s) != x
        &&& !(fbn >= NDIRECT && block_of(m, j, s) == ib)
    } by {
        assert(live(st, j));
        assert(block_of(m, j, s) < c.freeblock);
    }
    assert forall|s: int| 0 <= s < NSLOTS implies #[trigger] block_of(m2, inum, s) == address(
        c1.din,
        c1.disk,
        s,
    ) by {
        if ib != 0 {
            if fbn < NDIRECT {
                assert(address(c1.din, c1.disk, nd) == address(c.din, c.disk, nd));
                assert(block_of(m, inum, nd) == ib);
            }
            assert(NMETA <= ib < FSSIZE && ib != x);
            assert(m2[ib] == c1.disk[ib]);
        }
    }
    assert forall|j: int| 1 <= j < freeinode && j != inum implies #[trigger] inode(m2, j) == inode(
        m,
        j,
    ) by {
        law_records_fit_blocks(j, inum);
        law_inode_read_back(c2.disk, inum, with_size(c2.din, (off + n) as u32), j);
        law_inode_read_back(c.disk, inum, with_size(c.din, off as u32), j);
        assert(c2.disk[iblock(j)] == c.disk[iblock(j)]);
    }
    assert forall|j: int, s: int|
        1 <= j < freeinode && j != inum && 0 <= s < NSLOTS implies #[trigger] block_of(m2, j, s)
        == block_of(m, j, s) by {
        assert(inode(m2, j) == inode(m, j));
        let jb = inode(m, j).addrs[nd] as int;
        assert(block_of(m, j, nd) == jb);
        assert(live(st, j));
        if jb != 0 {
            assert(m2[jb] == m[jb]);
        }
        lemma_addresses_kept(inode(m, j), m, m2);
    }
}

/// The blocks of other files keep their bytes when a chunk is written.
#[verifier::rlimit(30)]
proof fn lemma_byte_kept(
    c: Cursor,
    inum: int,
    off: int,
    freeinode: int,
    c1: Cursor,
    x: int,
    c2: Cursor,
    chunk: Seq<u8>,
    j: int,
    p: int,
)
    requires
        chunk_written(c, inum, off, freeinode, c1, x, c2, chunk),
        1 <= j < freeinode,
        j != inum,
        0 <= p < data_blocks(
            inode(stored(c, inum, off, freeinode).disk, j).size as int,
        ) * BSIZE,
    ensures
        byte_at(stored(c2, inum, off + chunk.len(), freeinode).disk, j, p) == byte_at(
            stored(c, inum, off, freeinode).disk,
            j,
            p,
        ),
{
    reveal(steady);
    reveal(sound);
    let st = stored(c, inum, off, freeinode);
    let m = st.disk;
    let m2 = stored(c2, inum, off + chunk.len(), freeinode).disk;
    lemma_chunk_blocks(c, inum, off, freeinode, c1, x, c2, chunk);
    let s = slot(p / (BSIZE as int));
    assert(live(st, j));
    let size = inode(m, j).size as int;
    assert(size <= MAXBYTES);
    assert(p / (BSIZE as int) < data_blocks(size));
    assert(0 <= s < NSLOTS);
    assert(in_use(size, s));
    assert(block_of(m, j, s) != 0);
    assert(NMETA <= block_of(m, j, s) < FSSIZE);
    assert(block_of(m2, j, s) == block_of(m, j, s));
    assert(m2[block_of(m, j, s)] == m[block_of(m, j, s)]);
}

/// A slot in use before the write keeps its block; one that comes into use gets a new one.
#[verifier::rlimit(30)]
proof fn lemma_chunk_slots(
    c: Cursor,
    inum: int,
    off: int,
    freeinode: int,
    c1: Cursor,
    x: int,
    c2: Cursor,
    chunk: Seq<u8>,
)
    requires
        chunk_written(c, inum, off, freeinode, c1, x, c2, chunk),
    ensures
        ({
            let n = chunk.len() as int;
            let m = stored(c, inum, off, freeinode).disk;
            let m2 = stored(c2, inum, off + n, freeinode).disk;
            &&& forall|s: int|
                0 <= s < NSLOTS ==> (#[trigger] block_of(m2, inum, s) != 0 <==> in_use(off + n, s))
            &&& forall|s: int|
                0 <= s < NSLOTS && in_use(off, s) ==> #[trigger] block_of(m2, inum, s) == block_of(
                    m,
                    inum,
                    s,
                )
            &&& forall|s: int|
                0 <= s < NSLOTS && in_use(off + n, s) && !in_use(off, s) ==> c.freeblock
                    <= #[trigger] block_of(m2, inum, s) < c2.freeblock
            &&& block_of(m2, inum, slot(off / (BSIZE as int))) == x
        }),
{
    reveal(steady);
    reveal(sound);
    let n = chunk.len() as int;
    let m = stored(c, inum, off, freeinode).disk;
    let m2 = stored(c2, inum, off + n, freeinode).disk;
    lemma_steady(c, inum, off, freeinode);
    lemma_owned_within_block(off, n);
    lemma_chunk_blocks(c, inum, off, freeinode, c1, x, c2, chunk);
    assert forall|s: int| 0 <= s < NSLOTS implies {
        &&& #[trigger] block_of(m2, inum, s) != 0 <==> in_use(off + n, s)
        &&& in_use(off, s) ==> block_of(m2, inum, s) == block_of(m, inum, s)
        &&& in_use(off + n, s) && !in_use(off, s) ==> c.freeblock <= block_of(m2, inum, s)
            < c2.freeblock
    } by {
        assert(address(c.din, c.disk, s) == block_of(m, inum, s));
        assert(address(c1.din, c1.disk, s) == block_of(m2, inum, s));
    }
}

/// After the write every address is still in range, and called for by the file's size.
#[verifier::rlimit(30)]
proof fn lemma_chunk_addressed(
    c: Cursor,
    inum: int,
    off: int,
    freeinode: int,
    c1: Cursor,
    x: int,
    c2: Cursor,
    chunk: Seq<u8>,
)
    requires
        chunk_written(c, inum, off, freeinode, c1, x, c2, chunk),
    ensures
        sized(stored(c2, inum, off + chunk.len(), freeinode)),
        addressed(stored(c2, inum, off + chunk.len(), freeinode)),
        in_range(stored(c2, inum, off + chunk.len(), freeinode)),
        clean(stored(c2, inum, off + chunk.len(), freeinode)),
{
    reveal(steady);
    reveal(sound);
    let n = chunk.len() as int;
    let st = stored(c, inum, off, freeinode);
    let st2 = stored(c2, inum, off + n, freeinode);
    let m = st.disk;
    let m2 = st2.disk;
    lemma_chunk_blocks(c, inum, off, freeinode, c1, x, c2, chunk);
    lemma_chunk_slots(c, inum, off, freeinode, c1, x, c2, chunk);
    assert(live(st, inum));
    assert forall|i: int| live(st2, i) implies (#[trigger] inode(m2, i)).size <= MAXBYTES by {
        assert(live(st, i));
        assert(inode(m, i).size <= MAXBYTES);
    }
    assert forall|i: int, s: int| live(st2, i) && 0 <= s < NSLOTS implies {
        &&& #[trigger] block_of(m2, i, s) != 0 <==> in_use(inode(m2, i).size as int, s)
        &&& block_of(m2, i, s) != 0 ==> NMETA <= block_of(m2, i, s) < st2.freeblock
    } by {
        assert(live(st, i));
        assert(block_of(m, i, s) != 0 <==> in_use(inode(m, i).size as int, s));
        assert(block_of(m, i, s) != 0 ==> NMETA <= block_of(m, i, s) < c.freeblock);
        if i != inum {
            assert(inode(m2, i) == inode(m, i));
        } else {
            lemma_steady(c, inum, off, freeinode);
        }
    }
    assert forall|q: int| st2.freeblock <= q < FSSIZE implies #[trigger] m2[q] == zero_block() by {
        assert(m[q] == zero_block());
    }
}

/// After the write no block is shared.
#[verifier::rlimit(30)]
proof fn lemma_chunk_unshared(
    c: Cursor,
    inum: int,
    off: int,
    freeinode: int,
    c1: Cursor,
    x: int,
    c2: Cursor,
    chunk: Seq<u8>,
)
    requires
        chunk_written(c, inum, off, freeinode, c1, x, c2, chunk),
    ensures
        unshared(stored(c2, inum, off + chunk.len(), freeinode)),
{
    reveal(steady);
    reveal(sound);
    let n = chunk.len() as int;
    let st = stored(c, inum, off, freeinode);
    let st2 = stored(c2, inum, off + n, freeinode);
    let m = st.disk;
    let m2 = st2.disk;
    lemma_chunk_blocks(c, inum, off, freeinode, c1, x, c2, chunk);
    lemma_chunk_slots(c, inum, off, freeinode, c1, x, c2, chunk);
    lemma_steady(c, inum, off, freeinode);
    assert forall|i: int, s: int, j: int, t: int|
        live(st2, i) && live(st2, j) && 0 <= s < NSLOTS && 0 <= t < NSLOTS && #[trigger] block_of(
            m2,
            i,
            s,
        ) != 0 && block_of(m2, i, s) == #[trigger] block_of(m2, j, t) implies i == j && s == t by {
        assert(live(st, i) && live(st, j));
        assert(block_of(m, i, s) != 0 ==> block_of(m, i, s) < c.freeblock);
        assert(block_of(m, j, t) != 0 ==> block_of(m, j, t) < c.freeblock);
        if i != inum {
            assert(block_of(m2, i, s) == block_of(m, i, s));
        }
        if j != inum {
            assert(block_of(m2, j, t) == block_of(m, j, t));
        }
        if i == inum && j == inum && !in_use(off, s) && !in_use(off, t) {
            assert(address(c1.din, c1.disk, s) == block_of(m2, inum, s));
            assert(address(c1.din, c1.disk, t) == block_of(m2, inum, t));
        }
    }
}

/// After the write every block that has been handed out belongs to a file.
proof fn lemma_chunk_accounted(
    c: Cursor,
    inum: int,
    off: int,
    freeinode: int,
    c1: Cursor,
    x: int,
    c2: Cursor,
    chunk: Seq<u8>,
)
    requires
        chunk_written(c, inum, off, freeinode, c1, x, c2, chunk),
    ensures
        accounted(stored(c2, inum, off + chunk.len(), freeinode)),
{
    let n = chunk.len() as int;
    let fbn = off / (BSIZE as int);
    let nd = NDIRECT as int;
    let st = stored(c, inum, off, freeinode);
    let st2 = stored(c2, inum, off + n, freeinode);
    let m = st.disk;
    let m2 = st2.disk;
    lemma_steady(c, inum, off, freeinode);
    lemma_chunk_blocks(c, inum, off, freeinode, c1, x, c2, chunk);
    lemma_chunk_slots(c, inum, off, freeinode, c1, x, c2, chunk);
    assert(accounted(st)) by {
        reveal(steady);
        reveal(sound);
    }
    assert(live(st2, inum));
    assert forall|q: int| NMETA <= q < st2.freeblock implies #[trigger] named(st2, q) by {
        if q < st.freeblock {
            assert(named(st, q));
            let (i, s) = choose|i: int, s: int|
                live(st, i) && 0 <= s < NSLOTS && #[trigger] block_of(m, i, s) == q;
            assert(live(st2, i));
            if i == inum {
                assert(address(c.din, c.disk, s) == q);
                assert(in_use(off, s));
            }
            assert(block_of(m2, i, s) == q);
        } else {
            assert(0 <= slot(fbn) < NSLOTS);
            assert(block_of(m2, inum, slot(fbn)) == x);
            if q != x {
                assert(address(c1.din, c1.disk, nd) == block_of(m2, inum, nd));
                assert(block_of(m2, inum, nd) == q);
            }
        }
    }
}

/// The bytes of the block that the chunk was written to: the old ones, the chunk, zeroes.
proof fn lemma_chunk_last_block(
    c: Cursor,
    inum: int,
    off: int,
    freeinode: int,
    c1: Cursor,
    x: int,
    c2: Cursor,
    chunk: Seq<u8>,
    p: int,
)
    requires
        chunk_written(c, inum, off, freeinode, c1, x, c2, chunk),
        0 <= p,
        p / (BSIZE as int) == off / (BSIZE as int),
    ensures
        byte_at(stored(c2, inum, off + chunk.len(), freeinode).disk, inum, p) == if p < off {
            byte_at(stored(c, inum, off, freeinode).disk, inum, p)
        } else if p < off + chunk.len() {
            chunk[p - off]
        } else {
            0
        },
{
    let fbn = off / (BSIZE as int);
    let st = stored(c, inum, off, freeinode);
    let m = st.disk;
    let m2 = stored(c2, inum, off + chunk.len(), freeinode).disk;
    let s = slot(fbn);
    let at = off % (BSIZE as int);
    let k = p % (BSIZE as int);
    assert(p - off == k - at);
    assert(byte_at(m2, inum, p) == splice(c.disk[x], at, chunk)[k] && NMETA <= x < FSSIZE && m[x]
        == c.disk[x]) by {
        lemma_chunk_blocks(c, inum, off, freeinode, c1, x, c2, chunk);
        lemma_chunk_slots(c, inum, off, freeinode, c1, x, c2, chunk);
        assert(block_of(m2, inum, s) == x);
    }
    assert({
        &&& 0 <= off
        &&& 0 <= s < NSLOTS
        &&& c.disk[x].len() == BLOCK
        &&& in_use(off, s) ==> block_of(m, inum, s) == x
        &&& !in_use(off, s) ==> c.disk[x] == zero_block()
    }) by {
        lemma_steady(c, inum, off, freeinode);
        assert(address(c.din, c.disk, s) == block_of(m, inum, s));
    }
    if in_use(off, s) {
        assert(byte_at(m, inum, p) == c.disk[x][k]);
        if off <= p {
            assert(p < data_blocks(off) * BSIZE);
            assert(byte_at(m, inum, p) == 0) by {
                lemma_padding(c, inum, off, freeinode, p);
            }
        }
    } else {
        assert(data_blocks(off) == fbn);
        assert(at == 0);
    }
}

/// The file of a steady cursor is padded with zeroes.
#[verifier::rlimit(30)]
proof fn lemma_padding(c: Cursor, inum: int, off: int, freeinode: int, p: int)
    requires
        steady(c, inum, off, freeinode),
        off <= p < data_blocks(off) * BSIZE,
    ensures
        byte_at(stored(c, inum, off, freeinode).disk, inum, p) == 0,
{
    lemma_steady(c, inum, off, freeinode);
    reveal(steady);
    reveal(sound);
    assert(live(stored(c, inum, off, freeinode), inum));
}

/// The earlier blocks of the file keep their bytes.
#[verifier::rlimit(30)]
proof fn lemma_chunk_earlier_block(
    c: Cursor,
    inum: int,
    off: int,
    freeinode: int,
    c1: Cursor,
    x: int,
    c2: Cursor,
    chunk: Seq<u8>,
    p: int,
)
    requires
        chunk_written(c, inum, off, freeinode, c1, x, c2, chunk),
        0 <= p,
        p / (BSIZE as int) < off / (BSIZE as int),
    ensures
        byte_at(stored(c2, inum, off + chunk.len(), freeinode).disk, inum, p) == byte_at(
            stored(c, inum, off, freeinode).disk,
            inum,
            p,
        ),
{
    reveal(steady);
    reveal(sound);
    let fbn = off / (BSIZE as int);
    let nd = NDIRECT as int;
    let ib = c1.din.addrs[nd] as int;
    let st2 = stored(c2, inum, off + chunk.len(), freeinode);
    let m = stored(c, inum, off, freeinode).disk;
    let m2 = st2.disk;
    let s = slot(p / (BSIZE as int));
    lemma_chunk_blocks(c, inum, off, freeinode, c1, x, c2, chunk);
    lemma_chunk_slots(c, inum, off, freeinode, c1, x, c2, chunk);
    lemma_chunk_addressed(c, inum, off, freeinode, c1, x, c2, chunk);
    lemma_chunk_unshared(c, inum, off, freeinode, c1, x, c2, chunk);
    assert(live(st2, inum));
    assert(0 <= s < NSLOTS && s != nd && s != slot(fbn) && 0 <= slot(fbn) < NSLOTS);
    assert(in_use(off, s));
    assert(in_use(off + chunk.len(), s));
    let q = block_of(m2, inum, s);
    assert(q != 0 && block_of(m, inum, s) == q);
    assert(NMETA <= q < FSSIZE);
    assert(block_of(m2, inum, slot(fbn)) == x);
    assert(q != x);
    if fbn >= NDIRECT {
        assert(block_of(m2, inum, nd) == ib);
        assert(q != ib);
    }
    assert(m2[q] == m[q]);
}

/// Writing a chunk within one block keeps the image sound, and lengthens the file by it.
#[verifier::rlimit(30)]
proof fn lemma_chunk(
    c: Cursor,
    inum: int,
    off: int,
    freeinode: int,
    c1: Cursor,
    x: int,
    c2: Cursor,
    chunk: Seq<u8>,
)
    requires
        chunk_written(c, inum, off, freeinode, c1, x, c2, chunk),
    ensures
        steady(c2, inum, off + chunk.len(), freeinode),
        c2.din == (DinodeView { addrs: c2.din.addrs, ..c.din }),
        c2.freeblock == c.freeblock + owned_blocks(off + chunk.len()) - owned_blocks(off),
        contents(stored(c2, inum, off + chunk.len(), freeinode).disk, inum) == contents(
            stored(c, inum, off, freeinode).disk,
            inum,
        ) + chunk,
        others_kept(
            stored(c, inum, off, freeinode),
            stored(c2, inum, off + chunk.len(), freeinode),
            inum,
        ),
{
    reveal(others_kept);
    reveal(steady);
    reveal(sound);
    let n = chunk.len() as int;
    let st = stored(c, inum, off, freeinode);
    let st2 = stored(c2, inum, off + n, freeinode);
    let m = st.disk;
    let m2 = st2.disk;
    lemma_steady(c, inum, off, freeinode);
    lemma_owned_within_block(off, n);
    lemma_chunk_blocks(c, inum, off, freeinode, c1, x, c2, chunk);
    lemma_chunk_addressed(c, inum, off, freeinode, c1, x, c2, chunk);
    lemma_chunk_unshared(c, inum, off, freeinode, c1, x, c2, chunk);
    lemma_chunk_accounted(c, inum, off, freeinode, c1, x, c2, chunk);
    assert forall|p: int| 0 <= p < data_blocks(off + n) * BSIZE implies #[trigger] byte_at(
        m2,
        inum,
        p,
    ) == if p < off {
        byte_at(m, inum, p)
    } else if p < off + n {
        chunk[p - off]
    } else {
        0
    } by {
        if p / (BSIZE as int) == off / (BSIZE as int) {
            lemma_chunk_last_block(c, inum, off, freeinode, c1, x, c2, chunk, p);
        } else {
            lemma_chunk_earlier_block(c, inum, off, freeinode, c1, x, c2, chunk, p);
        }
    }
    assert(zero_padded(st2)) by {
        assert forall|i: int, p: int|
            live(st2, i) && inode(st2.disk, i).size <= p < data_blocks(
                inode(st2.disk, i).size as int,
            ) * BSIZE implies #[trigger] byte_at(st2.disk, i, p) == 0 by {
            assert(live(st, i));
            if i != inum {
                lemma_byte_kept(c, inum, off, freeinode, c1, x, c2, chunk, i, p);
                assert(byte_at(m, i, p) == 0);
            }
        }
    }
    assert(contents(m2, inum) =~= contents(m, inum) + chunk);
    assert forall|j: int| live(st, j) && j != inum implies #[trigger] contents(m2, j) == contents(
        m,
        j,
    ) by {
        assert(inode(m2, j) == inode(m, j));
        assert forall|p: int| 0 <= p < inode(m, j).size implies #[trigger] byte_at(m2, j, p)
            == byte_at(m, j, p) by {
            lemma_byte_kept(c, inum, off, freeinode, c1, x, c2, chunk, j, p);
        }
        assert(contents(m2, j) =~= contents(m, j));
    }
}

/// How an append of `len` bytes to a file of `off` bytes ends, where blocks from
/// `freeblock` on are free.
pub open spec fn append_outcome(freeblock: int, off: int, len: int) -> Result<(), Fault> {
    let end = if off + len <= MAXBYTES {
        off + len
    } else {
        MAXBYTES as int
    };
    if freeblock + owned_blocks(end) - owned_blocks(off) > FSSIZE {
        Err(Fault::BadSector)
    } else if off + len > MAXBYTES {
        Err(Fault::FileTooLarge)
    } else {
        Ok(())
    }
}

/// A longer file owns at least as many blocks.
pub proof fn law_owned_blocks_monotonic(a: int, b: int)
    requires
        0 <= a <= b,
    ensures
        owned_blocks(a) <= owned_blocks(b),
{
}

/// The cursor after one chunk has been written where there is room for it.
pub open spec fn step(c: Cursor, off: int, chunk: Seq<u8>) -> Cursor {
    let (c1, r) = map_block(c, off / (BSIZE as int));
    put_chunk(c1, r->Ok_0 as int, off % (BSIZE as int), chunk)
}

/// One round of an append: it writes the first `n` bytes of `data`.
#[verifier::rlimit(30)]
pub proof fn lemma_step(c: Cursor, inum: int, off: int, freeinode: int, data: Seq<u8>) -> (n: int)
    requires
        steady(c, inum, off, freeinode),
        off < MAXBYTES,
        data.len() > 0,
    ensures
        n == chunk_len(off, data.len() as int),
        0 < n <= data.len(),
        0 <= off < off + n <= MAXBYTES,
        shortfall(off) == owned_blocks(off + n) - owned_blocks(off),
        c.freeblock + shortfall(off) > FSSIZE ==> append_run(c, off, data).1 == Err::<(), Fault>(
            Fault::BadSector,
        ),
        c.freeblock + shortfall(off) <= FSSIZE ==> ({
            let c2 = step(c, off, data.take(n));
            let st = stored(c, inum, off, freeinode);
            let st2 = stored(c2, inum, off + n, freeinode);
            &&& append_run(c, off, data) == append_run(c2, off + n, data.skip(n))
            &&& steady(c2, inum, off + n, freeinode)
            &&& c2.din == DinodeView { addrs: c2.din.addrs, ..c.din }
            &&& c2.freeblock == c.freeblock + shortfall(off)
            &&& map_block(c, off / (BSIZE as int)).1 == Ok::<u32, Fault>(
                address(c2.din, c2.disk, slot(off / (BSIZE as int))) as u32,
            )
            &&& forall|s: int|
                0 <= s < NSLOTS && in_use(off, s) ==> #[trigger] address(c2.din, c2.disk, s)
                    == address(c.din, c.disk, s)
            &&& contents(st2.disk, inum) == contents(st.disk, inum) + data.take(n)
            &&& others_kept(st, st2, inum)
        }),
{
    let b = BSIZE as int;
    let n = chunk_len(off, data.len() as int);
    let chunk = data.take(n);
    assert(0 <= off <= MAXBYTES) by {
        reveal(steady);
        reveal(sound);
    }
    lemma_owned_within_block(off, n);
    lemma_map(c, inum, off, freeinode);
    let (c1, r) = map_block(c, off / b);
    if c.freeblock + shortfall(off) <= FSSIZE {
        let x = r->Ok_0 as int;
        let c2 = put_chunk(c1, x, off % b, chunk);
        assert(chunk_written(c, inum, off, freeinode, c1, x, c2, chunk));
        assert(readable(c1.disk, x)) by {
            lemma_chunk_blocks(c, inum, off, freeinode, c1, x, c2, chunk);
            reveal(steady);
            reveal(sound);
        }
        lemma_chunk(c, inum, off, freeinode, c1, x, c2, chunk);
        assert(address(c2.din, c2.disk, slot(off / b)) == x) by {
            lemma_chunk_slots(c, inum, off, freeinode, c1, x, c2, chunk);
            lemma_steady(c2, inum, off + n, freeinode);
        }
        assert forall|s: int| 0 <= s < NSLOTS && in_use(off, s) implies #[trigger] address(
            c2.din,
            c2.disk,
            s,
        ) == address(c.din, c.disk, s) by {
            lemma_chunk_slots(c, inum, off, freeinode, c1, x, c2, chunk);
            lemma_steady(c, inum, off, freeinode);
            lemma_steady(c2, inum, off + n, freeinode);
            assert(block_of(stored(c2, inum, off + n, freeinode).disk, inum, s) == block_of(
                stored(c, inum, off, freeinode).disk,
                inum,
                s,
            ));
        }
    }
    n
}

/// The blocks written by an append, one after the other.
#[verifier::rlimit(30)]
pub proof fn lemma_run(c: Cursor, inum: int, off: int, freeinode: int, data: Seq<u8>)
    requires
        steady(c, inum, off, freeinode),
    ensures
        ({
            let (e, r) = append_run(c, off, data);
            let end = off + data.len();
            let st = stored(c, inum, off, freeinode);
            let st2 = stored(e, inum, end, freeinode);
            &&& r == append_outcome(c.freeblock, off, data.len() as int)
            &&& r is Ok ==> {
                &&& steady(e, inum, end, freeinode)
                &&& e.din == DinodeView { addrs: e.din.addrs, ..c.din }
                &&& e.freeblock == c.freeblock + owned_blocks(end) - owned_blocks(off)
                &&& contents(st2.disk, inum) == contents(st.disk, inum) + data
                &&& others_kept(st, st2, inum)
            }
        }),
    decreases data.len(),
{
    let b = BSIZE as int;
    assert(0 <= off <= MAXBYTES && c.freeblock <= FSSIZE) by {
        reveal(steady);
        reveal(sound);
    }
    if data.len() == 0 {
        let st = stored(c, inum, off, freeinode);
        assert(others_kept(st, st, inum)) by {
            reveal(others_kept);
        }
        assert(contents(st.disk, inum) + data =~= contents(st.disk, inum));
    } else if off < MAXBYTES {
        let n = lemma_step(c, inum, off, freeinode, data);
        let end = if off + data.len() <= MAXBYTES {
            off + data.len()
        } else {
            MAXBYTES as int
        };
        law_owned_blocks_monotonic(off + n, end);
        assert(c.freeblock + shortfall(off) > FSSIZE ==> append_outcome(
            c.freeblock,
            off,
            data.len() as int,
        ) == Err::<(), Fault>(Fault::BadSector));
        if c.freeblock + shortfall(off) <= FSSIZE {
            let c2 = step(c, off, data.take(n));
            let st = stored(c, inum, off, freeinode);
            lemma_run(c2, inum, off + n, freeinode, data.skip(n));
            assert(append_outcome(c.freeblock, off, data.len() as int) == append_outcome(
                c2.freeblock,
                off + n,
                data.skip(n).len() as int,
            ));
            let (e, r) = append_run(c2, off + n, data.skip(n));
            if r is Ok {
                let st2 = stored(c2, inum, off + n, freeinode);
                let st3 = stored(e, inum, off + data.len(), freeinode);
                lemma_kept_twice(st, st2, st3, inum);
            }
            assert(contents(st.disk, inum) + data.take(n) + data.skip(n) =~= contents(
                st.disk,
                inum,
            ) + data);
        }
    }
}

/// Storing the inode that is there already changes nothing.
#[verifier::rlimit(30)]
pub proof fn lemma_start(st: ImageView, inum: int)
    requires
        sound(st),
        live(st, inum),
    ensures
        ({
            let din = inode(st.disk, inum);
            let c = Cursor { disk: st.disk, din, freeblock: st.freeblock };
            &&& stored(c, inum, din.size as int, st.freeinode) == st
            &&& steady(c, inum, din.size as int, st.freeinode)
        }),
{
    reveal(steady);
    reveal(sound);
    let din = inode(st.disk, inum);
    let c = Cursor { disk: st.disk, din, freeblock: st.freeblock };
    law_records_fit_blocks(inum, inum);
    law_dinode_write_back(st.disk[iblock(inum)], ioffset(inum));
    assert(with_size(din, din.size) == din);
    assert(write_inode(st.disk, inum, din) =~= st.disk);
}

/// Appending to a file of a sound image. It succeeds exactly if the file stays
/// within the largest size and the blocks that it comes to own are free. Then the
/// file holds what it held and the new bytes behind it, its inode differs in its
/// size and addresses alone, and the image is sound. Otherwise the file has the
/// inode that it had and holds what it held. Every other file is as before.
#[verifier::rlimit(30)]
pub proof fn law_append(st: ImageView, inum: int, data: Seq<u8>)
    requires
        sound(st),
        live(st, inum),
    ensures
        ({
            let (st2, r) = append(st, inum, data);
            let d = inode(st.disk, inum);
            let d2 = inode(st2.disk, inum);
            &&& r == append_outcome(st.freeblock, d.size as int, data.len() as int)
            &&& st2.freeinode == st.freeinode
            &&& st2.disk.len() == st.disk.len()
            &&& others_kept(st, st2, inum)
            &&& r is Ok ==> {
                &&& sound(st2)
                &&& contents(st2.disk, inum) == contents(st.disk, inum) + data
                &&& d2 == DinodeView {
                    size: (d.size + data.len()) as u32,
                    addrs: d2.addrs,
                    ..d
                }
                &&& st2.freeblock == st.freeblock + owned_blocks(d.size + data.len())
                    - owned_blocks(d.size as int)
            }
            &&& r is Err ==> {
                &&& d2 == d
                &&& contents(st2.disk, inum) == contents(st.disk, inum)
                &&& st2.freeblock == freeblock_after_stop(
                    st.freeblock,
                    d.size as int,
                    r->Err_0,
                )
            }
        }),
{
    reveal(steady);
    reveal(sound);
    let d = inode(st.disk, inum);
    let c = Cursor { disk: st.disk, din: d, freeblock: st.freeblock };
    lemma_start(st, inum);
    lemma_run(c, inum, d.size as int, st.freeinode, data);
    let (e, r) = append_run(c, d.size as int, data);
    law_records_fit_blocks(inum, inum);
    let (st2, r2) = append(st, inum, data);
    if r is Ok {
        lemma_steady(e, inum, d.size + data.len(), st.freeinode);
        assert(st2 == stored(e, inum, d.size + data.len(), st.freeinode));
    } else {
        lemma_append_stopped(st, inum, data);
    }
}

/// The outcome of an append in numbers of blocks.
proof fn lemma_room(freeblock: int, size: int, len: int, had: int, need: int)
    requires
        0 <= size <= MAXBYTES,
        0 <= len,
        freeblock <= FSSIZE,
        size <= 512 * had < size + 512,
        size + len <= 512 * need < size + len + 512,
    ensures
        ({
            let r = append_outcome(freeblock, size, len);
            let taken = if had <= 12 < need {
                need - had + 1
            } else {
                need - had
            };
            &&& r is Ok <==> need <= 140 && freeblock + taken <= 2000
            &&& r is Ok ==> owned_blocks(size + len) - owned_blocks(size) == taken
            &&& need <= 140 && r is Err ==> r->Err_0 == Fault::BadSector
            &&& freeblock + 141 <= 2000 && r is Err ==> r->Err_0 == Fault::FileTooLarge
        }),
{
    law_block_counts(size);
    law_block_counts(size + len);
    assert(had == data_blocks(size) && need == data_blocks(size + len));
    assert(need <= 140 <==> size + len <= MAXBYTES);
    assert(owned_blocks(MAXBYTES as int) == 141);
    if size + len > MAXBYTES {
        assert(0 <= owned_blocks(size) <= 141);
    }
}

/// When an append succeeds, in numbers. The file may have 140 blocks of 512 bytes in
/// the end. It takes as many blocks as it comes to need, and one more where it comes
/// to need more than twelve; the image has 2000 blocks. Where it fails, the blocks
/// that it could have are taken: all that a file can have, or all there are.
pub proof fn law_append_room(st: ImageView, inum: int, data: Seq<u8>, had: int, need: int)
    requires
        sound(st),
        live(st, inum),
        ({
            let size = inode(st.disk, inum).size as int;
            &&& size <= 512 * had < size + 512
            &&& size + data.len() <= 512 * need < size + data.len() + 512
        }),
    ensures
        ({
            let (st2, r) = append(st, inum, data);
            let taken = if had <= 12 < need {
                need - had + 1
            } else {
                need - had
            };
            &&& r is Ok <==> need <= 140 && st.freeblock + taken <= 2000
            &&& r is Ok ==> st2.freeblock == st.freeblock + taken
            &&& need <= 140 && r is Err ==> r->Err_0 == Fault::BadSector
            &&& st.freeblock + 141 <= 2000 && r is Err ==> r->Err_0 == Fault::FileTooLarge
            &&& r is Err && r->Err_0 == Fault::BadSector ==> st2.freeblock == 2001
            &&& r is Err && r->Err_0 != Fault::BadSector ==> {
                &&& r->Err_0 == Fault::FileTooLarge
                &&& st2.freeblock == st.freeblock + 140 - had + if had <= 12 {
                    1int
                } else {
                    0
                }
            }
        }),
{
    law_append(st, inum, data);
    let size = inode(st.disk, inum).size as int;
    assert(size <= MAXBYTES && st.freeblock <= FSSIZE) by {
        reveal(sound);
    }
    lemma_room(st.freeblock, size, data.len() as int, had, need);
    law_block_counts(size);
    assert(had == data_blocks(size));
    assert(owned_blocks(MAXBYTES as int) == 141);
}

/// Appending does not depend on how many inodes have been handed out.
pub proof fn law_append_ignores_inode_counter(
    st: ImageView,
    freeinode: int,
    inum: int,
    data: Seq<u8>,
)
    ensures
        ({
            let (a, ra) = append(st, inum, data);
            let (b, rb) = append(ImageView { freeinode, ..st }, inum, data);
            &&& ra == rb
            &&& a.disk == b.disk
            &&& a.freeblock == b.freeblock
            &&& a.freeinode == st.freeinode
        }),
{
}

} // verus!
