//! Appending in parts: how the bytes are divided among calls does not matter.

use vstd::prelude::*;
use crate::append::{lemma_map, lemma_start, lemma_step, shortfall, steady, step};
use crate::append::{lemma_run, lemma_steady, stored};
use crate::bytes::{splice, u32_at};
use crate::image::{
    append, append_run, chunk_len, inode, map_block, put_chunk, readable, with_addr, with_size,
    write_inode,
};
use crate::image::{Cursor, Fault, ImageView};
use crate::inode::{dinode_bytes, law_dinode_len};
use crate::layout::{iblock, ioffset, law_records_fit_blocks};
use crate::layout::{BLOCK, BSIZE, FSSIZE, MAXFILE, NDIRECT, NMETA};
use crate::sound::{address, in_use, live, slot, sound};
use crate::sound::{law_inode_read_back, MAXBYTES, MAXINODE, NSLOTS};

verus! {

/// Mapping a block that the file has already changes nothing.
proof fn lemma_map_again(c: Cursor, inum: int, off: int, freeinode: int)
    requires
        steady(c, inum, off, freeinode),
        off < MAXBYTES,
        off % (BSIZE as int) != 0,
    ensures
        map_block(c, off / (BSIZE as int)) == (
            c,
            Ok::<u32, Fault>(address(c.din, c.disk, slot(off / (BSIZE as int))) as u32),
        ),
{
    lemma_steady(c, inum, off, freeinode);
    let fbn = off / (BSIZE as int);
    let s = slot(fbn);
    let nd = NDIRECT as int;
    assert(in_use(off, s));
    assert(address(c.din, c.disk, s) != 0);
    if fbn < NDIRECT {
        assert(with_addr(c.din, fbn, c.din.addrs[fbn]) =~= c.din);
    } else {
        assert(address(c.din, c.disk, nd) != 0);
        assert(with_addr(c.din, nd, c.din.addrs[nd]) =~= c.din);
        assert(u32_at(c.disk[c.din.addrs[nd] as int], 4 * (fbn - nd)) != 0);
    }
}

/// Two chunks that follow each other in a block make one.
proof fn lemma_splice_twice(b: Seq<u8>, at: int, x: Seq<u8>, y: Seq<u8>)
    requires
        0 <= at,
        at + x.len() + y.len() <= b.len(),
    ensures
        splice(splice(b, at, x), at + x.len(), y) == splice(b, at, x + y),
{
    assert(splice(splice(b, at, x), at + x.len(), y) =~= splice(b, at, x + y));
}

/// Two chunks within one block, written one after the other or at once.
proof fn lemma_step_twice(c: Cursor, inum: int, off: int, freeinode: int, a: Seq<u8>, b: Seq<u8>)
    requires
        steady(c, inum, off, freeinode),
        off < MAXBYTES,
        c.freeblock + shortfall(off) <= FSSIZE,
        0 < a.len(),
        0 < b.len(),
        a.len() + b.len() <= BSIZE - off % (BSIZE as int),
    ensures
        step(step(c, off, a), off + a.len(), b) == step(c, off, a + b),
{
    let bs = BSIZE as int;
    let fbn = off / bs;
    let n = lemma_step(c, inum, off, freeinode, a);
    assert(n == a.len() && a.take(n) =~= a);
    let c2 = step(c, off, a);
    let (c1, r) = map_block(c, fbn);
    let x = r->Ok_0 as int;
    assert((off + n) / bs == fbn && (off + n) % bs == off % bs + n) by (nonlinear_arith)
        requires
            bs == 512,
            fbn == off / bs,
            0 <= off,
            0 < n < 512 - off % bs,
    ;
    lemma_map_again(c2, inum, off + n, freeinode);
    lemma_steady(c2, inum, off + n, freeinode);
    assert(c2.disk.len() == c1.disk.len());
    assert(address(c2.din, c2.disk, slot(fbn)) != 0) by {
        assert(in_use(off + n, slot(fbn)));
    }
    assert(NMETA <= x < FSSIZE);
    assert(c2.disk[x].len() == BLOCK);
    lemma_splice_twice(c1.disk[x], off % bs, a, b);
    let c3 = step(c, off, a + b);
    let c4 = step(c2, off + n, b);
    assert(c4 == put_chunk(c2, x, off % bs + n, b));
    assert(c3.disk =~= c4.disk);
}

/// Writing `a` and then `b` is writing both at once.
#[verifier::rlimit(30)]
proof fn lemma_split(c: Cursor, inum: int, off: int, freeinode: int, a: Seq<u8>, b: Seq<u8>)
    requires
        steady(c, inum, off, freeinode),
        append_run(c, off, a).1 is Ok,
    ensures
        append_run(c, off, a + b) == append_run(append_run(c, off, a).0, off + a.len(), b),
    decreases a.len(),
{
    let all = a + b;
    if a.len() == 0 {
        assert(all =~= b);
    } else if b.len() == 0 {
        assert(all =~= a);
        assert(append_run(c, off, a).1->Ok_0 == ());
    } else {
        assert(off < MAXBYTES) by {
            lemma_steady(c, inum, off, freeinode);
        }
        let n = lemma_step(c, inum, off, freeinode, a);
        assert(c.freeblock + shortfall(off) <= FSSIZE);
        let k = lemma_step(c, inum, off, freeinode, all);
        let c2 = step(c, off, a.take(n));
        if n < a.len() {
            assert(n == k);
            assert(all.take(n) =~= a.take(n));
            assert(all.skip(n) =~= a.skip(n) + b);
            lemma_split(c2, inum, off + n, freeinode, a.skip(n), b);
        } else {
            assert(a.take(n) =~= a);
            assert(append_run(c, off, a) == (c2, Ok::<(), Fault>(()))) by {
                assert(a.skip(n).len() == 0);
            }
            if k == n {
                assert(all.take(k) =~= a);
                assert(all.skip(k) =~= b);
            } else {
                let m = k - n;
                assert(all.take(k) =~= a + b.take(m));
                assert(all.skip(k) =~= b.skip(m));
                lemma_step_twice(c, inum, off, freeinode, a, b.take(m));
                lemma_same_block(off, n, b.len() as int);
                let k2 = lemma_step(c2, inum, off + n, freeinode, b);
                assert(k2 == m);
            }
        }
    }
}

/// Where a block is not filled, the rest of it takes the next bytes and no new block.
proof fn lemma_same_block(off: int, n: int, len: int)
    requires
        0 <= off,
        0 < n < BSIZE - off % (BSIZE as int),
        0 < len,
    ensures
        shortfall(off + n) == 0,
        chunk_len(off + n, len) == chunk_len(off, n + len) - n,
        off < MAXBYTES ==> off + n < MAXBYTES,
{
}

/// The cursor with another inode block on the disk and another size in its inode.
spec fn alt(c: Cursor, q: int, b: Seq<u8>, size: u32) -> Cursor {
    Cursor { disk: c.disk.update(q, b), din: with_size(c.din, size), freeblock: c.freeblock }
}

/// Mapping a block depends neither on the inode blocks nor on the size in the inode.
proof fn lemma_map_alt(
    c: Cursor,
    inum: int,
    off: int,
    freeinode: int,
    q: int,
    b: Seq<u8>,
    size: u32,
)
    requires
        steady(c, inum, off, freeinode),
        off < MAXBYTES,
        0 <= q < NMETA,
    ensures
        ({
            let (c1, r) = map_block(c, off / (BSIZE as int));
            map_block(alt(c, q, b, size), off / (BSIZE as int)) == (alt(c1, q, b, size), r)
        }),
{
    lemma_steady(c, inum, off, freeinode);
    let fbn = off / (BSIZE as int);
    let nd = NDIRECT as int;
    let a = alt(c, q, b, size);
    let (c1, r) = map_block(c, fbn);
    let (a1, ra) = map_block(a, fbn);
    if fbn < NDIRECT {
        assert(a1.din =~= alt(c1, q, b, size).din);
    } else {
        let ib = if c.din.addrs[nd] != 0 {
            c.din.addrs[nd] as int
        } else {
            c.freeblock
        };
        assert(address(c.din, c.disk, nd) == c.din.addrs[nd]);
        assert(NMETA <= ib);
        if ib < FSSIZE {
            assert(a.disk[ib] == c.disk[ib]);
        }
        assert(a1.din =~= alt(c1, q, b, size).din);
        assert(a1.disk =~= alt(c1, q, b, size).disk);
    }
}

/// Overwriting part of a data block does not touch another block.
proof fn lemma_chunk_alt(
    c: Cursor,
    x: int,
    at: int,
    chunk: Seq<u8>,
    q: int,
    b: Seq<u8>,
    size: u32,
)
    requires
        0 <= q < c.disk.len(),
        0 <= x < c.disk.len(),
        q != x,
    ensures
        put_chunk(alt(c, q, b, size), x, at, chunk) == alt(put_chunk(c, x, at, chunk), q, b, size),
{
    assert(put_chunk(alt(c, q, b, size), x, at, chunk).disk =~= alt(
        put_chunk(c, x, at, chunk),
        q,
        b,
        size,
    ).disk);
}

/// The first round of writing blocks.
spec fn round(c: Cursor, off: int, data: Seq<u8>, c1: Cursor, r: Result<u32, Fault>) -> (
    Cursor,
    Result<(), Fault>,
) {
    let n = chunk_len(off, data.len() as int);
    match r {
        Err(e) => (c1, Err(e)),
        Ok(x) => if !readable(c1.disk, x as int) {
            (c1, Err(Fault::BadSector))
        } else {
            append_run(
                put_chunk(c1, x as int, off % (BSIZE as int), data.take(n)),
                off + n,
                data.skip(n),
            )
        },
    }
}

/// Writing blocks starts with its first round.
proof fn lemma_round(c: Cursor, off: int, data: Seq<u8>)
    requires
        data.len() > 0,
        off / (BSIZE as int) < MAXFILE,
    ensures
        ({
            let (c1, r) = map_block(c, off / (BSIZE as int));
            append_run(c, off, data) == round(c, off, data, c1, r)
        }),
{
}

/// Writing blocks depends neither on the inode blocks nor on the size in the inode.
#[verifier::rlimit(30)]
proof fn lemma_run_alt(
    c: Cursor,
    inum: int,
    off: int,
    freeinode: int,
    data: Seq<u8>,
    q: int,
    b: Seq<u8>,
    size: u32,
)
    requires
        steady(c, inum, off, freeinode),
        0 <= q < NMETA,
    ensures
        append_run(alt(c, q, b, size), off, data) == (
            alt(append_run(c, off, data).0, q, b, size),
            append_run(c, off, data).1,
        ),
    decreases data.len(),
{
    assert(0 <= off <= MAXBYTES) by {
        lemma_steady(c, inum, off, freeinode);
    }
    if data.len() > 0 && off < MAXBYTES {
        let a = alt(c, q, b, size);
        let (c1, r) = map_block(c, off / (BSIZE as int));
        lemma_round(c, off, data);
        lemma_round(a, off, data);
        lemma_map_alt(c, inum, off, freeinode, q, b, size);
        let n = lemma_step(c, inum, off, freeinode, data);
        let fits = c.freeblock + shortfall(off) <= FSSIZE;
        if fits {
            let c2 = step(c, off, data.take(n));
            lemma_step_writes_data(c, inum, off, freeinode, data);
            lemma_chunk_alt(c1, r->Ok_0 as int, off % (BSIZE as int), data.take(n), q, b, size);
            lemma_run_alt(c2, inum, off + n, freeinode, data.skip(n), q, b, size);
            lemma_round_alt(c, off, data, c1, r, q, b, size);
        } else {
            assert(append_run(c, off, data).1 is Err);
            lemma_map(c, inum, off, freeinode);
            lemma_map_len(c, off / (BSIZE as int));
            assert(c.disk.len() == FSSIZE) by {
                lemma_steady(c, inum, off, freeinode);
            }
            lemma_round_alt(c, off, data, c1, r, q, b, size);
        }
    }
}

/// A round ends alike whatever the inode blocks hold, if the rounds behind it do.
proof fn lemma_round_alt(
    c: Cursor,
    off: int,
    data: Seq<u8>,
    c1: Cursor,
    r: Result<u32, Fault>,
    q: int,
    b: Seq<u8>,
    size: u32,
)
    requires
        0 <= q < c1.disk.len(),
        ({
            let n = chunk_len(off, data.len() as int);
            let x = r->Ok_0 as int;
            let at = off % (BSIZE as int);
            let c2 = put_chunk(c1, x, at, data.take(n));
            r is Ok && readable(c1.disk, x) ==> {
                &&& put_chunk(alt(c1, q, b, size), x, at, data.take(n)) == alt(c2, q, b, size)
                &&& append_run(alt(c2, q, b, size), off + n, data.skip(n)) == (
                    alt(append_run(c2, off + n, data.skip(n)).0, q, b, size),
                    append_run(c2, off + n, data.skip(n)).1,
                )
            }
        }),
    ensures
        round(alt(c, q, b, size), off, data, alt(c1, q, b, size), r) == (
            alt(round(c, off, data, c1, r).0, q, b, size),
            round(c, off, data, c1, r).1,
        ),
{
}

/// A round writes to a data block.
proof fn lemma_step_writes_data(c: Cursor, inum: int, off: int, freeinode: int, data: Seq<u8>)
    requires
        steady(c, inum, off, freeinode),
        off < MAXBYTES,
        data.len() > 0,
        c.freeblock + shortfall(off) <= FSSIZE,
    ensures
        ({
            let (c1, r) = map_block(c, off / (BSIZE as int));
            &&& r is Ok
            &&& NMETA <= r->Ok_0 < FSSIZE
            &&& c1.disk.len() == FSSIZE
        }),
{
    lemma_map(c, inum, off, freeinode);
    lemma_steady(c, inum, off, freeinode);
    lemma_slot_in_use(off, 1);
    let s = slot(off / (BSIZE as int));
    assert(in_use(off, s) ==> address(c.din, c.disk, s) != 0);
}

/// Mapping a block does not change the number of sectors.
proof fn lemma_map_len(c: Cursor, fbn: int)
    ensures
        map_block(c, fbn).0.disk.len() == c.disk.len(),
{
}

/// The slot of the block at byte `off` is in use once the block holds a byte.
proof fn lemma_slot_in_use(off: int, n: int)
    requires
        0 <= off < MAXBYTES,
        0 < n <= BSIZE - off % (BSIZE as int),
    ensures
        in_use(off + n, slot(off / (BSIZE as int))),
        0 <= slot(off / (BSIZE as int)) < NSLOTS,
{
}

/// Writing blocks leaves the inode blocks alone.
pub proof fn lemma_run_keeps_inodes(
    c: Cursor,
    inum: int,
    off: int,
    freeinode: int,
    data: Seq<u8>,
    q: int,
)
    requires
        steady(c, inum, off, freeinode),
        0 <= q < NMETA,
    ensures
        append_run(c, off, data).0.disk[q] == c.disk[q],
        append_run(c, off, data).0.disk.len() == c.disk.len(),
{
    lemma_steady(c, inum, off, freeinode);
    let size = c.din.size;
    lemma_run_len(c, off, data);
    lemma_run_alt(c, inum, off, freeinode, data, q, c.disk[q], size);
    assert(alt(c, q, c.disk[q], size) == c) by {
        assert(c.disk.update(q, c.disk[q]) =~= c.disk);
    }
    let e = append_run(c, off, data).0;
    assert(e == alt(e, q, c.disk[q], size));
    assert(e.disk == e.disk.update(q, c.disk[q]));
}

/// Writing blocks does not change the number of sectors.
proof fn lemma_run_len(c: Cursor, off: int, data: Seq<u8>)
    requires
        0 <= off,
    ensures
        append_run(c, off, data).0.disk.len() == c.disk.len(),
    decreases data.len(),
{
    if data.len() > 0 && off / (BSIZE as int) < MAXFILE {
        let n = chunk_len(off, data.len() as int);
        let (c1, r) = map_block(c, off / (BSIZE as int));
        lemma_round(c, off, data);
        lemma_map_len(c, off / (BSIZE as int));
        if r is Ok && readable(c1.disk, r->Ok_0 as int) {
            let c2 = put_chunk(c1, r->Ok_0 as int, off % (BSIZE as int), data.take(n));
            lemma_run_len(c2, off + n, data.skip(n));
        }
    }
}

/// Appending to a file of a sound image leaves every block before the data blocks
/// as it was, but for the block that holds the file's inode.
#[verifier::rlimit(30)]
pub proof fn law_append_keeps_metadata(st: ImageView, inum: int, data: Seq<u8>, q: int)
    requires
        sound(st),
        live(st, inum),
        0 <= q < NMETA,
        q != iblock(inum),
    ensures
        append(st, inum, data).0.disk[q] == st.disk[q],
{
    let d = inode(st.disk, inum);
    let c = Cursor { disk: st.disk, din: d, freeblock: st.freeblock };
    lemma_start(st, inum);
    law_records_fit_blocks(inum, inum);
    lemma_run_keeps_inodes(c, inum, d.size as int, st.freeinode, data, q);
    reveal(sound);
}

/// Appending to a file of a sound image leaves every other inode as it was, also
/// those that have not been handed out.
pub proof fn law_append_keeps_other_inodes(st: ImageView, inum: int, data: Seq<u8>, j: int)
    requires
        sound(st),
        live(st, inum),
        0 <= j < MAXINODE,
        j != inum,
    ensures
        inode(append(st, inum, data).0.disk, j) == inode(st.disk, j),
{
    let d = inode(st.disk, inum);
    let c = Cursor { disk: st.disk, din: d, freeblock: st.freeblock };
    let size = d.size as int;
    let end = size + data.len();
    lemma_start(st, inum);
    lemma_steady(c, inum, size, st.freeinode);
    lemma_run_keeps_inodes(c, inum, size, st.freeinode, data, iblock(j));
    lemma_run_keeps_inodes(c, inum, size, st.freeinode, data, iblock(inum));
    lemma_run(c, inum, size, st.freeinode, data);
    let (e, r) = append_run(c, size, data);
    if r is Ok {
        assert(r->Ok_0 == ());
        lemma_steady(e, inum, end, st.freeinode);
        law_inode_read_back(e.disk, inum, with_size(e.din, end as u32), j);
    }
}

/// Appending `a` and then `b` ends as appending both at once does, and where it
/// succeeds it leaves the very same image.
pub proof fn law_append_in_parts(st: ImageView, inum: int, a: Seq<u8>, b: Seq<u8>)
    requires
        sound(st),
        live(st, inum),
        append(st, inum, a).1 is Ok,
    ensures
        append(append(st, inum, a).0, inum, b).1 == append(st, inum, a + b).1,
        append(st, inum, a + b).1 is Ok ==> append(append(st, inum, a).0, inum, b) == append(
            st,
            inum,
            a + b,
        ),
{
    let d = inode(st.disk, inum);
    let off = d.size as int;
    let fi = st.freeinode;
    let c = Cursor { disk: st.disk, din: d, freeblock: st.freeblock };
    let q = iblock(inum);
    let at = ioffset(inum);
    lemma_start(st, inum);
    law_records_fit_blocks(inum, inum);
    lemma_run(c, inum, off, fi, a);
    let (e, ra) = append_run(c, off, a);
    let end = off + a.len();
    let z = end as u32;
    lemma_steady(c, inum, off, fi);
    assert(readable(st.disk, q));
    assert(ra is Ok && ra->Ok_0 == ());
    lemma_steady(e, inum, end, fi);
    lemma_split(c, inum, off, fi, a, b);
    let d1 = with_size(e.din, z);
    let b1 = splice(e.disk[q], at, dinode_bytes(d1));
    let st1 = append(st, inum, a).0;
    assert(st1 == stored(e, inum, end, fi));
    assert(inode(st1.disk, inum) == d1);
    let c1 = Cursor { disk: st1.disk, din: d1, freeblock: st1.freeblock };
    assert(c1 == alt(e, q, b1, z));
    lemma_run_alt(e, inum, end, fi, b, q, b1, z);
    lemma_run_keeps_inodes(e, inum, end, fi, b, q);
    let (f, rb) = append_run(e, end, b);
    assert(append_run(c, off, a + b) == (f, rb));
    assert(append_run(c1, end, b) == (alt(f, q, b1, z), rb));
    assert(readable(st1.disk, q));
    if rb is Ok {
        assert(rb->Ok_0 == ());
        lemma_run(e, inum, end, fi, b);
        let z2 = (end + b.len()) as u32;
        let d2 = with_size(f.din, z2);
        assert(with_size(alt(f, q, b1, z).din, z2) == d2);
        law_dinode_len(d1);
        law_dinode_len(d2);
        assert(splice(b1, at, dinode_bytes(d2)) =~= splice(f.disk[q], at, dinode_bytes(d2)));
        assert(write_inode(alt(f, q, b1, z).disk, inum, d2) =~= write_inode(f.disk, inum, d2));
    }
}

} // verus!
