//! What an append that stops early leaves of the files of a sound image.

use vstd::prelude::*;
use crate::append::{lemma_kept_twice, lemma_map, lemma_start, lemma_steady, lemma_step};
use crate::append::{others_kept, shortfall, steady, step, stored};
use crate::bytes::u32_at;
use crate::image::{append, append_run, inode, map_block, zero_block};
use crate::image::{Cursor, Fault, ImageView};
use crate::layout::{iblock, law_records_fit_blocks};
use crate::layout::{BSIZE, FSSIZE, NDIRECT, NMETA};
use crate::parts::lemma_run_keeps_inodes;
use crate::sound::{
    address, block_of, byte_at, contents, data_blocks, in_use, live, owned_blocks, prefix, slot, sound,
    unshared,
};
use crate::sound::{lemma_entry_read_back, MAXBYTES, NSLOTS};

verus! {

/// The disk `e` that a cursor ends with where its next block cannot be had: no
/// block of a file has changed but for the indirect block of the file itself,
/// and there no address in use has.
spec fn stopped(c: Cursor, off: int, e: Seq<Seq<u8>>) -> bool {
    let ib = c.din.addrs[NDIRECT as int] as int;
    &&& e.len() == FSSIZE
    &&& forall|q: int| 0 <= q < c.freeblock && q != ib ==> #[trigger] e[q] == c.disk[q]
    &&& forall|s: int|
        NDIRECT < s < NSLOTS && in_use(off, s) ==> #[trigger] u32_at(e[ib], 4 * (s - NDIRECT - 1))
            == u32_at(c.disk[ib], 4 * (s - NDIRECT - 1))
}

/// The next block number after an append to a file of `off` bytes has stopped with
/// the given fault. A full image has been left by one block; a file that would be too
/// large has all the blocks of the largest one.
pub open spec fn freeblock_after_stop(freeblock: int, off: int, fault: Fault) -> int {
    if fault == Fault::BadSector {
        FSSIZE + 1
    } else {
        freeblock + owned_blocks(MAXBYTES as int) - owned_blocks(off)
    }
}

/// Mapping a block that cannot be had leaves the blocks of the file as they are.
#[verifier::rlimit(30)]
proof fn lemma_map_stops(c: Cursor, inum: int, off: int, freeinode: int)
    requires
        steady(c, inum, off, freeinode),
        off < MAXBYTES,
        c.freeblock + shortfall(off) > FSSIZE,
    ensures
        stopped(c, off, map_block(c, off / (BSIZE as int)).0.disk),
{
    lemma_steady(c, inum, off, freeinode);
    let fbn = off / (BSIZE as int);
    let nd = NDIRECT as int;
    let (c1, r) = map_block(c, fbn);
    let e = c1.disk;
    let ib = c.din.addrs[nd] as int;
    assert(address(c.din, c.disk, nd) == ib);
    assert(ib != 0 <==> in_use(off, nd));
    if fbn >= NDIRECT && r is Ok {
        let x = r->Ok_0;
        let k = fbn - NDIRECT;
        assert forall|s: int| NDIRECT < s < NSLOTS && in_use(off, s) implies #[trigger] u32_at(
            e[ib],
            4 * (s - NDIRECT - 1),
        ) == u32_at(c.disk[ib], 4 * (s - NDIRECT - 1)) by {
            assert(in_use(off, nd));
            assert(address(c.din, c.disk, s) != 0);
            if s != slot(fbn) {
                lemma_entry_read_back(c.disk[ib], k, x, s - nd - 1);
            }
        }
    }
}

/// Mapping a block that cannot be had ends one block past the image.
#[verifier::rlimit(30)]
proof fn lemma_map_past_end(c: Cursor, inum: int, off: int, freeinode: int)
    requires
        steady(c, inum, off, freeinode),
        off < MAXBYTES,
        c.freeblock + shortfall(off) > FSSIZE,
    ensures
        map_block(c, off / (BSIZE as int)).0.freeblock == FSSIZE + 1,
{
    lemma_steady(c, inum, off, freeinode);
    let fbn = off / (BSIZE as int);
    let nd = NDIRECT as int;
    assert(address(c.din, c.disk, slot(fbn)) != 0 <==> in_use(off, slot(fbn)));
    assert(address(c.din, c.disk, nd) != 0 <==> in_use(off, nd));
    assert(off % 512 == 0 && fbn == data_blocks(off));
    if fbn < NDIRECT {
        assert(shortfall(off) == 1);
    } else if fbn == NDIRECT {
        assert(shortfall(off) == 2);
        if c.freeblock < FSSIZE {
            assert(c.disk[c.freeblock] == zero_block());
            assert(u32_at(zero_block(), 0) == 0);
        }
    } else {
        assert(shortfall(off) == 1);
        assert(u32_at(c.disk[c.din.addrs[nd] as int], 4 * (fbn - NDIRECT)) == 0);
    }
}

/// Where an append stops: after its last full round it is at byte `at`, with cursor `k`.
proof fn lemma_stop(c: Cursor, inum: int, off: int, freeinode: int, data: Seq<u8>) -> (last: (
    Cursor,
    int,
))
    requires
        steady(c, inum, off, freeinode),
        append_run(c, off, data).1 is Err,
    ensures
        ({
            let (k, at) = last;
            let st = stored(c, inum, off, freeinode);
            let st2 = stored(k, inum, at, freeinode);
            &&& off <= at
            &&& steady(k, inum, at, freeinode)
            &&& stopped(k, at, append_run(c, off, data).0.disk)
            &&& append_run(c, off, data).0.freeblock == freeblock_after_stop(
                c.freeblock,
                off,
                append_run(c, off, data).1->Err_0,
            )
            &&& forall|s: int|
                0 <= s < NSLOTS && in_use(off, s) ==> #[trigger] address(k.din, k.disk, s)
                    == address(c.din, c.disk, s)
            &&& contents(st.disk, inum).is_prefix_of(contents(st2.disk, inum))
            &&& others_kept(st, st2, inum)
        }),
    decreases data.len(),
{
    assert(0 <= off <= MAXBYTES) by {
        lemma_steady(c, inum, off, freeinode);
    }
    let st = stored(c, inum, off, freeinode);
    if off < MAXBYTES && c.freeblock + shortfall(off) <= FSSIZE {
        let n = lemma_step(c, inum, off, freeinode, data);
        let c2 = step(c, off, data.take(n));
        let (k, at) = lemma_stop(c2, inum, off + n, freeinode, data.skip(n));
        let st1 = stored(c2, inum, off + n, freeinode);
        let st2 = stored(k, inum, at, freeinode);
        lemma_kept_twice(st, st1, st2, inum);
        assert forall|s: int| 0 <= s < NSLOTS && in_use(off, s) implies #[trigger] address(
            k.din,
            k.disk,
            s,
        ) == address(c.din, c.disk, s) by {
            assert(in_use(off + n, s));
            assert(address(c2.din, c2.disk, s) == address(c.din, c.disk, s));
        }
        assert(contents(st.disk, inum).is_prefix_of(contents(st1.disk, inum)));
        (k, at)
    } else {
        assert(others_kept(st, st, inum)) by {
            reveal(others_kept);
        }
        if off < MAXBYTES {
            lemma_step(c, inum, off, freeinode, data);
            lemma_map(c, inum, off, freeinode);
            lemma_map_stops(c, inum, off, freeinode);
            lemma_map_past_end(c, inum, off, freeinode);
        } else {
            lemma_steady(c, inum, off, freeinode);
        }
        (c, off)
    }
}

/// The inodes are as before where an append has stopped early.
proof fn lemma_inode_stays(st: ImageView, inum: int, data: Seq<u8>, j: int)
    requires
        sound(st),
        live(st, inum),
        live(st, j),
        append(st, inum, data).1 is Err,
    ensures
        inode(append(st, inum, data).0.disk, j) == inode(st.disk, j),
        append(st, inum, data).0.disk.len() == st.disk.len(),
{
    let d = inode(st.disk, inum);
    let c = Cursor { disk: st.disk, din: d, freeblock: st.freeblock };
    lemma_start(st, inum);
    lemma_steady(c, inum, d.size as int, st.freeinode);
    law_records_fit_blocks(j, j);
    lemma_run_keeps_inodes(c, inum, d.size as int, st.freeinode, data, iblock(j));
    let r = append_run(c, d.size as int, data).1;
    if r is Ok {
        assert(r->Ok_0 == ());
    }
}

/// The other files hold what they held where a cursor has stopped.
#[verifier::rlimit(30)]
proof fn lemma_stopped_other(
    k: Cursor,
    inum: int,
    at: int,
    freeinode: int,
    e: Seq<Seq<u8>>,
    j: int,
)
    requires
        steady(k, inum, at, freeinode),
        stopped(k, at, e),
        1 <= j < freeinode,
        j != inum,
        inode(e, j) == inode(stored(k, inum, at, freeinode).disk, j),
    ensures
        contents(e, j) == contents(stored(k, inum, at, freeinode).disk, j),
{
    let st = stored(k, inum, at, freeinode);
    let m = st.disk;
    let nd = NDIRECT as int;
    let d = inode(m, j);
    lemma_steady(k, inum, at, freeinode);
    reveal(steady);
    reveal(sound);
    assert(live(st, j) && live(st, inum));
    assert(d.size <= MAXBYTES);
    let ib = k.din.addrs[nd] as int;
    assert(address(k.din, k.disk, nd) == block_of(m, inum, nd));
    assert forall|s: int| 0 <= s < NSLOTS && #[trigger] block_of(m, j, s) != 0 implies e[block_of(
        m,
        j,
        s,
    )] == m[block_of(m, j, s)] by {
        let q = block_of(m, j, s);
        assert(NMETA <= q < k.freeblock);
        if q == ib {
            assert(block_of(m, inum, nd) == block_of(m, j, s));
        }
        assert(e[q] == k.disk[q]);
    }
    let jb = d.addrs[nd] as int;
    assert(block_of(m, j, nd) == jb);
    assert forall|p: int| 0 <= p < d.size implies #[trigger] byte_at(e, j, p) == byte_at(
        m,
        j,
        p,
    ) by {
        let s = slot(p / (BSIZE as int));
        assert(p / (BSIZE as int) < data_blocks(d.size as int));
        assert(0 <= s < NSLOTS);
        assert(in_use(d.size as int, s));
        assert(block_of(m, j, s) != 0);
        assert(block_of(e, j, s) == block_of(m, j, s));
    }
    assert(contents(e, j) =~= contents(m, j));
}

/// The file that was appended to holds what it held where a cursor has stopped,
/// if the inode on disk has the addresses in use of the cursor.
#[verifier::rlimit(30)]
proof fn lemma_stopped_file(k: Cursor, inum: int, at: int, freeinode: int, e: Seq<Seq<u8>>)
    requires
        steady(k, inum, at, freeinode),
        stopped(k, at, e),
        inode(e, inum).size <= at,
        forall|s: int|
            0 <= s <= NDIRECT && in_use(inode(e, inum).size as int, s)
                ==> #[trigger] inode(e, inum).addrs[s] == k.din.addrs[s],
    ensures
        contents(e, inum) == prefix(
            stored(k, inum, at, freeinode).disk,
            inum,
            inode(e, inum).size as int,
        ),
{
    let st = stored(k, inum, at, freeinode);
    let m = st.disk;
    let nd = NDIRECT as int;
    let d = inode(e, inum);
    let size = d.size as int;
    lemma_steady(k, inum, at, freeinode);
    assert(unshared(st)) by {
        reveal(steady);
        reveal(sound);
    }
    assert(live(st, inum));
    let ib = k.din.addrs[nd] as int;
    assert(address(k.din, k.disk, nd) == block_of(m, inum, nd));
    assert forall|p: int| 0 <= p < size implies #[trigger] byte_at(e, inum, p) == byte_at(
        m,
        inum,
        p,
    ) by {
        let s = slot(p / (BSIZE as int));
        assert(p / (BSIZE as int) < data_blocks(size));
        assert(data_blocks(size) <= data_blocks(at));
        assert(0 <= s < NSLOTS);
        assert(in_use(size, s) && in_use(at, s));
        let q = address(k.din, k.disk, s);
        assert(q == block_of(m, inum, s));
        assert(q != 0);
        if s > nd {
            assert(in_use(size, nd) && in_use(at, nd));
            assert(d.addrs[nd] == k.din.addrs[nd]);
            assert(u32_at(e[ib], 4 * (s - NDIRECT - 1)) == u32_at(
                k.disk[ib],
                4 * (s - NDIRECT - 1),
            ));
        } else {
            assert(d.addrs[s] == k.din.addrs[s]);
        }
        assert(block_of(e, inum, s) == q);
        assert(q != ib) by {
            assert(s != nd);
            if q == ib {
                assert(block_of(m, inum, s) == block_of(m, inum, nd));
            }
        }
        assert(e[q] == k.disk[q]);
        assert(m[q] == k.disk[q]);
    }
    assert(contents(e, inum) =~= prefix(m, inum, size));
}

/// An append that stops early leaves the inode of the file and its bytes, and
/// every other file.
#[verifier::rlimit(30)]
pub proof fn lemma_append_stopped(st: ImageView, inum: int, data: Seq<u8>)
    requires
        sound(st),
        live(st, inum),
        append(st, inum, data).1 is Err,
    ensures
        ({
            let st2 = append(st, inum, data).0;
            &&& inode(st2.disk, inum) == inode(st.disk, inum)
            &&& contents(st2.disk, inum) == contents(st.disk, inum)
            &&& st2.disk.len() == st.disk.len()
            &&& st2.freeblock == freeblock_after_stop(
                st.freeblock,
                inode(st.disk, inum).size as int,
                append(st, inum, data).1->Err_0,
            )
            &&& others_kept(st, st2, inum)
        }),
{
    let st2 = append(st, inum, data).0;
    let d = inode(st.disk, inum);
    let size = d.size as int;
    let c = Cursor { disk: st.disk, din: d, freeblock: st.freeblock };
    lemma_inode_stays(st, inum, data, inum);
    lemma_start(st, inum);
    lemma_steady(c, inum, size, st.freeinode);
    law_records_fit_blocks(inum, inum);
    let (e, r) = append_run(c, size, data);
    if r is Ok {
        assert(r->Ok_0 == ());
    }
    assert(st2.disk == e.disk);
    let (k, at) = lemma_stop(c, inum, size, st.freeinode, data);
    let last = stored(k, inum, at, st.freeinode);
    assert forall|s: int| 0 <= s <= NDIRECT && in_use(size, s) implies #[trigger] d.addrs[s]
        == k.din.addrs[s] by {
        assert(address(k.din, k.disk, s) == address(c.din, c.disk, s));
    }
    lemma_stopped_file(k, inum, at, st.freeinode, e.disk);
    assert(contents(st2.disk, inum) =~= contents(st.disk, inum)) by {
        assert forall|p: int| 0 <= p < size implies contents(last.disk, inum)[p] == contents(
            st.disk,
            inum,
        )[p] by {}
        lemma_steady(k, inum, at, st.freeinode);
        assert(inode(last.disk, inum).size == at);
    }
    assert(others_kept(st, st2, inum)) by {
        assert forall|j: int| live(st, j) && j != inum implies {
            &&& #[trigger] inode(st2.disk, j) == inode(st.disk, j)
            &&& contents(st2.disk, j) == contents(st.disk, j)
        } by {
            lemma_inode_stays(st, inum, data, j);
            reveal(others_kept);
            assert(inode(last.disk, j) == inode(st.disk, j));
            assert(contents(last.disk, j) == contents(st.disk, j));
            lemma_stopped_other(k, inum, at, st.freeinode, e.disk, j);
        }
        reveal(others_kept);
        assert forall|j: int| live(st, j) && j != inum implies #[trigger] contents(st2.disk, j)
            == contents(st.disk, j) by {
            assert(inode(st2.disk, j) == inode(st.disk, j));
        }
    }
}

} // verus!
