//! Which blocks an append takes.

use vstd::prelude::*;
use crate::append::{lemma_map, lemma_run, lemma_start, lemma_steady, lemma_step};
use crate::append::{shortfall, steady, step, stored};
use crate::image::{append, append_run, chunk_len, inode, map_block, Cursor, ImageView};
use crate::layout::{law_records_fit_blocks, BSIZE, FSSIZE, NDIRECT};
use crate::sound::{address, block_of, data_blocks, in_use, live, slot, sound};
use crate::sound::{MAXBYTES, NSLOTS};

verus! {

/// The block that block `k` of a file gets where the file has `had` blocks and the
/// blocks from `freeblock` on are free. Blocks are taken in order; the indirect
/// block, where the file comes to need one, is taken just before block `NDIRECT`.
pub open spec fn place(freeblock: int, had: int, k: int) -> int {
    if had <= NDIRECT <= k {
        freeblock + (k - had) + 1
    } else {
        freeblock + (k - had)
    }
}

/// The first block written by an append is the next free one, if it is new.
#[verifier::rlimit(30)]
proof fn lemma_step_places(c: Cursor, inum: int, off: int, freeinode: int, data: Seq<u8>)
    requires
        steady(c, inum, off, freeinode),
        off < MAXBYTES,
        data.len() > 0,
        c.freeblock + shortfall(off) <= FSSIZE,
    ensures
        ({
            let n = chunk_len(off, data.len() as int);
            let c2 = step(c, off, data.take(n));
            let k = off / (BSIZE as int);
            let had = data_blocks(off);
            &&& data_blocks(off + n) == k + 1
            &&& off % (BSIZE as int) == 0 ==> had == k && address(c2.din, c2.disk, slot(k))
                == place(c.freeblock, had, k)
            &&& off % (BSIZE as int) != 0 ==> had == k + 1
            &&& had == NDIRECT && k == had ==> address(c2.din, c2.disk, NDIRECT as int)
                == c.freeblock
        }),
{
    let n = lemma_step(c, inum, off, freeinode, data);
    let k = off / (BSIZE as int);
    let c2 = step(c, off, data.take(n));
    lemma_map(c, inum, off, freeinode);
    lemma_steady(c, inum, off, freeinode);
    lemma_steady(c2, inum, off + n, freeinode);
    assert(0 <= slot(k) < NSLOTS);
    assert(in_use(off + n, slot(k)));
    assert(0 < address(c2.din, c2.disk, slot(k)) < FSSIZE);
    assert(c2.din == map_block(c, k).0.din);
}

/// Where the blocks written by an append lie.
#[verifier::rlimit(30)]
proof fn lemma_run_places(c: Cursor, inum: int, off: int, freeinode: int, data: Seq<u8>)
    requires
        steady(c, inum, off, freeinode),
        append_run(c, off, data).1 is Ok,
    ensures
        ({
            let e = append_run(c, off, data).0;
            let had = data_blocks(off);
            let need = data_blocks(off + data.len());
            &&& forall|s: int|
                0 <= s < NSLOTS && in_use(off, s) ==> #[trigger] address(e.din, e.disk, s)
                    == address(c.din, c.disk, s)
            &&& forall|k: int|
                had <= k < need ==> address(e.din, e.disk, #[trigger] slot(k)) == place(
                    c.freeblock,
                    had,
                    k,
                )
            &&& had <= NDIRECT < need ==> address(e.din, e.disk, NDIRECT as int) == c.freeblock + (
            NDIRECT - had)
        }),
    decreases data.len(),
{
    let nd = NDIRECT as int;
    lemma_run(c, inum, off, freeinode, data);
    assert(0 <= off <= MAXBYTES) by {
        lemma_steady(c, inum, off, freeinode);
    }
    if data.len() > 0 {
        let n = lemma_step(c, inum, off, freeinode, data);
        let c2 = step(c, off, data.take(n));
        let rest = data.skip(n);
        let e = append_run(c2, off + n, rest).0;
        let had = data_blocks(off);
        let had2 = data_blocks(off + n);
        let need = data_blocks(off + data.len());
        let fbn = off / (BSIZE as int);
        lemma_step_places(c, inum, off, freeinode, data);
        lemma_run_places(c2, inum, off + n, freeinode, rest);
        assert(off + n + rest.len() == off + data.len());
        assert forall|s: int| 0 <= s < NSLOTS && in_use(off, s) implies #[trigger] address(
            e.din,
            e.disk,
            s,
        ) == address(c.din, c.disk, s) by {
            assert(in_use(off + n, s));
            assert(address(c2.din, c2.disk, s) == address(c.din, c.disk, s));
        }
        assert forall|k: int| had <= k < need implies address(e.din, e.disk, #[trigger] slot(k))
            == place(c.freeblock, had, k) by {
            if k == fbn {
                assert(in_use(off + n, slot(k)));
                assert(address(e.din, e.disk, slot(k)) == address(c2.din, c2.disk, slot(k)));
            } else {
                assert(had2 <= k);
                assert(place(c2.freeblock, had2, k) == place(c.freeblock, had, k));
            }
        }
        if had <= nd < need && fbn == nd {
            assert(in_use(off + n, nd));
            assert(address(e.din, e.disk, nd) == address(c2.din, c2.disk, nd));
        }
    }
}

/// Where the blocks lie that an append takes. A file keeps the blocks that it has;
/// the new ones are taken in order from the next free block on, with the indirect
/// block, where the file comes to need one, just before the first block in it.
#[verifier::rlimit(30)]
pub proof fn law_append_places(st: ImageView, inum: int, data: Seq<u8>)
    requires
        sound(st),
        live(st, inum),
        append(st, inum, data).1 is Ok,
    ensures
        ({
            let st2 = append(st, inum, data).0;
            let size = inode(st.disk, inum).size as int;
            let had = data_blocks(size);
            let need = data_blocks(size + data.len());
            &&& forall|s: int|
                0 <= s < NSLOTS && in_use(size, s) ==> #[trigger] block_of(st2.disk, inum, s)
                    == block_of(st.disk, inum, s)
            &&& forall|k: int|
                had <= k < need ==> block_of(st2.disk, inum, #[trigger] slot(k)) == st.freeblock + (k
                    - had) + if had <= 12 <= k {
                    1int
                } else {
                    0
                }
            &&& had <= NDIRECT < need ==> block_of(st2.disk, inum, NDIRECT as int) == st.freeblock
                + (NDIRECT - had)
        }),
{
    let st2 = append(st, inum, data).0;
    let d = inode(st.disk, inum);
    let size = d.size as int;
    let end = size + data.len();
    let c = Cursor { disk: st.disk, din: d, freeblock: st.freeblock };
    lemma_start(st, inum);
    lemma_steady(c, inum, size, st.freeinode);
    law_records_fit_blocks(inum, inum);
    let (e, r) = append_run(c, size, data);
    assert(r is Ok);
    assert(r->Ok_0 == ());
    lemma_run(c, inum, size, st.freeinode, data);
    lemma_run_places(c, inum, size, st.freeinode, data);
    assert(st2 == stored(e, inum, end, st.freeinode));
    lemma_steady(e, inum, end, st.freeinode);
    let had = data_blocks(size);
    let need = data_blocks(end);
    assert(0 <= had && need <= NSLOTS - 1);
    assert forall|s: int| 0 <= s < NSLOTS && in_use(size, s) implies #[trigger] block_of(
        st2.disk,
        inum,
        s,
    ) == block_of(st.disk, inum, s) by {
        assert(address(e.din, e.disk, s) == address(c.din, c.disk, s));
    }
    assert forall|k: int| had <= k < need implies block_of(st2.disk, inum, #[trigger] slot(k))
        == place(st.freeblock, had, k) by {
        assert(address(e.din, e.disk, slot(k)) == place(st.freeblock, had, k));
    }
    assert(address(e.din, e.disk, NDIRECT as int) == block_of(st2.disk, inum, NDIRECT as int));
}

} // verus!
