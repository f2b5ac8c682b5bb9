//! What taking an inode does to a sound image.

use vstd::prelude::*;
use crate::append::others_kept;
use crate::image::{alloc_inode, inode, readable, write_inode, zero_block, Fault, ImageView};
use crate::inode::fresh_dinode;
use crate::layout::{iblock, law_records_fit_blocks};
use crate::layout::{BSIZE, FSSIZE, NDIRECT, NMETA};
use crate::sound::{
    accounted, addressed, block_of, byte_at, clean, contents, data_blocks, in_range, in_use, live,
    named, sized, slot, sound, unshared, zero_padded,
};
use crate::sound::{law_inode_read_back, lemma_addresses_kept};
use crate::sound::{MAXBYTES, MAXINODE, NSLOTS};

verus! {

/// Storing an inode keeps the blocks of every other file.
#[verifier::rlimit(30)]
proof fn lemma_others_after_write(st: ImageView, inum: int, f_type: u16, j: int)
    requires
        sound(st),
        0 <= inum < MAXINODE,
        live(st, j),
        j != inum,
    ensures
        ({
            let m2 = write_inode(st.disk, inum, fresh_dinode(f_type));
            &&& inode(m2, j) == inode(st.disk, j)
            &&& forall|s: int|
                0 <= s < NSLOTS ==> #[trigger] block_of(m2, j, s) == block_of(st.disk, j, s)
            &&& forall|p: int|
                0 <= p < data_blocks(inode(st.disk, j).size as int) * BSIZE ==> #[trigger] byte_at(
                    m2,
                    j,
                    p,
                ) == byte_at(st.disk, j, p)
            &&& contents(m2, j) == contents(st.disk, j)
        }),
{
    reveal(sound);
    let m = st.disk;
    let m2 = write_inode(m, inum, fresh_dinode(f_type));
    let nd = NDIRECT as int;
    law_inode_read_back(m, inum, fresh_dinode(f_type), j);
    assert(block_of(m, j, nd) == inode(m, j).addrs[nd]);
    lemma_addresses_kept(inode(m, j), m, m2);
    let size = inode(m, j).size as int;
    assert(size <= MAXBYTES);
    assert forall|p: int| 0 <= p < data_blocks(size) * BSIZE implies #[trigger] byte_at(m2, j, p)
        == byte_at(m, j, p) by {
        let s = slot(p / (BSIZE as int));
        assert(p / (BSIZE as int) < data_blocks(size));
        assert(0 <= s < NSLOTS);
        assert(in_use(size, s));
        assert(block_of(m, j, s) != 0);
        assert(block_of(m2, j, s) == block_of(m, j, s));
    }
    assert(contents(m2, j) =~= contents(m, j));
}

/// A fresh inode has no blocks.
proof fn lemma_fresh_has_no_blocks(disk: Seq<Seq<u8>>, inum: int, f_type: u16)
    requires
        inode(disk, inum) == fresh_dinode(f_type),
    ensures
        forall|s: int| 0 <= s < NSLOTS ==> #[trigger] block_of(disk, inum, s) == 0,
        forall|s: int| 0 <= s < NSLOTS ==> !#[trigger] in_use(0, s),
        contents(disk, inum) == Seq::<u8>::empty(),
{
    assert(contents(disk, inum) =~= Seq::<u8>::empty());
}

/// After an inode has been taken, it has no blocks and the others have theirs.
#[verifier::rlimit(30)]
proof fn lemma_alloc_slots(st: ImageView, f_type: u16)
    requires
        sound(st),
        st.freeinode < MAXINODE,
    ensures
        ({
            let inum = st.freeinode;
            let (st2, r) = alloc_inode(st, f_type);
            &&& r == Ok::<u32, Fault>(inum as u32)
            &&& st2.disk == write_inode(st.disk, inum, fresh_dinode(f_type))
            &&& st2.freeinode == inum + 1
            &&& st2.freeblock == st.freeblock
            &&& sized(st2)
            &&& inode(st2.disk, inum) == fresh_dinode(f_type)
            &&& contents(st2.disk, inum) == Seq::<u8>::empty()
            &&& forall|q: int|
                0 <= q < FSSIZE && q != iblock(inum) ==> #[trigger] st2.disk[q] == st.disk[q]
            &&& iblock(inum) < NMETA
            &&& forall|s: int| 0 <= s < NSLOTS ==> #[trigger] block_of(st2.disk, inum, s) == 0
            &&& forall|j: int|
                live(st, j) ==> #[trigger] inode(st2.disk, j) == inode(st.disk, j)
            &&& forall|j: int, s: int|
                live(st, j) && 0 <= s < NSLOTS ==> #[trigger] block_of(st2.disk, j, s) == block_of(
                    st.disk,
                    j,
                    s,
                )
        }),
{
    reveal(sound);
    let inum = st.freeinode;
    let (st2, r) = alloc_inode(st, f_type);
    law_records_fit_blocks(inum, inum);
    assert(readable(st.disk, iblock(inum)));
    law_inode_read_back(st.disk, inum, fresh_dinode(f_type), inum);
    lemma_fresh_has_no_blocks(st2.disk, inum, f_type);
    assert forall|j: int| live(st, j) implies #[trigger] inode(st2.disk, j) == inode(
        st.disk,
        j,
    ) by {
        lemma_others_after_write(st, inum, f_type, j);
    }
    assert forall|j: int, s: int| live(st, j) && 0 <= s < NSLOTS implies #[trigger] block_of(
        st2.disk,
        j,
        s,
    ) == block_of(st.disk, j, s) by {
        lemma_others_after_write(st, inum, f_type, j);
    }
}

/// After an inode has been taken, addresses are where the sizes call for them, and in range.
#[verifier::rlimit(30)]
proof fn lemma_alloc_addressed(st: ImageView, f_type: u16)
    requires
        sound(st),
        st.freeinode < MAXINODE,
    ensures
        addressed(alloc_inode(st, f_type).0),
        in_range(alloc_inode(st, f_type).0),
        clean(alloc_inode(st, f_type).0),
{
    reveal(sound);
    let inum = st.freeinode;
    let (st2, r) = alloc_inode(st, f_type);
    let m = st.disk;
    let m2 = st2.disk;
    lemma_alloc_slots(st, f_type);
    lemma_fresh_has_no_blocks(m2, inum, f_type);
    assert forall|i: int| live(st2, i) implies (#[trigger] inode(m2, i)).size <= MAXBYTES by {
        if i != inum {
            assert(live(st, i));
            assert(inode(m, i).size <= MAXBYTES);
        }
    }
    assert forall|i: int, s: int| live(st2, i) && 0 <= s < NSLOTS implies {
        &&& #[trigger] block_of(m2, i, s) != 0 <==> in_use(inode(m2, i).size as int, s)
        &&& block_of(m2, i, s) != 0 ==> NMETA <= block_of(m2, i, s) < st2.freeblock
    } by {
        if i != inum {
            assert(live(st, i));
            assert(block_of(m2, i, s) == block_of(m, i, s));
            assert(inode(m2, i) == inode(m, i));
        } else {
            assert(!in_use(0, s));
        }
    }
    assert forall|q: int| st2.freeblock <= q < FSSIZE implies #[trigger] m2[q] == zero_block() by {
        assert(m[q] == zero_block());
    }
}

/// After an inode has been taken, no block is shared.
#[verifier::rlimit(30)]
proof fn lemma_alloc_unshared(st: ImageView, f_type: u16)
    requires
        sound(st),
        st.freeinode < MAXINODE,
    ensures
        unshared(alloc_inode(st, f_type).0),
{
    assert(unshared(st)) by {
        reveal(sound);
    }
    let (st2, r) = alloc_inode(st, f_type);
    let m = st.disk;
    let m2 = st2.disk;
    lemma_alloc_slots(st, f_type);
    assert forall|i: int, s: int, j: int, t: int|
        live(st2, i) && live(st2, j) && 0 <= s < NSLOTS && 0 <= t < NSLOTS && #[trigger] block_of(
            m2,
            i,
            s,
        ) != 0 && block_of(m2, i, s) == #[trigger] block_of(m2, j, t) implies i == j && s == t by {
        assert(live(st, i) && live(st, j));
        assert(block_of(m2, i, s) == block_of(m, i, s));
        assert(block_of(m2, j, t) == block_of(m, j, t));
    }
}

/// After an inode has been taken, no block is lost.
proof fn lemma_alloc_accounted(st: ImageView, f_type: u16)
    requires
        sound(st),
        st.freeinode < MAXINODE,
    ensures
        accounted(alloc_inode(st, f_type).0),
{
    let st2 = alloc_inode(st, f_type).0;
    assert(accounted(st)) by {
        reveal(sound);
    }
    lemma_alloc_slots(st, f_type);
    assert forall|q: int| NMETA <= q < st2.freeblock implies #[trigger] named(st2, q) by {
        assert(named(st, q));
        let (i, s) = choose|i: int, s: int|
            live(st, i) && 0 <= s < NSLOTS && #[trigger] block_of(st.disk, i, s) == q;
        assert(live(st2, i));
        assert(block_of(st2.disk, i, s) == q);
    }
}

/// After an inode has been taken, files are still padded with zeroes.
#[verifier::rlimit(30)]
proof fn lemma_alloc_zero_padded(st: ImageView, f_type: u16)
    requires
        sound(st),
        st.freeinode < MAXINODE,
    ensures
        zero_padded(alloc_inode(st, f_type).0),
{
    let inum = st.freeinode;
    let st2 = alloc_inode(st, f_type).0;
    assert(zero_padded(st)) by {
        reveal(sound);
    }
    lemma_alloc_slots(st, f_type);
    assert forall|i: int, p: int|
        live(st2, i) && inode(st2.disk, i).size <= p < data_blocks(inode(st2.disk, i).size as int)
            * BSIZE implies #[trigger] byte_at(st2.disk, i, p) == 0 by {
        if i != inum {
            assert(live(st, i));
            lemma_others_after_write(st, inum, f_type, i);
            assert(byte_at(st2.disk, i, p) == byte_at(st.disk, i, p));
        } else {
            assert(inode(st2.disk, i).size == 0);
            assert(data_blocks(0) == 0);
        }
    }
}

/// Taking an inode of a sound image while the inode table has room. It succeeds
/// with the next number. The new file is empty, with one link; every other file,
/// every other inode and every block that holds no inode is as before; and the
/// image is sound.
#[verifier::rlimit(30)]
pub proof fn law_alloc_inode(st: ImageView, f_type: u16)
    requires
        sound(st),
        st.freeinode < MAXINODE,
    ensures
        ({
            let inum = st.freeinode;
            let (st2, r) = alloc_inode(st, f_type);
            &&& r == Ok::<u32, Fault>(inum as u32)
            &&& sound(st2)
            &&& st2.freeinode == inum + 1
            &&& st2.freeblock == st.freeblock
            &&& inode(st2.disk, inum) == fresh_dinode(f_type)
            &&& contents(st2.disk, inum) == Seq::<u8>::empty()
            &&& others_kept(st, st2, inum)
            &&& forall|j: int|
                0 <= j < MAXINODE && j != inum ==> #[trigger] inode(st2.disk, j) == inode(
                    st.disk,
                    j,
                )
            &&& forall|q: int|
                0 <= q < FSSIZE && q != iblock(inum) ==> #[trigger] st2.disk[q] == st.disk[q]
        }),
{
    let inum = st.freeinode;
    let (st2, r) = alloc_inode(st, f_type);
    lemma_alloc_slots(st, f_type);
    assert forall|j: int| 0 <= j < MAXINODE && j != inum implies #[trigger] inode(st2.disk, j)
        == inode(st.disk, j) by {
        reveal(sound);
        law_inode_read_back(st.disk, inum, fresh_dinode(f_type), j);
    }
    assert(sound(st2)) by {
        lemma_alloc_addressed(st, f_type);
        lemma_alloc_unshared(st, f_type);
        lemma_alloc_zero_padded(st, f_type);
        lemma_alloc_accounted(st, f_type);
        reveal(sound);
    }
    assert(others_kept(st, st2, inum)) by {
        reveal(others_kept);
        assert forall|j: int| live(st, j) && j != inum implies #[trigger] contents(st2.disk, j)
            == contents(st.disk, j) by {
            lemma_others_after_write(st, inum, f_type, j);
        }
    }
}

} // verus!
