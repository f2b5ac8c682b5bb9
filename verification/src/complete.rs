//! What a complete image holds.

use vstd::prelude::*;
use crate::append::{
    append_outcome, law_append, law_owned_blocks_monotonic, lemma_kept_twice, lemma_start,
    others_kept,
};
use crate::bytes::{law_u16_read_back, u16_at, word16};
use crate::create::law_alloc_inode;
use crate::dirent::{
    dirent_bytes, kept_name, law_dirent_bytes, law_stored_name, name_byte, padded,
};
use crate::image::{
    alloc_inode, append, bitmap, inode, law_bitmap_marks_exactly_the_used, marked, with_size,
    write_inode, write_sector, zero_block,
};
use crate::image::{Fault, ImageView, BITMAP_BITS};
use crate::inode::{free_dinode, fresh_dinode, law_fresh_dinode, DinodeView};
use crate::layout::iblock;
use crate::layout::{
    BMAPSTART, BSIZE, DIRENT_SIZE, FSSIZE, INODESTART, NDIRECT, NMETA, ROOTINO, T_DIR, T_FILE,
};
use crate::make::{
    add_file, add_files, blank, dot_entry, dotdot_entry, feed, formatted, image_of, law_formatted,
    law_own_entries, link, rounded_up, seal, super_block, FileView,
};
use crate::parts::{
    law_append_in_parts, law_append_keeps_metadata, law_append_keeps_other_inodes,
};
use crate::sound::{
    accounted, addressed, allotted, block_of, byte_at, contents, data_blocks, in_range, in_use,
    law_inode_read_back, live, named, owned_blocks, prefix, slot, sound, unshared,
    vacant, zero_padded,
};
use crate::sound::{MAXBYTES, MAXINODE, NSLOTS};

verus! {

/// Appending in pieces of one block ends as appending everything at once does,
/// and where it succeeds it leaves the very same image.
#[verifier::rlimit(30)]
pub proof fn law_feed_is_append(st: ImageView, inum: int, data: Seq<u8>)
    requires
        sound(st),
        live(st, inum),
    ensures
        feed(st, inum, data).1 == append(st, inum, data).1,
        append(st, inum, data).1 is Ok ==> feed(st, inum, data) == append(st, inum, data),
    decreases data.len(),
{
    reveal(feed);
    if data.len() == 0 {
        lemma_start(st, inum);
        law_append(st, inum, data);
        reveal(sound);
    } else {
        let n = if data.len() < BSIZE {
            data.len() as int
        } else {
            BSIZE as int
        };
        let a = data.take(n);
        let b = data.skip(n);
        assert(a + b =~= data);
        law_append(st, inum, a);
        law_append(st, inum, data);
        let (s1, r) = append(st, inum, a);
        if r is Ok {
            law_append_in_parts(st, inum, a, b);
            law_feed_is_append(s1, inum, b);
        } else {
            let off = inode(st.disk, inum).size as int;
            lemma_outcome_of_longer(st.freeblock, off, n, data.len() as int);
        }
    }
}

/// Appending in pieces of one block, however it ends. The file holds what it held
/// and behind it a first part of the new bytes; its inode differs in its size and
/// addresses alone. Every other file, every other inode, and every block before the
/// data blocks that holds no inode of the file is as before.
#[verifier::rlimit(30)]
pub proof fn law_feed(st: ImageView, inum: int, data: Seq<u8>)
    requires
        sound(st),
        live(st, inum),
    ensures
        ({
            let (st2, r) = feed(st, inum, data);
            let d = inode(st.disk, inum);
            let d2 = inode(st2.disk, inum);
            &&& st2.freeinode == st.freeinode
            &&& st2.disk.len() == st.disk.len()
            &&& d2 == DinodeView { size: d2.size, addrs: d2.addrs, ..d }
            &&& contents(st.disk, inum).is_prefix_of(contents(st2.disk, inum))
            &&& contents(st2.disk, inum).is_prefix_of(contents(st.disk, inum) + data)
            &&& others_kept(st, st2, inum)
            &&& forall|j: int|
                0 <= j < MAXINODE && j != inum ==> #[trigger] inode(st2.disk, j) == inode(
                    st.disk,
                    j,
                )
            &&& forall|q: int|
                0 <= q < NMETA && q != iblock(inum) ==> #[trigger] st2.disk[q] == st.disk[q]
        }),
    decreases data.len(),
{
    reveal(feed);
    if data.len() == 0 {
        assert(others_kept(st, st, inum)) by {
            reveal(others_kept);
        }
    } else {
        let n = if data.len() < BSIZE {
            data.len() as int
        } else {
            BSIZE as int
        };
        let a = data.take(n);
        let b = data.skip(n);
        assert(a + b =~= data);
        law_append(st, inum, a);
        let (s1, r) = append(st, inum, a);
        assert forall|j: int| 0 <= j < MAXINODE && j != inum implies #[trigger] inode(s1.disk, j)
            == inode(st.disk, j) by {
            law_append_keeps_other_inodes(st, inum, a, j);
        }
        assert forall|q: int| 0 <= q < NMETA && q != iblock(inum) implies #[trigger] s1.disk[q]
            == st.disk[q] by {
            law_append_keeps_metadata(st, inum, a, q);
        }
        if r is Ok {
            assert(r->Ok_0 == ());
            let st2 = feed(s1, inum, b).0;
            law_feed(s1, inum, b);
            lemma_kept_twice(st, s1, st2, inum);
            assert(contents(st.disk, inum) + a + b =~= contents(st.disk, inum) + data);
            assert forall|j: int| 0 <= j < MAXINODE && j != inum implies #[trigger] inode(
                st2.disk,
                j,
            ) == inode(st.disk, j) by {
                assert(inode(s1.disk, j) == inode(st.disk, j));
            }
            assert forall|q: int|
                0 <= q < NMETA && q != iblock(inum) implies #[trigger] st2.disk[q]
                == st.disk[q] by {
                assert(s1.disk[q] == st.disk[q]);
            }
        }
    }
}

/// The end of the piece of one block, of `len` bytes in all, that starts at byte `n`.
pub open spec fn next_piece(n: int, len: int) -> int {
    if n + 512 <= len {
        n + 512
    } else {
        len
    }
}

/// Where appending in pieces fails, the file has the pieces before the first one for
/// which there is no room.
#[verifier::rlimit(30)]
pub proof fn law_feed_stops(st: ImageView, inum: int, data: Seq<u8>)
    requires
        sound(st),
        live(st, inum),
        feed(st, inum, data).1 is Err,
    ensures
        ({
            let before = contents(st.disk, inum);
            let after = contents(feed(st, inum, data).0.disk, inum);
            let n = after.len() - before.len();
            &&& 0 <= n < data.len() && n % 512 == 0
            &&& after == before + data.take(n)
            &&& append_outcome(st.freeblock, before.len() as int, n) is Ok
            &&& append_outcome(
                st.freeblock,
                before.len() as int,
                next_piece(n, data.len() as int),
            ) is Err
        }),
    decreases data.len(),
{
    let before = contents(st.disk, inum);
    let size = before.len() as int;
    let n = if data.len() < BSIZE {
        data.len() as int
    } else {
        BSIZE as int
    };
    let b = data.skip(n);
    assert(data.len() > 0) by {
        reveal(feed);
    }
    let s1 = lemma_first_piece(st, inum, data, n);
    if append_outcome(st.freeblock, size, n) is Ok {
        law_feed_stops(s1, inum, b);
        let after = contents(feed(s1, inum, b).0.disk, inum);
        let m = after.len() - contents(s1.disk, inum).len();
        let m2 = next_piece(m, b.len() as int);
        assert(n == 512);
        assert(n + m2 == next_piece(n + m, data.len() as int));
        lemma_outcome_in_parts(st.freeblock, size, n, m);
        lemma_outcome_in_parts(st.freeblock, size, n, m2);
        assert(before + data.take(n) + b.take(m) =~= before + data.take(n + m));
    } else {
        assert(before + data.take(0) =~= before);
        assert(size <= MAXBYTES && st.freeblock <= FSSIZE) by {
            reveal(sound);
        }
    }
}

/// Appending in pieces, up to the first piece: `s1` is the image behind it.
proof fn lemma_first_piece(st: ImageView, inum: int, data: Seq<u8>, n: int) -> (s1: ImageView)
    requires
        sound(st),
        live(st, inum),
        data.len() > 0,
        n == if data.len() < BSIZE {
            data.len() as int
        } else {
            BSIZE as int
        },
    ensures
        ({
            let before = contents(st.disk, inum);
            let size = before.len() as int;
            let ok = append_outcome(st.freeblock, size, n) is Ok;
            &&& ok ==> {
                &&& feed(st, inum, data) == feed(s1, inum, data.skip(n))
                &&& sound(s1)
                &&& live(s1, inum)
                &&& contents(s1.disk, inum) == before + data.take(n)
                &&& s1.freeblock == st.freeblock + owned_blocks(size + n) - owned_blocks(size)
            }
            &&& !ok ==> contents(feed(st, inum, data).0.disk, inum) == before
        }),
{
    reveal(feed);
    law_append(st, inum, data.take(n));
    append(st, inum, data.take(n)).0
}

/// The outcome of an append that goes on behind another one.
proof fn lemma_outcome_in_parts(freeblock: int, size: int, n: int, m: int)
    requires
        0 <= size,
        0 <= n,
        0 <= m,
        append_outcome(freeblock, size, n) is Ok,
    ensures
        append_outcome(
            freeblock + owned_blocks(size + n) - owned_blocks(size),
            size + n,
            m,
        ) == append_outcome(freeblock, size, n + m),
{
}

/// What cannot be appended cannot be appended as the start of something longer.
proof fn lemma_outcome_of_longer(freeblock: int, off: int, n: int, len: int)
    requires
        0 <= off,
        0 <= n <= len,
        append_outcome(freeblock, off, n) is Err,
    ensures
        append_outcome(freeblock, off, len) == append_outcome(freeblock, off, n),
{
    let e1 = if off + n <= MAXBYTES {
        off + n
    } else {
        MAXBYTES as int
    };
    let e2 = if off + len <= MAXBYTES {
        off + len
    } else {
        MAXBYTES as int
    };
    law_owned_blocks_monotonic(e1, e2);
}

/// File `inum` is of the given type, has one link, and holds `data`.
pub open spec fn file_is(disk: Seq<Seq<u8>>, inum: int, f_type: u16, data: Seq<u8>) -> bool {
    let d = inode(disk, inum);
    &&& d == DinodeView { size: d.size, addrs: d.addrs, ..fresh_dinode(f_type) }
    &&& d.size == data.len()
    &&& contents(disk, inum) == data
}

/// The directory entry of a file with inode `inum` and host name `fname`.
pub open spec fn entry(inum: int, fname: Seq<u8>) -> Seq<u8> {
    dirent_bytes(inum as u32 as u16, padded(kept_name(fname)))
}

/// The contents of the root directory: its two own entries, then one for each
/// file, in order. The first file has inode 2.
pub open spec fn listing(files: Seq<FileView>) -> Seq<u8>
    decreases files.len(),
{
    if files.len() == 0 {
        dot_entry() + dotdot_entry()
    } else {
        listing(files.drop_last()) + entry((files.len() + 1) as int, files.last().0)
    }
}

/// The number of blocks that the files own.
pub open spec fn file_blocks(files: Seq<FileView>) -> int
    decreases files.len(),
{
    if files.len() == 0 {
        0
    } else {
        file_blocks(files.drop_last()) + owned_blocks(files.last().1.len() as int)
    }
}

/// The size of the root directory of an image with `n` files, before it is rounded up.
pub open spec fn listing_size(n: int) -> int {
    (n + 2) * DIRENT_SIZE
}

/// The number of blocks that the files and the root directory own.
pub open spec fn blocks_for(files: Seq<FileView>) -> int {
    owned_blocks(listing_size(files.len() as int)) + file_blocks(files)
}

/// The names can be entered in a directory.
pub open spec fn well_named(files: Seq<FileView>) -> bool {
    forall|i: int|
        0 <= i < files.len() ==> (#[trigger] files[i]).0.len() > 0 && !files[i].0.contains(0x2f)
}

/// The files are not larger than a file can be, and all of them fit in the image.
pub open spec fn fitting(files: Seq<FileView>) -> bool {
    &&& forall|i: int| 0 <= i < files.len() ==> (#[trigger] files[i]).1.len() <= MAXBYTES
    &&& NMETA + blocks_for(files) <= FSSIZE
}

/// The blocks before the data blocks, but for the inode table, are those of an empty
/// image.
pub open spec fn premade(disk: Seq<Seq<u8>>) -> bool {
    forall|q: int|
        0 <= q < NMETA && !(INODESTART <= q < BMAPSTART) ==> #[trigger] disk[q] == blank().disk[q]
}

/// The image is sound and holds the root directory, the given files, and no others.
#[verifier::opaque]
pub open spec fn holds(st: ImageView, files: Seq<FileView>) -> bool {
    &&& sound(st)
    &&& st.freeinode == files.len() + 2
    &&& st.freeblock == NMETA + blocks_for(files)
    &&& file_is(st.disk, ROOTINO as int, T_DIR, listing(files))
    &&& forall|i: int|
        0 <= i < files.len() ==> file_is(st.disk, i + 2, T_FILE, (#[trigger] files[i]).1)
    &&& premade(st.disk)
    &&& vacant(st)
}

/// The files, and their entries in the root directory, stand on the disk, whatever
/// else does.
pub open spec fn keeps(disk: Seq<Seq<u8>>, files: Seq<FileView>) -> bool {
    let d = inode(disk, ROOTINO as int);
    &&& disk.len() == FSSIZE
    &&& premade(disk)
    &&& d == DinodeView { size: d.size, addrs: d.addrs, ..fresh_dinode(T_DIR) }
    &&& listing(files).is_prefix_of(contents(disk, ROOTINO as int))
    &&& forall|i: int|
        0 <= i < files.len() ==> file_is(disk, i + 2, T_FILE, (#[trigger] files[i]).1)
}

/// The size of the root directory.
proof fn lemma_listing_len(files: Seq<FileView>)
    ensures
        listing(files).len() == listing_size(files.len() as int),
    decreases files.len(),
{
    if files.len() > 0 {
        lemma_listing_len(files.drop_last());
    }
}

/// The entry of each file stands in the root directory behind the two own entries,
/// in the order of the files, with the inode number of the file and its name.
pub proof fn law_listing_entry(files: Seq<FileView>, k: int)
    requires
        0 <= k < files.len(),
        files.len() + 2 <= MAXINODE,
    ensures
        listing(files).len() == listing_size(files.len() as int),
        ({
            let at = 16 * (k + 2);
            let e = listing(files).subrange(at, at + 16);
            &&& e == entry(k + 2, files[k].0)
            &&& u16_at(e, 0) == k + 2
            &&& e.skip(2) == padded(kept_name(files[k].0))
            &&& listing(files)[at] + 256 * listing(files)[at + 1] == k + 2
            &&& files[k].0.len() > 0 ==> forall|i: int|
                0 <= i < 14 ==> listing(files)[at + 2 + i] == #[trigger] name_byte(files[k].0, i)
        }),
    decreases files.len(),
{
    let at = listing_size(k);
    let init = files.drop_last();
    let e = listing(files).subrange(at, at + DIRENT_SIZE);
    lemma_listing_len(files);
    lemma_listing_len(init);
    if k < init.len() {
        law_listing_entry(init, k);
        assert(e =~= listing(init).subrange(at, at + DIRENT_SIZE));
    } else {
        assert(e =~= entry(k + 2, files[k].0));
        law_u16_read_back(e, 0, (k + 2) as u16);
        assert(e.skip(2) =~= padded(kept_name(files[k].0)));
    }
}

/// What it means that `fname` has been entered in the root directory. Where the
/// directory can be longer by 16 bytes, it is: they hold the inode number, which is
/// the next one, and the name. The file is a regular one with one link and no
/// contents. Otherwise the directory is as it was. Either way the other files are.
pub open spec fn linked(
    st: ImageView,
    fname: Seq<u8>,
    st2: ImageView,
    r: Result<u32, Fault>,
) -> bool {
    let n = st.freeinode;
    let d = inode(st.disk, 1);
    let d2 = inode(st2.disk, 1);
    let f = inode(st2.disk, n);
    let before = contents(st.disk, 1);
    let after = contents(st2.disk, 1);
    &&& r is Ok <==> {
        &&& d.size + 16 <= 140 * 512
        &&& st.freeblock + owned_blocks(d.size + 16) - owned_blocks(d.size as int) <= 2000
    }
    &&& st2.freeinode == n + 1
    &&& others_kept(st, st2, 1)
    &&& r is Ok ==> {
        &&& r->Ok_0 == n
        &&& sound(st2)
        &&& after.len() == before.len() + 16
        &&& before.is_prefix_of(after)
        &&& word16(after, before.len() as int) == n
        &&& forall|i: int|
            0 <= i < 14 ==> after[before.len() + 2 + i] == #[trigger] name_byte(fname, i)
        &&& d2 == DinodeView { size: d2.size, addrs: d2.addrs, ..d }
        &&& f.f_type == 2 && f.nlink == 1 && f.major == 0 && f.minor == 0 && f.size == 0
        &&& contents(st2.disk, n).len() == 0
    }
    &&& r is Err ==> r->Err_0 != Fault::SlashInName && d2 == d && after == before
}

/// Entering a well-named file in the root directory of a sound image, while the
/// inode table has room.
#[verifier::rlimit(30)]
pub proof fn law_link(st: ImageView, fname: Seq<u8>)
    requires
        sound(st),
        live(st, 1),
        st.freeinode < MAXINODE,
        fname.len() > 0,
        !fname.contains(0x2f),
    ensures
        linked(st, fname, link(st, fname).0, link(st, fname).1),
{
    let n = st.freeinode;
    let e = entry(n, fname);
    let s1 = alloc_inode(st, T_FILE).0;
    law_alloc_inode(st, T_FILE);
    law_fresh_dinode(T_FILE);
    assert(inode(s1.disk, 1) == inode(st.disk, 1) && contents(s1.disk, 1) == contents(
        st.disk,
        1,
    )) by {
        reveal(others_kept);
    }
    assert(1 <= n) by {
        reveal(sound);
    }
    law_append(s1, 1, e);
    let (s2, r) = append(s1, 1, e);
    assert(e.len() == 16);
    assert(inode(st.disk, 1).size <= MAXBYTES) by {
        reveal(sound);
    }
    law_owned_blocks_monotonic(inode(st.disk, 1).size as int, MAXBYTES as int);
    assert(inode(s2.disk, n) == inode(s1.disk, n) && contents(s2.disk, n) == contents(
        s1.disk,
        n,
    )) by {
        reveal(others_kept);
        assert(live(s1, n));
    }
    assert(others_kept(st, s2, 1)) by {
        lemma_kept_but_one(st, s1, s2);
    }
    if r is Ok {
        assert(r->Ok_0 == ());
        let before = contents(st.disk, 1);
        let after = contents(s2.disk, 1);
        law_dirent_bytes(n as u16, padded(kept_name(fname)));
        assert(word16(after, before.len() as int) == word16(e, 0));
        assert forall|i: int| 0 <= i < 14 implies after[before.len() + 2 + i]
            == #[trigger] name_byte(fname, i) by {
            law_stored_name(fname, i);
            assert(e.skip(2)[i] == e[i + 2]);
        }
    }
}

/// A new inode, and then a change of the root directory, leave the other files alone.
proof fn lemma_kept_but_one(a: ImageView, b: ImageView, c: ImageView)
    requires
        others_kept(a, b, a.freeinode),
        others_kept(b, c, 1),
    ensures
        others_kept(a, c, 1),
{
    reveal(others_kept);
    assert forall|j: int| live(a, j) && j != 1 implies #[trigger] inode(c.disk, j) == inode(
        a.disk,
        j,
    ) by {
        assert(inode(b.disk, j) == inode(a.disk, j));
    }
    assert forall|j: int| live(a, j) && j != 1 implies #[trigger] contents(c.disk, j) == contents(
        a.disk,
        j,
    ) by {
        assert(contents(b.disk, j) == contents(a.disk, j));
    }
}

/// The root directory starts with its own two entries.
pub proof fn law_listing_start(files: Seq<FileView>)
    ensures
        ({
            let c = listing(files);
            &&& c.len() == 16 * (files.len() + 2)
            &&& word16(c, 0) == 1 && c[2] == 0x2e
            &&& word16(c, 16) == 1 && c[18] == 0x2e && c[19] == 0x2e
            &&& forall|i: int| 3 <= i < 16 || 20 <= i < 32 ==> #[trigger] c[i] == 0
        }),
    decreases files.len(),
{
    if files.len() == 0 {
        law_own_entries();
    } else {
        law_listing_start(files.drop_last());
    }
}

/// How many blocks files own: one for the root directory of an empty image. Each
/// file more adds its own blocks, and those by which its entry lengthens the
/// directory.
pub proof fn law_blocks_for(files: Seq<FileView>, fname: Seq<u8>, data: Seq<u8>)
    ensures
        blocks_for(Seq::empty()) == 1,
        ({
            let n = files.len() as int;
            blocks_for(files.push((fname, data))) - blocks_for(files) == owned_blocks(
                data.len() as int,
            ) + owned_blocks(16 * (n + 3)) - owned_blocks(16 * (n + 2))
        }),
{
    assert(files.push((fname, data)).drop_last() =~= files);
}

/// Entering a file in the root directory.
proof fn lemma_link(st: ImageView, files: Seq<FileView>, fname: Seq<u8>)
    requires
        holds(st, files),
        files.len() + 2 < MAXINODE,
        fname.len() > 0,
        !fname.contains(0x2f),
    ensures
        ({
            let n = files.len() as int;
            let (s2, r) = link(st, fname);
            let more = owned_blocks(listing_size(n + 1)) - owned_blocks(listing_size(n));
            &&& r is Ok <==> st.freeblock + more <= FSSIZE
            &&& r is Ok ==> {
                &&& r->Ok_0 == n + 2
                &&& sound(s2)
                &&& s2.freeinode == n + 3
                &&& s2.freeblock == st.freeblock + more
                &&& file_is(
                    s2.disk,
                    ROOTINO as int,
                    T_DIR,
                    listing(files) + entry(n + 2, fname),
                )
                &&& file_is(s2.disk, n + 2, T_FILE, Seq::empty())
                &&& forall|i: int|
                    0 <= i < n ==> file_is(s2.disk, i + 2, T_FILE, (#[trigger] files[i]).1)
                &&& premade(s2.disk)
                &&& vacant(s2)
            }
            &&& r is Err ==> keeps(s2.disk, files)
        }),
{
    reveal(holds);
    let n = files.len() as int;
    let root = ROOTINO as int;
    let e = entry(n + 2, fname);
    law_alloc_inode(st, T_FILE);
    let s1 = alloc_inode(st, T_FILE).0;
    lemma_listing_len(files);
    assert(file_is(s1.disk, root, T_DIR, listing(files)) && s1.freeinode == n + 3) by {
        reveal(others_kept);
        assert(live(st, root));
        assert(inode(s1.disk, root) == inode(st.disk, root));
        assert(contents(s1.disk, root) == contents(st.disk, root));
    }
    law_append(s1, root, e);
    let (s2, r) = append(s1, root, e);
    assert forall|i: int| 0 <= i < n implies file_is(
        s2.disk,
        i + 2,
        T_FILE,
        (#[trigger] files[i]).1,
    ) by {
        reveal(others_kept);
        assert(live(st, i + 2));
        assert(live(s1, i + 2));
        assert(inode(s2.disk, i + 2) == inode(s1.disk, i + 2));
        assert(contents(s2.disk, i + 2) == contents(s1.disk, i + 2));
    }
    assert forall|q: int| 0 <= q < NMETA && !(INODESTART <= q < BMAPSTART) implies
        #[trigger] s2.disk[q] == blank().disk[q] by {
        law_append_keeps_metadata(s1, root, e, q);
        assert(s1.disk[q] == st.disk[q]);
    }
    if r is Ok {
        assert(r->Ok_0 == ());
        assert(link(st, fname) == (s2, Ok::<u32, Fault>((n + 2) as u32)));
        assert(file_is(s2.disk, n + 2, T_FILE, Seq::empty())) by {
            reveal(others_kept);
            assert(live(s1, n + 2));
            assert(inode(s2.disk, n + 2) == inode(s1.disk, n + 2));
            assert(contents(s2.disk, n + 2) == contents(s1.disk, n + 2));
        }
        assert forall|j: int| 0 <= j < MAXINODE && !live(s2, j) implies #[trigger] inode(s2.disk, j)
            == free_dinode() by {
            law_append_keeps_other_inodes(s1, root, e, j);
            assert(inode(s1.disk, j) == inode(st.disk, j));
            assert(!live(st, j));
        }
    } else {
        assert(link(st, fname).0 == s2);
        reveal(sound);
    }
}

/// Adding a well-named file to an image that holds `files`, while the inode table
/// has room. It succeeds exactly if the file is not too large and there are blocks
/// for it and for its entry; then the image holds that file too. Otherwise the files
/// and their entries are still there.
pub proof fn law_add_file(st: ImageView, files: Seq<FileView>, fname: Seq<u8>, data: Seq<u8>)
    requires
        holds(st, files),
        files.len() + 2 < MAXINODE,
        fname.len() > 0,
        !fname.contains(0x2f),
    ensures
        ({
            let all = files.push((fname, data));
            let (st2, r) = add_file(st, fname, data);
            &&& r is Ok <==> data.len() <= MAXBYTES && NMETA + blocks_for(all) <= FSSIZE
            &&& r is Ok ==> holds(st2, all)
            &&& r is Err ==> keeps(st2.disk, files)
        }),
{
    let n = files.len() as int;
    let all = files.push((fname, data));
    let more = owned_blocks(listing_size(n + 1)) - owned_blocks(listing_size(n));
    assert(all.drop_last() =~= files);
    assert(all.last() == (fname, data));
    assert(st.freeblock == NMETA + blocks_for(files)) by {
        reveal(holds);
    }
    assert(blocks_for(all) == blocks_for(files) + more + owned_blocks(data.len() as int));
    law_owned_blocks_monotonic(0, data.len() as int);
    lemma_link(st, files, fname);
    let (s1, r1) = link(st, fname);
    if r1 is Ok {
        lemma_store(s1, files, fname, data);
    }
}

/// Storing the contents of a file that has just been entered.
proof fn lemma_store(s1: ImageView, files: Seq<FileView>, fname: Seq<u8>, data: Seq<u8>)
    requires
        sound(s1),
        s1.freeinode == files.len() + 3,
        s1.freeblock == NMETA + owned_blocks(listing_size((files.len() + 1) as int)) + file_blocks(
            files,
        ),
        file_is(
            s1.disk,
            ROOTINO as int,
            T_DIR,
            listing(files) + entry((files.len() + 2) as int, fname),
        ),
        file_is(s1.disk, (files.len() + 2) as int, T_FILE, Seq::empty()),
        forall|i: int|
            0 <= i < files.len() ==> file_is(s1.disk, i + 2, T_FILE, (#[trigger] files[i]).1),
        premade(s1.disk),
        vacant(s1),
    ensures
        ({
            let all = files.push((fname, data));
            let (st2, r) = feed(s1, (files.len() + 2) as int, data);
            &&& r is Ok <==> data.len() <= MAXBYTES && NMETA + blocks_for(all) <= FSSIZE
            &&& r is Ok ==> holds(st2, all)
            &&& r is Err ==> keeps(st2.disk, files)
        }),
{
    let n = files.len() as int;
    let all = files.push((fname, data));
    let root = ROOTINO as int;
    let inum = n + 2;
    assert(all.drop_last() =~= files);
    law_feed_is_append(s1, inum, data);
    law_append(s1, inum, data);
    law_feed(s1, inum, data);
    let (st2, r) = feed(s1, inum, data);
    assert(owned_blocks(0) == 0);
    if data.len() > MAXBYTES {
        assert(r is Err);
    }
    assert(file_is(
        st2.disk,
        root,
        T_DIR,
        listing(files) + entry((files.len() + 2) as int, fname),
    )) by {
        reveal(others_kept);
        assert(live(s1, root));
        assert(inode(st2.disk, root) == inode(s1.disk, root));
        assert(contents(st2.disk, root) == contents(s1.disk, root));
    }
    assert forall|i: int| 0 <= i < n implies file_is(
        st2.disk,
        i + 2,
        T_FILE,
        (#[trigger] files[i]).1,
    ) by {
        reveal(others_kept);
        assert(live(s1, i + 2));
        assert(inode(st2.disk, i + 2) == inode(s1.disk, i + 2));
        assert(contents(st2.disk, i + 2) == contents(s1.disk, i + 2));
    }
    assert(premade(st2.disk)) by {
        lemma_table_block(s1, inum);
    }
    if r is Ok {
        assert(file_is(st2.disk, inum, T_FILE, data)) by {
            assert(Seq::<u8>::empty() + data =~= data);
        }
        assert forall|i: int| 0 <= i < all.len() implies file_is(
            st2.disk,
            i + 2,
            T_FILE,
            (#[trigger] all[i]).1,
        ) by {
            if i < n {
                assert(all[i] == files[i]);
            }
        }
        assert forall|j: int| 0 <= j < MAXINODE && !live(st2, j) implies #[trigger] inode(
            st2.disk,
            j,
        ) == free_dinode() by {
            assert(inode(s1.disk, j) == free_dinode());
        }
        reveal(holds);
    } else {
        reveal(sound);
    }
}

/// The inodes of a sound image lie inside the inode table.
#[verifier::rlimit(30)]
proof fn lemma_table_block(st: ImageView, inum: int)
    requires
        sound(st),
        live(st, inum),
    ensures
        INODESTART <= iblock(inum) < BMAPSTART,
{
    reveal(sound);
}

/// A freshly formatted image holds no files.
pub proof fn law_formatted_holds_nothing()
    ensures
        holds(formatted(), Seq::empty()),
{
    law_formatted();
    let none = Seq::<FileView>::empty();
    lemma_listing_len(none);
    let st = formatted();
    assert(file_is(st.disk, ROOTINO as int, T_DIR, listing(none)));
    assert(blocks_for(none) == 1);
    reveal(holds);
}

/// File `k` is the first that does not fit behind those before it.
pub open spec fn overflows_at(files: Seq<FileView>, k: int) -> bool {
    &&& 0 <= k < files.len()
    &&& fitting(files.take(k))
    &&& !fitting(files.take(k + 1))
}

/// Where files fit, so do the first of them. So there is no more than one file that
/// is the first not to fit.
pub proof fn law_first_files_fit(files: Seq<FileView>, k: int)
    requires
        0 <= k <= files.len(),
        fitting(files),
    ensures
        fitting(files.take(k)),
    decreases files.len(),
{
    if k == files.len() {
        assert(files.take(k) =~= files);
    } else {
        let init = files.drop_last();
        let n = init.len() as int;
        law_owned_blocks_monotonic(0, files.last().1.len() as int);
        law_owned_blocks_monotonic(listing_size(n), listing_size(n + 1));
        assert forall|i: int| 0 <= i < init.len() implies (#[trigger] init[i]).1.len()
            <= MAXBYTES by {
            assert(init[i] == files[i]);
        }
        law_first_files_fit(init, k);
        assert(init.take(k) =~= files.take(k));
    }
}

/// Adding well-named files to a formatted image, no more than the inode table has
/// room for. It succeeds exactly if they fit; then the image holds them. Otherwise
/// it stops at the first file that does not fit, and those before it are there.
#[verifier::rlimit(30)]
pub proof fn law_add_files(files: Seq<FileView>)
    requires
        files.len() + 2 <= MAXINODE,
        well_named(files),
    ensures
        ({
            let (st, r) = add_files(formatted(), files);
            &&& r is Ok <==> fitting(files)
            &&& r is Ok ==> holds(st, files)
            &&& r is Err ==> exists|k: int| #[trigger]
                overflows_at(files, k) && keeps(st.disk, files.take(k))
        }),
    decreases files.len(),
{
    if files.len() == 0 {
        law_formatted_holds_nothing();
        assert(files =~= Seq::<FileView>::empty());
        assert(blocks_for(files) == 1);
    } else {
        let init = files.drop_last();
        let last = files.last();
        let n = init.len() as int;
        assert forall|i: int| 0 <= i < init.len() implies (#[trigger] init[i]).0.len() > 0
            && !init[i].0.contains(0x2f) by {
            assert(init[i] == files[i]);
        }
        law_add_files(init);
        let (s1, r1) = add_files(formatted(), init);
        assert(files[n] == last);
        assert(init.push((last.0, last.1)) =~= files);
        assert(files.take(n) =~= init);
        assert(files.take(n + 1) =~= files);
        if fitting(files) {
            law_first_files_fit(files, n);
        }
        if r1 is Ok {
            assert(r1->Ok_0 == ());
            law_add_file(s1, init, last.0, last.1);
            assert forall|i: int|
                0 <= i < files.len() && last.1.len() <= MAXBYTES implies #[trigger] files[i].1.len()
                <= MAXBYTES by {
                if i < n {
                    assert(init[i] == files[i]);
                }
            }
            assert(!fitting(files) ==> overflows_at(files, n));
        } else {
            let k = choose|k: int| #[trigger]
                overflows_at(init, k) && keeps(s1.disk, init.take(k));
            assert(files.take(k) =~= init.take(k));
            assert(files.take(k + 1) =~= init.take(k + 1));
            assert(overflows_at(files, k));
        }
    }
}

/// The blocks of file `inum` hold `data`, and zeroes behind it.
pub open spec fn filled(disk: Seq<Seq<u8>>, inum: int, data: Seq<u8>) -> bool {
    let len = data_blocks(data.len() as int) * BSIZE;
    prefix(disk, inum, len) == data + Seq::new((len - data.len()) as nat, |i: int| 0u8)
}

/// What a finished image looks like: the superblock, an unused boot block and log,
/// a bitmap in which exactly the blocks in use are marked, each file with its
/// contents, and the root directory with its entries, its size rounded up. Behind
/// the last byte of a file its last block is zero; every other inode is free. A file
/// has an address in exactly the slots that its size calls for, the root directory
/// in those that its entries call for. Every address names a data block that is
/// marked, every data block that is marked is named, and none is named twice.
pub open spec fn finished(st: ImageView, files: Seq<FileView>) -> bool {
    let size = listing_size(files.len() as int);
    let d = inode(st.disk, ROOTINO as int);
    &&& st.disk.len() == FSSIZE
    &&& st.disk[1] == super_block()
    &&& forall|q: int|
        0 <= q < INODESTART && q != 1 ==> #[trigger] st.disk[q] == zero_block()
    &&& forall|q: int|
        0 <= q < BITMAP_BITS ==> (#[trigger] marked(st.disk[BMAPSTART as int], q) <==> q < NMETA
            + blocks_for(files))
    &&& d == DinodeView { size: d.size, addrs: d.addrs, ..fresh_dinode(T_DIR) }
    &&& d.size == rounded_up(size)
    &&& d.size % 512 == 0
    &&& 16 * (files.len() + 2) < d.size <= 16 * (files.len() + 2) + 512
    &&& filled(st.disk, ROOTINO as int, listing(files))
    &&& forall|i: int|
        0 <= i < files.len() ==> file_is(st.disk, i + 2, T_FILE, (#[trigger] files[i]).1)
    &&& forall|i: int|
        0 <= i < files.len() ==> filled(st.disk, i + 2, (#[trigger] files[i]).1)
    &&& vacant(st)
    &&& forall|q: int|
        NMETA + blocks_for(files) <= q < FSSIZE ==> #[trigger] st.disk[q] == zero_block()
    &&& st.freeinode == files.len() + 2
    &&& st.freeblock == NMETA + blocks_for(files)
    &&& allotted(st.disk, ROOTINO as int, size)
    &&& forall|i: int|
        0 <= i < files.len() ==> allotted(st.disk, i + 2, (#[trigger] files[i]).1.len() as int)
    &&& in_range(st)
    &&& unshared(st)
    &&& accounted(st)
}

/// A file keeps its bytes as long as its addresses and the data blocks stay.
#[verifier::rlimit(30)]
proof fn lemma_bytes_stay(st: ImageView, disk: Seq<Seq<u8>>, j: int)
    requires
        sound(st),
        live(st, j),
        inode(disk, j).addrs == inode(st.disk, j).addrs,
        forall|q: int| NMETA <= q < FSSIZE ==> #[trigger] disk[q] == st.disk[q],
    ensures
        forall|s: int|
            0 <= s < NSLOTS ==> #[trigger] block_of(disk, j, s) == block_of(st.disk, j, s),
        forall|p: int|
            0 <= p < data_blocks(inode(st.disk, j).size as int) * BSIZE ==> #[trigger] byte_at(
                disk,
                j,
                p,
            ) == byte_at(st.disk, j, p),
{
    reveal(sound);
    let m = st.disk;
    let nd = NDIRECT as int;
    let size = inode(m, j).size as int;
    assert(size <= MAXBYTES);
    let ib = inode(m, j).addrs[nd] as int;
    assert(block_of(m, j, nd) == ib);
    if ib != 0 {
        assert(disk[ib] == m[ib]);
    }
    assert forall|p: int| 0 <= p < data_blocks(size) * BSIZE implies #[trigger] byte_at(disk, j, p)
        == byte_at(m, j, p) by {
        let s = slot(p / (BSIZE as int));
        assert(p / (BSIZE as int) < data_blocks(size));
        assert(0 <= s < NSLOTS);
        assert(in_use(size, s));
        assert(block_of(m, j, s) != 0);
        assert(block_of(disk, j, s) == block_of(m, j, s));
        assert(NMETA <= block_of(m, j, s) < FSSIZE);
    }
}

/// A file of a sound image fills its blocks with its bytes and zeroes, also on a disk
/// that has kept its addresses and the data blocks.
#[verifier::rlimit(30)]
proof fn lemma_filled(st: ImageView, disk: Seq<Seq<u8>>, j: int, data: Seq<u8>)
    requires
        sound(st),
        live(st, j),
        contents(st.disk, j) == data,
        inode(disk, j).addrs == inode(st.disk, j).addrs,
        forall|q: int| NMETA <= q < FSSIZE ==> #[trigger] disk[q] == st.disk[q],
    ensures
        filled(disk, j, data),
{
    let m = st.disk;
    let size = inode(m, j).size as int;
    let len = data_blocks(size) * BSIZE;
    assert(data.len() == size);
    lemma_bytes_stay(st, disk, j);
    assert forall|p: int| 0 <= p < len implies #[trigger] byte_at(disk, j, p) == if p < size {
        data[p]
    } else {
        0
    } by {
        assert(byte_at(disk, j, p) == byte_at(m, j, p));
        if p < size {
            assert(contents(m, j)[p] == data[p]);
        } else {
            reveal(sound);
        }
    }
    assert(prefix(disk, j, len) =~= data + Seq::new((len - data.len()) as nat, |i: int| 0u8));
}

/// The disk after rounding up the root directory and writing the bitmap.
spec fn sealed_disk(st: ImageView) -> Seq<Seq<u8>> {
    let din = inode(st.disk, ROOTINO as int);
    write_inode(
        st.disk,
        ROOTINO as int,
        with_size(din, rounded_up(din.size as int) as u32),
    ).update(BMAPSTART as int, bitmap(st.freeblock))
}

/// Sealing an image that holds files succeeds and writes two blocks.
#[verifier::rlimit(30)]
proof fn lemma_seal(st: ImageView, files: Seq<FileView>)
    requires
        holds(st, files),
    ensures
        seal(st) == (ImageView { disk: sealed_disk(st), ..st }, Ok::<(), Fault>(())),
        ({
            let m = st.disk;
            let m2 = sealed_disk(st);
            let d = inode(m, ROOTINO as int);
            &&& st.freeinode <= MAXINODE
            &&& d.size == listing_size(files.len() as int)
            &&& d.size <= MAXBYTES
            &&& m2.len() == FSSIZE
            &&& m2[BMAPSTART as int] == bitmap(st.freeblock)
            &&& inode(m2, ROOTINO as int) == with_size(d, rounded_up(d.size as int) as u32)
            &&& forall|j: int|
                0 <= j < MAXINODE && j != ROOTINO ==> #[trigger] inode(m2, j) == inode(m, j)
            &&& forall|q: int|
                0 <= q < FSSIZE && q != INODESTART && q != BMAPSTART ==> #[trigger] m2[q] == m[q]
        }),
{
    reveal(holds);
    reveal(sound);
    let root = ROOTINO as int;
    let m = st.disk;
    let d = inode(m, root);
    let d2 = with_size(d, rounded_up(d.size as int) as u32);
    let m1 = write_inode(m, root, d2);
    let m2 = sealed_disk(st);
    assert(iblock(root) == INODESTART);
    assert(live(st, root));
    lemma_listing_len(files);
    law_inode_read_back(m, root, d2, root);
    assert(d.size <= MAXBYTES);
    assert(m2 =~= write_sector(m1, BMAPSTART as int, bitmap(st.freeblock)));
    assert forall|j: int| 0 <= j < MAXINODE && j != ROOTINO implies #[trigger] inode(m2, j)
        == inode(m, j) by {
        law_inode_read_back(m, root, d2, j);
        assert(iblock(j) < BMAPSTART);
    }
}

/// Building an image of well-named files, no more than the inode table has room
/// for. It succeeds exactly if they fit, and then the image is what it should be.
/// Otherwise the files before the first that does not fit are there.
pub proof fn law_image(files: Seq<FileView>)
    requires
        files.len() + 2 <= MAXINODE,
        well_named(files),
    ensures
        ({
            let (st, r) = image_of(files);
            &&& r is Ok <==> fitting(files)
            &&& r is Ok ==> finished(st, files)
            &&& r is Err ==> exists|k: int| #[trigger]
                overflows_at(files, k) && keeps(st.disk, files.take(k))
        }),
{
    law_add_files(files);
    let (st, r) = add_files(formatted(), files);
    if r is Ok {
        assert(r->Ok_0 == ());
        law_seal(st, files);
    }
}

/// Sealing leaves every file its blocks.
#[verifier::rlimit(30)]
proof fn lemma_sealed_blocks(st: ImageView, files: Seq<FileView>)
    requires
        holds(st, files),
    ensures
        in_range(seal(st).0),
        unshared(seal(st).0),
        accounted(seal(st).0),
        forall|i: int, s: int|
            live(st, i) && 0 <= s < NSLOTS ==> #[trigger] block_of(seal(st).0.disk, i, s)
                == block_of(st.disk, i, s),
{
    lemma_seal(st, files);
    let st2 = seal(st).0;
    let m = st.disk;
    let m2 = st2.disk;
    assert(sound(st)) by {
        reveal(holds);
    }
    assert(in_range(st) && unshared(st) && accounted(st)) by {
        reveal(sound);
    }
    assert forall|j: int, s: int| live(st, j) && 0 <= s < NSLOTS implies #[trigger] block_of(
        m2,
        j,
        s,
    ) == block_of(m, j, s) by {
        if j != ROOTINO {
            assert(inode(m2, j) == inode(m, j));
        }
        lemma_bytes_stay(st, m2, j);
    }
    assert forall|i: int, s: int|
        live(st2, i) && 0 <= s < NSLOTS && #[trigger] block_of(m2, i, s) != 0 implies NMETA
        <= block_of(m2, i, s) < st2.freeblock by {
        assert(live(st, i));
        assert(block_of(m2, i, s) == block_of(m, i, s));
    }
    assert forall|i: int, s: int, j: int, t: int|
        live(st2, i) && live(st2, j) && 0 <= s < NSLOTS && 0 <= t < NSLOTS && #[trigger] block_of(
            m2,
            i,
            s,
        ) != 0 && block_of(m2, i, s) == #[trigger] block_of(m2, j, t) implies i == j && s == t by {
        assert(live(st, i) && live(st, j));
        assert(block_of(m2, i, s) == block_of(m, i, s));
        assert(block_of(m2, j, t) == block_of(m, j, t));
    }
    assert forall|q: int| NMETA <= q < st2.freeblock implies #[trigger] named(st2, q) by {
        assert(named(st, q));
        let (i, s) = choose|i: int, s: int|
            live(st, i) && 0 <= s < NSLOTS && #[trigger] block_of(m, i, s) == q;
        assert(live(st2, i));
        assert(block_of(m2, i, s) == q);
    }
}

/// Sealing leaves file `j` the slots that its size called for.
proof fn lemma_sealed_slots(st: ImageView, files: Seq<FileView>, j: int)
    requires
        holds(st, files),
        live(st, j),
    ensures
        allotted(sealed_disk(st), j, inode(st.disk, j).size as int),
{
    let m = st.disk;
    let m2 = sealed_disk(st);
    lemma_seal(st, files);
    lemma_sealed_blocks(st, files);
    assert forall|s: int| 0 <= s < NSLOTS implies (#[trigger] block_of(m2, j, s) != 0 <==> in_use(
        inode(m, j).size as int,
        s,
    )) by {
        assert(block_of(seal(st).0.disk, j, s) == block_of(m, j, s));
        reveal(holds);
        reveal(sound);
    }
}

/// Sealing an image that holds `files` succeeds, and finishes it.
#[verifier::rlimit(30)]
pub proof fn law_seal(st: ImageView, files: Seq<FileView>)
    requires
        holds(st, files),
    ensures
        seal(st).1 is Ok,
        finished(seal(st).0, files),
{
    lemma_seal(st, files);
    lemma_sealed_blocks(st, files);
    let root = ROOTINO as int;
    let m = st.disk;
    let m2 = sealed_disk(st);
    let size = listing_size(files.len() as int);
    assert(sound(st) && live(st, root) && file_is(m, root, T_DIR, listing(files)) && st.freeinode
        == files.len() + 2 && st.freeblock == NMETA + blocks_for(files)) by {
        reveal(holds);
    }
    assert(m2[1] == super_block() && forall|q: int|
        0 <= q < INODESTART && q != 1 ==> #[trigger] m2[q] == zero_block()) by {
        reveal(holds);
        assert forall|q: int| 0 <= q < INODESTART implies #[trigger] m2[q] == blank().disk[q] by {
            assert(m2[q] == m[q]);
        }
        assert(m2[1] == blank().disk[1]);
    }
    assert forall|q: int| 0 <= q < BITMAP_BITS implies (#[trigger] marked(m2[BMAPSTART as int], q)
        <==> q < NMETA + blocks_for(files)) by {
        law_bitmap_marks_exactly_the_used(st.freeblock, q);
    }
    assert forall|q: int| NMETA + blocks_for(files) <= q < FSSIZE implies #[trigger] m2[q]
        == zero_block() by {
        reveal(sound);
        assert(m2[q] == m[q]);
    }
    assert(allotted(m2, root, size)) by {
        lemma_sealed_slots(st, files, root);
        lemma_listing_len(files);
    }
    assert(filled(m2, root, listing(files))) by {
        lemma_listing_len(files);
        lemma_filled(st, m2, root, listing(files));
    }
    assert(vacant(seal(st).0)) by {
        reveal(holds);
        assert forall|j: int| 0 <= j < MAXINODE && !live(st, j) implies #[trigger] inode(m2, j)
            == free_dinode() by {
            assert(inode(m, j) == free_dinode());
        }
    }
    assert forall|i: int| 0 <= i < files.len() implies file_is(
        m2,
        i + 2,
        T_FILE,
        (#[trigger] files[i]).1,
    ) by {
        assert(file_is(m, i + 2, T_FILE, files[i].1)) by {
            reveal(holds);
        }
        assert(live(st, i + 2));
        assert(inode(m2, i + 2) == inode(m, i + 2));
        lemma_bytes_stay(st, m2, i + 2);
        assert(contents(m2, i + 2) =~= contents(m, i + 2));
    }
    assert forall|i: int| 0 <= i < files.len() implies filled(
        m2,
        i + 2,
        (#[trigger] files[i]).1,
    ) by {
        assert(file_is(m, i + 2, T_FILE, files[i].1)) by {
            reveal(holds);
        }
        assert(live(st, i + 2));
        assert(inode(m2, i + 2) == inode(m, i + 2));
        lemma_filled(st, m2, i + 2, files[i].1);
    }
    assert forall|i: int| 0 <= i < files.len() implies allotted(
        m2,
        i + 2,
        (#[trigger] files[i]).1.len() as int,
    ) by {
        assert(file_is(m2, i + 2, T_FILE, files[i].1));
        assert(live(st, i + 2));
        assert(inode(m2, i + 2) == inode(m, i + 2));
        lemma_sealed_slots(st, files, i + 2);
    }
}

/// Appending to an inode that has not been handed out yet does what appending to an
/// empty file does.
#[verifier::rlimit(30)]
pub proof fn law_append_to_free_inode(st: ImageView, inum: int, data: Seq<u8>)
    requires
        sound(st),
        vacant(st),
        st.freeinode <= inum < MAXINODE,
    ensures
        ({
            let (st2, r) = append(st, inum, data);
            &&& r == append_outcome(st.freeblock, 0, data.len() as int)
            &&& r is Ok ==> contents(st2.disk, inum) == data
            &&& r is Err ==> contents(st2.disk, inum).len() == 0
            &&& others_kept(st, st2, inum)
            &&& st2.freeinode == st.freeinode
        }),
{
    let all = ImageView { freeinode: MAXINODE as int, ..st };
    lemma_free_inodes_are_sound(st);
    assert(1 <= inum && inode(st.disk, inum) == free_dinode()) by {
        reveal(sound);
    }
    assert(live(all, inum));
    law_append(all, inum, data);
    let (st2, r) = append(st, inum, data);
    let (all2, r2) = append(all, inum, data);
    assert(all2 == ImageView { freeinode: MAXINODE as int, ..st2 } && r2 == r);
    assert(contents(st.disk, inum) =~= Seq::<u8>::empty());
    assert(Seq::<u8>::empty() + data =~= data);
    assert(others_kept(st, st2, inum)) by {
        reveal(others_kept);
        reveal(sound);
        assert forall|j: int| live(st, j) && j != inum implies #[trigger] inode(st2.disk, j)
            == inode(st.disk, j) by {
            assert(live(all, j));
        }
        assert forall|j: int| live(st, j) && j != inum implies #[trigger] contents(st2.disk, j)
            == contents(st.disk, j) by {
            assert(live(all, j));
        }
    }
}

/// Free inodes are those of empty files.
#[verifier::rlimit(30)]
proof fn lemma_free_inodes_are_sound(st: ImageView)
    requires
        sound(st),
        vacant(st),
    ensures
        sound(ImageView { freeinode: MAXINODE as int, ..st }),
{
    reveal(sound);
    let all = ImageView { freeinode: MAXINODE as int, ..st };
    let m = st.disk;
    assert forall|i: int| live(all, i) implies live(st, i) || #[trigger] inode(m, i)
        == free_dinode() by {}
    assert forall|i: int, s: int| live(all, i) && !live(st, i) && 0 <= s < NSLOTS implies
        #[trigger] block_of(m, i, s) == 0 by {
        assert(inode(m, i) == free_dinode());
    }
    assert(addressed(all)) by {
        assert forall|i: int| live(all, i) implies (#[trigger] inode(m, i)).size <= MAXBYTES by {
            if live(st, i) {
            } else {
                assert(inode(m, i) == free_dinode());
            }
        }
        assert forall|i: int, s: int| live(all, i) && 0 <= s < NSLOTS implies (#[trigger] block_of(
            m,
            i,
            s,
        ) != 0 <==> in_use(inode(m, i).size as int, s)) by {
            if live(st, i) {
            } else {
                assert(inode(m, i) == free_dinode());
            }
        }
    }
    assert(in_range(all) && unshared(all));
    assert(zero_padded(all)) by {
        assert forall|i: int, p: int|
            live(all, i) && inode(m, i).size <= p < data_blocks(inode(m, i).size as int)
                * BSIZE implies #[trigger] byte_at(m, i, p) == 0 by {
            if !live(st, i) {
                assert(inode(m, i) == free_dinode());
            }
        }
    }
    assert forall|q: int| NMETA <= q < all.freeblock implies #[trigger] named(all, q) by {
        assert(named(st, q));
        let (i, s) = choose|i: int, s: int|
            live(st, i) && 0 <= s < NSLOTS && #[trigger] block_of(m, i, s) == q;
        assert(live(all, i));
        assert(block_of(all.disk, i, s) == q);
    }
}

} // verus!
