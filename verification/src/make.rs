//! Building a whole image: the empty file system, the files, the final touches.

use vstd::prelude::*;
use vstd::slice::slice_subrange;
use crate::bytes::{law_read_value, law_u32_read_back, le32, put32, splice, u32_at};
use crate::bytes::{word16, word32, xu16, xu32};
use crate::dirent::{
    dirent_bytes, entry_name, kept_name, law_dirent_bytes, law_stored_name, name_byte, padded,
    Dirent,
};
use crate::image::{
    alloc_inode, append, bitmap, inode, law_bitmap_marks_exactly_the_used, law_inode_bytes,
    mark_used, readable, with_size, write_inode, zero_block,
};
use crate::image::{Fault, Image, ImageView};
use crate::append::{law_append, others_kept};
use crate::create::law_alloc_inode;
use crate::inode::{
    dinode_bytes, free_dinode, fresh_dinode, law_dinode_fields, law_dinode_len,
    law_dinode_write_back, law_fresh_dinode, Dinode, DinodeView,
};
use crate::parts::{law_append_keeps_metadata, law_append_keeps_other_inodes};
use crate::sound::{contents, live, owned_blocks, sound, vacant, MAXBYTES, MAXINODE};
use crate::complete::{
    blocks_for, finished, fitting, holds, keeps, law_add_file, law_feed, law_feed_is_append,
    law_formatted_holds_nothing, law_image, law_link, law_seal, linked, overflows_at, well_named,
};
use crate::layout::{iblock, ioffset, law_records_fit_blocks, Superblock};
use crate::layout::{
    BLOCK, BMAPSTART, BSIZE, DIRENT_SIZE, DIRSIZ, FSSIZE, INODESTART, LOGSTART, NBLOCKS, NINODES,
    NLOG, NMETA, ROOTINO, T_DIR, T_FILE,
};

verus! {

/// The superblock that describes the layout.
pub open spec fn layout_superblock() -> Superblock {
    Superblock {
        size: FSSIZE,
        nblocks: NBLOCKS,
        ninodes: NINODES,
        nlog: NLOG,
        logstart: LOGSTART,
        inodestart: INODESTART,
        bmapstart: BMAPSTART,
    }
}

/// The bytes of a superblock.
pub open spec fn superblock_bytes(sb: Superblock) -> Seq<u8> {
    le32(sb.size) + le32(sb.nblocks) + le32(sb.ninodes) + le32(sb.nlog) + le32(sb.logstart) + le32(
        sb.inodestart,
    ) + le32(sb.bmapstart)
}

/// The block that holds the superblock.
pub open spec fn super_block() -> Seq<u8> {
    splice(zero_block(), 0, superblock_bytes(layout_superblock()))
}

/// The image of zeroes with its superblock, before any inode is taken.
pub open spec fn blank() -> ImageView {
    ImageView {
        disk: Seq::new(
            FSSIZE as nat,
            |i: int|
                if i == 1 {
                    super_block()
                } else {
                    zero_block()
                },
        ),
        freeinode: 1,
        freeblock: NMETA as int,
    }
}

/// The directory entry of the root directory for itself.
pub open spec fn dot_entry() -> Seq<u8> {
    dirent_bytes(ROOTINO as u16, padded(seq![0x2eu8]))
}

/// The directory entry of the root directory for its parent, which it is itself.
pub open spec fn dotdot_entry() -> Seq<u8> {
    dirent_bytes(ROOTINO as u16, padded(seq![0x2eu8, 0x2eu8]))
}

/// The image with an empty root directory.
pub open spec fn formatted() -> ImageView {
    let s1 = alloc_inode(blank(), T_DIR).0;
    let s2 = append(s1, ROOTINO as int, dot_entry()).0;
    append(s2, ROOTINO as int, dotdot_entry()).0
}

/// Taking an inode for a file and entering its name in the root directory.
pub open spec fn link(st: ImageView, fname: Seq<u8>) -> (ImageView, Result<u32, Fault>) {
    if fname.contains(0x2f) {
        (st, Err(Fault::SlashInName))
    } else if fname.len() == 0 {
        (st, Err(Fault::EmptyName))
    } else {
        match alloc_inode(st, T_FILE) {
            (s1, Err(e)) => (s1, Err(e)),
            (s1, Ok(inum)) => match append(
                s1,
                ROOTINO as int,
                dirent_bytes(inum as u16, padded(kept_name(fname))),
            ) {
                (s2, Err(e)) => (s2, Err(e)),
                (s2, Ok(())) => (s2, Ok(inum)),
            },
        }
    }
}

/// Appending `data` in pieces of one block.
#[verifier::opaque]
pub open spec fn feed(st: ImageView, inum: int, data: Seq<u8>) -> (ImageView, Result<(), Fault>)
    decreases data.len(),
{
    let n = if data.len() < BSIZE {
        data.len() as int
    } else {
        BSIZE as int
    };
    if data.len() == 0 {
        (st, Ok(()))
    } else {
        match append(st, inum, data.take(n)) {
            (s1, Err(e)) => (s1, Err(e)),
            (s1, Ok(())) => feed(s1, inum, data.skip(n)),
        }
    }
}

/// Entering a file in the root directory and storing its contents.
pub open spec fn add_file(st: ImageView, fname: Seq<u8>, data: Seq<u8>) -> (
    ImageView,
    Result<(), Fault>,
) {
    match link(st, fname) {
        (s1, Err(e)) => (s1, Err(e)),
        (s1, Ok(inum)) => feed(s1, inum as int, data),
    }
}

/// A file to be stored: its name on the host, and its contents.
pub type FileView = (Seq<u8>, Seq<u8>);

/// Adding files one after the other, up to the first that cannot be added.
pub open spec fn add_files(st: ImageView, files: Seq<FileView>) -> (ImageView, Result<(), Fault>)
    decreases files.len(),
{
    if files.len() == 0 {
        (st, Ok(()))
    } else {
        match add_files(st, files.drop_last()) {
            (s1, Err(e)) => (s1, Err(e)),
            (s1, Ok(())) => add_file(s1, files.last().0, files.last().1),
        }
    }
}

/// The size that the root directory is given at the end: up to the block
/// boundary behind its last byte.
pub open spec fn rounded_up(size: int) -> int {
    (size / (BSIZE as int) + 1) * BSIZE
}

/// Rounding up the size of the root directory and marking the used blocks.
pub open spec fn seal(st: ImageView) -> (ImageView, Result<(), Fault>) {
    let din = inode(st.disk, ROOTINO as int);
    if !readable(st.disk, iblock(ROOTINO as int)) {
        (st, Err(Fault::BadSector))
    } else if rounded_up(din.size as int) > u32::MAX {
        (st, Err(Fault::Overflow))
    } else {
        mark_used(
            ImageView {
                disk: write_inode(
                    st.disk,
                    ROOTINO as int,
                    with_size(din, rounded_up(din.size as int) as u32),
                ),
                ..st
            },
            st.freeblock,
        )
    }
}

/// The image that holds the given files, or the image at the point of failure.
pub open spec fn image_of(files: Seq<FileView>) -> (ImageView, Result<(), Fault>) {
    match add_files(formatted(), files) {
        (s1, Err(e)) => (s1, Err(e)),
        (s1, Ok(())) => seal(s1),
    }
}

/// A file to be stored in an image.
#[derive(Debug)]
pub struct HostFile {
    /// The name of the file on the host.
    pub name: Vec<u8>,
    /// The contents of the file.
    pub data: Vec<u8>,
}

impl View for HostFile {
    type V = FileView;

    open spec fn view(&self) -> FileView {
        (self.name@, self.data@)
    }
}

/// The files of a list.
pub open spec fn files_view(files: Seq<HostFile>) -> Seq<FileView> {
    Seq::new(files.len(), |i: int| files[i]@)
}

/// The fields of the superblock are read back from its block.
pub proof fn law_superblock_read_back()
    ensures
        super_block().len() == BLOCK,
        u32_at(super_block(), 0) == FSSIZE,
        u32_at(super_block(), 4) == NBLOCKS,
        u32_at(super_block(), 8) == NINODES,
        u32_at(super_block(), 12) == NLOG,
        u32_at(super_block(), 16) == LOGSTART,
        u32_at(super_block(), 20) == INODESTART,
        u32_at(super_block(), 24) == BMAPSTART,
        word32(super_block(), 0) == 2000,
        word32(super_block(), 4) == 1941,
        word32(super_block(), 8) == 200,
        word32(super_block(), 12) == 30,
        word32(super_block(), 16) == 2,
        word32(super_block(), 20) == 32,
        word32(super_block(), 24) == 58,
        forall|i: int| 28 <= i < 512 ==> #[trigger] super_block()[i] == 0,
{
    let b = super_block();
    let sb = layout_superblock();
    let e = superblock_bytes(sb);
    assert(forall|i: int| 0 <= i < 28 ==> b[i] == e[i]);
    law_u32_read_back(b, 0, sb.size);
    law_u32_read_back(b, 4, sb.nblocks);
    law_u32_read_back(b, 8, sb.ninodes);
    law_u32_read_back(b, 12, sb.nlog);
    law_u32_read_back(b, 16, sb.logstart);
    law_u32_read_back(b, 20, sb.inodestart);
    law_u32_read_back(b, 24, sb.bmapstart);
    law_read_value(b, 0);
    law_read_value(b, 4);
    law_read_value(b, 8);
    law_read_value(b, 12);
    law_read_value(b, 16);
    law_read_value(b, 20);
    law_read_value(b, 24);
}

/// The image before any inode is taken has 2000 blocks. The superblock is the second
/// of them; every byte of the others is zero. Inodes are numbered from 1 on, and the
/// first free block is block 59.
pub proof fn law_blank()
    ensures
        blank().disk.len() == 2000,
        blank().disk[1] == super_block(),
        forall|q: int| 0 <= q < 2000 ==> #[trigger] blank().disk[q].len() == 512,
        forall|q: int, i: int|
            0 <= q < 2000 && q != 1 && 0 <= i < 512 ==> #[trigger] blank().disk[q][i] == 0,
        blank().freeinode == 1,
        blank().freeblock == 59,
{
}

/// The own entries of the root directory: 16 bytes each, which hold inode number 1
/// and the name, one dot and two.
pub proof fn law_own_entries()
    ensures
        dot_entry().len() == 16,
        word16(dot_entry(), 0) == 1,
        dot_entry()[2] == 0x2e,
        forall|i: int| 3 <= i < 16 ==> #[trigger] dot_entry()[i] == 0,
        dotdot_entry().len() == 16,
        word16(dotdot_entry(), 0) == 1,
        dotdot_entry()[2] == 0x2e && dotdot_entry()[3] == 0x2e,
        forall|i: int| 4 <= i < 16 ==> #[trigger] dotdot_entry()[i] == 0,
{
}

/// A size is rounded up to the next multiple of the block size that is larger.
pub proof fn law_rounded_up(size: int)
    requires
        0 <= size,
    ensures
        rounded_up(size) % 512 == 0,
        size < rounded_up(size) <= size + 512,
{
}

/// What sealing does to the bytes of an image. Bytes 72 to 75 of block 32 hold the
/// size of the root directory: it becomes the next larger multiple of 512. In block
/// 58 the bits of the blocks below the next free one are set, and no others. Nothing
/// else changes. It fails where there is no root inode, or where the new size has no
/// room in four bytes or the blocks in use none in the bitmap.
#[verifier::rlimit(30)]
pub proof fn law_seal_bytes(st: ImageView)
    requires
        forall|q: int| 0 <= q < st.disk.len() ==> #[trigger] st.disk[q].len() == 512,
    ensures
        ({
            let (st2, r) = seal(st);
            let size = word32(st.disk[32], 72);
            let size2 = word32(st2.disk[32], 72);
            &&& r is Ok <==> {
                &&& st.disk.len() > 32
                &&& size - size % 512 + 512 <= u32::MAX
                &&& st.freeblock < 4096
            }
            &&& r is Ok ==> {
                &&& size2 % 512 == 0
                &&& size < size2 <= size + 512
                &&& st2.disk[58].len() == 512
                &&& forall|k: int, m: u8|
                    0 <= k < 512 && m < 8 ==> (#[trigger] st2.disk[58][k] & #[trigger] (1u8 << m)
                        != 0 <==> 8 * k + m < st.freeblock)
                &&& forall|q: int, i: int|
                    0 <= q < st.disk.len() && q != 58 && 0 <= i < 512 && !(q == 32 && 72 <= i < 76)
                        ==> #[trigger] st2.disk[q][i] == st.disk[q][i]
                &&& st.disk.len() > 58 ==> st2.disk.len() == st.disk.len()
                &&& st2.freeinode == st.freeinode
                &&& st2.freeblock == st.freeblock
            }
            &&& r is Err ==> r->Err_0 == if st.disk.len() <= 32 {
                Fault::BadSector
            } else if size - size % 512 + 512 > u32::MAX {
                Fault::Overflow
            } else {
                Fault::BitmapTooSmall
            }
            &&& r is Err && r->Err_0 != Fault::BitmapTooSmall ==> st2 == st
        }),
{
    let (st2, r) = seal(st);
    let d = inode(st.disk, 1);
    let b = st.disk[32];
    assert(iblock(1) == 32 && ioffset(1) == 64);
    law_dinode_fields(b, 64);
    law_rounded_up(d.size as int);
    if r is Ok {
        let d2 = with_size(d, rounded_up(d.size as int) as u32);
        let m1 = write_inode(st.disk, 1, d2);
        law_inode_bytes(st.disk, 1, d2);
        law_dinode_len(d);
        law_dinode_len(d2);
        law_dinode_write_back(b, 64);
        let e = dinode_bytes(d);
        let e2 = dinode_bytes(d2);
        assert forall|i: int| 0 <= i < 64 && !(8 <= i < 12) implies e2[i] == e[i] by {}
        assert forall|i: int| 0 <= i < 512 && !(72 <= i < 76) implies #[trigger] m1[32][i]
            == b[i] by {
            assert(splice(b, 64, e)[i] == b[i]);
        }
        assert(st2.disk[32] == m1[32]);
        assert(st2.disk[58] == bitmap(st.freeblock));
        assert forall|k: int, m: u8| 0 <= k < 512 && m < 8 implies (#[trigger] st2.disk[58][k]
            & #[trigger] (1u8 << m) != 0 <==> 8 * k + m < st.freeblock) by {
            law_bitmap_marks_exactly_the_used(st.freeblock, 8 * k + m);
            assert((8 * k + m) / 8 == k && (8 * k + m) % 8 == m);
        }
        assert forall|q: int, i: int|
            0 <= q < st.disk.len() && q != 58 && 0 <= i < 512 && !(q == 32 && 72 <= i
                < 76) implies #[trigger] st2.disk[q][i] == st.disk[q][i] by {
            assert(st2.disk[q] == m1[q]);
        }
    }
}

/// A name with a slash is refused, whatever its length, and so is an empty name; the
/// image stays as it is.
pub proof fn law_bad_name_refused(st: ImageView, fname: Seq<u8>, data: Seq<u8>)
    ensures
        (exists|i: int| 0 <= i < fname.len() && fname[i] == 0x2f) ==> {
            &&& link(st, fname) == (st, Err::<u32, Fault>(Fault::SlashInName))
            &&& add_file(st, fname, data) == (st, Err::<(), Fault>(Fault::SlashInName))
        },
        fname.len() == 0 ==> {
            &&& link(st, fname) == (st, Err::<u32, Fault>(Fault::EmptyName))
            &&& add_file(st, fname, data) == (st, Err::<(), Fault>(Fault::EmptyName))
        },
{
    if exists|i: int| 0 <= i < fname.len() && fname[i] == 0x2f {
        let i = choose|i: int| 0 <= i < fname.len() && fname[i] == 0x2f;
        assert(fname.contains(fname[i]));
    }
}

/// Adding files one by one: those before the last, then the last, if there is no
/// fault among those before it. An image is made of files by adding them to a
/// formatted image and sealing it.
pub proof fn law_files_in_turn(st: ImageView, files: Seq<FileView>, fname: Seq<u8>, data: Seq<u8>)
    ensures
        add_files(st, Seq::empty()) == (st, Ok::<(), Fault>(())),
        ({
            let (s1, r1) = add_files(st, files);
            let next = add_files(st, files.push((fname, data)));
            &&& r1 is Ok ==> next == add_file(s1, fname, data)
            &&& r1 is Err ==> next == (s1, r1)
        }),
        ({
            let (s1, r1) = add_files(formatted(), files);
            &&& r1 is Ok ==> image_of(files) == seal(s1)
            &&& r1 is Err ==> image_of(files) == (s1, r1)
        }),
{
    assert(files.push((fname, data)).drop_last() =~= files);
    let r1 = add_files(st, files).1;
    let r2 = add_files(formatted(), files).1;
    if r1 is Ok {
        assert(r1->Ok_0 == ());
    }
    if r2 is Ok {
        assert(r2->Ok_0 == ());
    }
}

/// Entering a file takes the next inode, as one of a regular file, and appends to the
/// root directory an entry of 16 bytes: the inode number and the name.
pub proof fn law_link_appends_entry(st: ImageView, fname: Seq<u8>, e: Seq<u8>)
    requires
        fname.len() > 0,
        !fname.contains(0x2f),
        alloc_inode(st, 2).1 is Ok,
        st.freeinode < 65536,
        e.len() == 16,
        word16(e, 0) == st.freeinode,
        forall|i: int| 0 <= i < 14 ==> e[i + 2] == #[trigger] name_byte(fname, i),
    ensures
        ({
            let s1 = alloc_inode(st, 2).0;
            let (s2, r) = append(s1, 1, e);
            &&& link(st, fname).0 == s2
            &&& r is Ok ==> link(st, fname).1 == Ok::<u32, Fault>(alloc_inode(st, 2).1->Ok_0)
            &&& r is Err ==> link(st, fname).1 == Err::<u32, Fault>(r->Err_0)
        }),
{
    let inum = alloc_inode(st, 2).1->Ok_0;
    let want = dirent_bytes(inum as u16, padded(kept_name(fname)));
    law_dirent_bytes(inum as u16, padded(kept_name(fname)));
    assert(inum == st.freeinode);
    assert(e[0] == want[0] && e[1] == want[1]);
    assert forall|i: int| 2 <= i < 16 implies e[i] == want[i] by {
        law_stored_name(fname, i - 2);
        assert(e[(i - 2) + 2] == name_byte(fname, i - 2));
        assert(want.skip(2)[i - 2] == want[i]);
    }
    assert(e =~= want);
    let r = append(alloc_inode(st, 2).0, 1, e).1;
    if r is Ok {
        assert(r->Ok_0 == ());
    }
}

/// A list with a name that holds a slash makes no image. If the files before that
/// name can be added, their image is what is left, with that fault.
pub proof fn law_slash_stops_build(files: Seq<FileView>, k: int, i: int)
    requires
        0 <= k < files.len(),
        0 <= i < files[k].0.len(),
        files[k].0[i] == 0x2f,
    ensures
        image_of(files).1 is Err,
        add_files(formatted(), files.take(k)).1 is Ok ==> image_of(files) == (
            add_files(formatted(), files.take(k)).0,
            Err::<(), Fault>(Fault::SlashInName),
        ),
{
    let upto = files.take(k + 1);
    let (s1, r1) = add_files(formatted(), files.take(k));
    assert(upto.drop_last() =~= files.take(k));
    assert(upto.last() == files[k]);
    law_bad_name_refused(s1, files[k].0, files[k].1);
    assert(exists|j: int| 0 <= j < files[k].0.len() && files[k].0[j] == 0x2f);
    if r1 is Ok {
        assert(r1->Ok_0 == ());
    }
    lemma_add_files_stops(formatted(), files, k + 1);
}

/// Neither does a list with an empty name.
pub proof fn law_empty_name_stops_build(files: Seq<FileView>, k: int)
    requires
        0 <= k < files.len(),
        files[k].0.len() == 0,
    ensures
        image_of(files).1 is Err,
{
    let upto = files.take(k + 1);
    let (s1, r1) = add_files(formatted(), files.take(k));
    assert(upto.drop_last() =~= files.take(k));
    assert(upto.last() == files[k]);
    law_bad_name_refused(s1, files[k].0, files[k].1);
    if r1 is Ok {
        assert(r1->Ok_0 == ());
    }
    lemma_add_files_stops(formatted(), files, k + 1);
}

/// The image before any inode is taken is sound.
pub proof fn law_blank_is_sound()
    ensures
        sound(blank()),
{
    reveal(sound);
}

/// Before any inode is taken, all of them are free.
pub proof fn law_blank_is_vacant()
    ensures
        vacant(blank()),
        forall|j: int| 0 <= j < MAXINODE ==> #[trigger] inode(blank().disk, j) == free_dinode(),
{
    assert forall|j: int| 0 <= j < MAXINODE implies #[trigger] inode(blank().disk, j)
        == free_dinode() by {
        law_records_fit_blocks(j, j);
        assert(blank().disk[iblock(j)] == zero_block());
        assert(inode(blank().disk, j).addrs =~= free_dinode().addrs);
    }
}

/// Making the root directory succeeds at every step. The result is a sound image
/// with one file, a directory that holds an entry for itself and one for its parent;
/// every other inode is free. Outside the inode table and the data blocks it is as it
/// was before.
pub proof fn law_formatted()
    ensures
        ({
            let s1 = alloc_inode(blank(), T_DIR).0;
            let s2 = append(s1, ROOTINO as int, dot_entry()).0;
            let st = formatted();
            let d = inode(st.disk, ROOTINO as int);
            &&& alloc_inode(blank(), T_DIR).1 == Ok::<u32, Fault>(ROOTINO)
            &&& append(s1, ROOTINO as int, dot_entry()).1 is Ok
            &&& append(s2, ROOTINO as int, dotdot_entry()).1 is Ok
            &&& sound(st)
            &&& st.freeinode == 2
            &&& st.freeblock == NMETA + 1
            &&& d == DinodeView { size: 32, addrs: d.addrs, ..fresh_dinode(T_DIR) }
            &&& contents(st.disk, ROOTINO as int) == dot_entry() + dotdot_entry()
            &&& vacant(st)
            &&& forall|q: int|
                0 <= q < NMETA && q != INODESTART ==> #[trigger] st.disk[q] == blank().disk[q]
        }),
{
    law_blank_is_sound();
    law_alloc_inode(blank(), T_DIR);
    let s1 = alloc_inode(blank(), T_DIR).0;
    assert(dot_entry().len() == DIRENT_SIZE && dotdot_entry().len() == DIRENT_SIZE);
    lemma_root_grows_twice(s1, dot_entry(), dotdot_entry());
    assert forall|q: int| 0 <= q < NMETA && q != INODESTART implies #[trigger] formatted().disk[q]
        == blank().disk[q] by {
        assert(s1.disk[q] == blank().disk[q]);
    }
    assert forall|j: int| 0 <= j < MAXINODE && !live(formatted(), j) implies #[trigger] inode(
        formatted().disk,
        j,
    ) == free_dinode() by {
        assert(inode(s1.disk, j) == inode(blank().disk, j));
        law_blank_is_vacant();
    }
}

/// The root directory of a formatted image: a directory with one link, which holds
/// two entries of 16 bytes for inode 1, named by one dot and by two.
pub proof fn law_formatted_root()
    ensures
        formatted().freeinode == 2,
        formatted().freeblock == 60,
        inode(formatted().disk, 1).f_type == 1,
        inode(formatted().disk, 1).nlink == 1,
        ({
            let c = contents(formatted().disk, 1);
            &&& c.len() == 32
            &&& word16(c, 0) == 1 && c[2] == 0x2e
            &&& word16(c, 16) == 1 && c[18] == 0x2e && c[19] == 0x2e
            &&& forall|i: int| 3 <= i < 16 || 20 <= i < 32 ==> #[trigger] c[i] == 0
        }),
{
    law_formatted();
    law_own_entries();
    law_fresh_dinode(T_DIR);
}

/// A new root directory can be given its first two entries.
proof fn lemma_root_grows_twice(s1: ImageView, a: Seq<u8>, b: Seq<u8>)
    requires
        sound(s1),
        s1.freeinode == 2,
        s1.freeblock == NMETA,
        inode(s1.disk, ROOTINO as int) == fresh_dinode(T_DIR),
        contents(s1.disk, ROOTINO as int) == Seq::<u8>::empty(),
        a.len() == DIRENT_SIZE,
        b.len() == DIRENT_SIZE,
    ensures
        ({
            let s2 = append(s1, ROOTINO as int, a).0;
            let st = append(s2, ROOTINO as int, b).0;
            let d = inode(st.disk, ROOTINO as int);
            &&& append(s1, ROOTINO as int, a).1 is Ok
            &&& append(s2, ROOTINO as int, b).1 is Ok
            &&& sound(st)
            &&& st.freeinode == 2
            &&& st.freeblock == NMETA + 1
            &&& d == DinodeView { size: 32, addrs: d.addrs, ..fresh_dinode(T_DIR) }
            &&& contents(st.disk, ROOTINO as int) == a + b
            &&& forall|j: int|
                0 <= j < MAXINODE && j != ROOTINO ==> #[trigger] inode(st.disk, j) == inode(
                    s1.disk,
                    j,
                )
            &&& forall|q: int|
                0 <= q < NMETA && q != INODESTART ==> #[trigger] st.disk[q] == s1.disk[q]
        }),
{
    lemma_root_grows(s1, a);
    let s2 = append(s1, ROOTINO as int, a).0;
    assert(Seq::<u8>::empty() + a =~= a);
    lemma_root_grows(s2, b);
    assert forall|j: int| 0 <= j < MAXINODE && j != ROOTINO implies #[trigger] inode(
        append(s2, ROOTINO as int, b).0.disk,
        j,
    ) == inode(s1.disk, j) by {
        assert(inode(s2.disk, j) == inode(s1.disk, j));
    }
}

/// A small root directory in a nearly empty image can grow by one entry.
proof fn lemma_root_grows(st: ImageView, entry: Seq<u8>)
    requires
        sound(st),
        st.freeinode == 2,
        st.freeblock <= NMETA + 1,
        inode(st.disk, ROOTINO as int).size <= 16,
        entry.len() == DIRENT_SIZE,
    ensures
        ({
            let (st2, r) = append(st, ROOTINO as int, entry);
            let d = inode(st.disk, ROOTINO as int);
            let d2 = inode(st2.disk, ROOTINO as int);
            &&& r is Ok
            &&& sound(st2)
            &&& st2.freeinode == 2
            &&& st2.freeblock == st.freeblock + 1 - owned_blocks(d.size as int)
            &&& d2 == DinodeView { size: (d.size + 16) as u32, addrs: d2.addrs, ..d }
            &&& contents(st2.disk, ROOTINO as int) == contents(st.disk, ROOTINO as int) + entry
            &&& forall|j: int|
                0 <= j < MAXINODE && j != ROOTINO ==> #[trigger] inode(st2.disk, j) == inode(
                    st.disk,
                    j,
                )
            &&& forall|q: int|
                0 <= q < NMETA && q != INODESTART ==> #[trigger] st2.disk[q] == st.disk[q]
        }),
{
    let root = ROOTINO as int;
    let (st2, r) = append(st, root, entry);
    assert(iblock(root) == INODESTART);
    law_append(st, root, entry);
    assert forall|j: int| 0 <= j < MAXINODE && j != ROOTINO implies #[trigger] inode(st2.disk, j)
        == inode(st.disk, j) by {
        law_append_keeps_other_inodes(st, root, entry, j);
    }
    assert forall|q: int| 0 <= q < NMETA && q != INODESTART implies #[trigger] st2.disk[q]
        == st.disk[q] by {
        law_append_keeps_metadata(st, root, entry, q);
    }
}

/// The superblock that describes the layout.
pub fn superblock() -> (sb: Superblock)
    ensures
        sb == layout_superblock(),
        sb.size == 2000,
        sb.nblocks == 1941,
        sb.ninodes == 200,
        sb.nlog == 30,
        sb.logstart == 2,
        sb.inodestart == 32,
        sb.bmapstart == 58,
{
    Superblock {
        size: xu32(FSSIZE),
        nblocks: xu32(NBLOCKS),
        ninodes: xu32(NINODES),
        nlog: xu32(NLOG),
        logstart: xu32(LOGSTART),
        inodestart: xu32(INODESTART),
        bmapstart: xu32(BMAPSTART),
    }
}

/// Whether a name holds a slash.
pub fn has_slash(fname: &[u8]) -> (r: bool)
    ensures
        r == fname@.contains(0x2f),
{
    let mut i: usize = 0;
    while i < fname.len()
        invariant
            i <= fname@.len(),
            forall|j: int| 0 <= j < i ==> fname@[j] != 0x2f,
        decreases fname@.len() - i,
    {
        if fname[i] == 0x2f {
            assert(fname@[i as int] == 0x2f);
            return true;
        }
        i = i + 1;
    }
    false
}

impl Image {
    /// An image of zeroes with its superblock.
    #[verifier::rlimit(30)]
    pub fn new() -> (r: Self)
        ensures
            r@ == blank(),
            r@.disk.len() == 2000,
            word32(r@.disk[1], 0) == 2000,
            word32(r@.disk[1], 4) == 1941,
            word32(r@.disk[1], 8) == 200,
            word32(r@.disk[1], 12) == 30,
            word32(r@.disk[1], 16) == 2,
            word32(r@.disk[1], 20) == 32,
            word32(r@.disk[1], 24) == 58,
            forall|q: int, i: int|
                0 <= q < 2000 && 0 <= i < 512 && (q != 1 || 28 <= i) ==> #[trigger] r@.disk[q][i]
                    == 0,
            r@.freeinode == 1,
            r@.freeblock == 59,
    {
        proof {
            law_superblock_read_back();
            law_blank();
        }
        let mut r = Image::empty();
        let zeroes: [u8; BLOCK] = [0;BLOCK];
        assert(zeroes@ =~= zero_block());
        let mut i: u32 = 0;
        while i < FSSIZE
            invariant
                i <= FSSIZE,
                zeroes@ == zero_block(),
                r@ == (ImageView {
                    disk: Seq::new(i as nat, |k: int| zero_block()),
                    freeinode: 1,
                    freeblock: NMETA as int,
                }),
            decreases FSSIZE - i,
        {
            r.wsect(i, &zeroes);
            assert(r@.disk =~= Seq::new((i + 1) as nat, |k: int| zero_block()));
            i = i + 1;
        }
        let sb: Superblock = superblock();
        let mut buf: [u8; BLOCK] = [0;BLOCK];
        put32(&mut buf, 0, sb.size);
        put32(&mut buf, 4, sb.nblocks);
        put32(&mut buf, 8, sb.ninodes);
        put32(&mut buf, 12, sb.nlog);
        put32(&mut buf, 16, sb.logstart);
        put32(&mut buf, 20, sb.inodestart);
        put32(&mut buf, 24, sb.bmapstart);
        assert(buf@ =~= super_block());
        r.wsect(1, &buf);
        assert(r@.disk =~= blank().disk);
        r
    }

    /// An image with an empty root directory.
    #[verifier::rlimit(30)]
    pub fn format() -> (r: Self)
        ensures
            r@ == formatted(),
            holds(r@, Seq::empty()),
            r@.freeinode == 2,
            r@.freeblock == 60,
            inode(r@.disk, 1).f_type == 1,
            inode(r@.disk, 1).nlink == 1,
            ({
                let c = contents(r@.disk, 1);
                &&& c.len() == 32
                &&& word16(c, 0) == 1 && c[2] == 0x2e
                &&& word16(c, 16) == 1 && c[18] == 0x2e && c[19] == 0x2e
                &&& forall|i: int| 3 <= i < 16 || 20 <= i < 32 ==> #[trigger] c[i] == 0
            }),
    {
        let mut r = Image::new();
        proof {
            law_formatted();
        }
        let rootino: u32 = r.ialloc(T_DIR).unwrap();
        assert(rootino == ROOTINO);
        let mut name: [u8; DIRSIZ] = [0;DIRSIZ];
        name[0] = 0x2e;
        assert(name@ =~= padded(seq![0x2eu8]));
        let dot = Dirent { inum: xu16(rootino as u16), name };
        let b: [u8; DIRENT_SIZE] = dot.to_bytes();
        assert(b@.take(DIRENT_SIZE as int) =~= b@);
        r.iappend(rootino, &b, DIRENT_SIZE as u32).unwrap();
        name[1] = 0x2e;
        assert(name@ =~= padded(seq![0x2eu8, 0x2eu8]));
        let dotdot = Dirent { inum: xu16(rootino as u16), name };
        let b2: [u8; DIRENT_SIZE] = dotdot.to_bytes();
        assert(b2@.take(DIRENT_SIZE as int) =~= b2@);
        r.iappend(rootino, &b2, DIRENT_SIZE as u32).unwrap();
        proof {
            law_formatted_holds_nothing();
            law_formatted_root();
        }
        r
    }

    /// Takes an inode for a file and enters its name in the root directory.
    #[verifier::rlimit(30)]
    pub fn link_file(&mut self, fname: &[u8]) -> (r: Result<u32, Fault>)
        ensures
            (final(self)@, r) == link(old(self)@, fname@),
            fname@.contains(0x2f) ==> r == Err::<u32, Fault>(Fault::SlashInName) && final(self)@
                == old(self)@,
            fname@.len() == 0 ==> r == Err::<u32, Fault>(Fault::EmptyName) && final(self)@ == old(
                self,
            )@,
            sound(old(self)@) && live(old(self)@, 1) && old(self)@.freeinode < MAXINODE
                && fname@.len() > 0 && !fname@.contains(0x2f) ==> linked(
                old(self)@,
                fname@,
                final(self)@,
                r,
            ),
    {
        proof {
            if sound(self@) && live(self@, 1) && self@.freeinode < MAXINODE && fname@.len() > 0
                && !fname@.contains(0x2f) {
                law_link(self@, fname@);
            }
        }
        if has_slash(fname) {
            return Err(Fault::SlashInName);
        }
        if fname.len() == 0 {
            return Err(Fault::EmptyName);
        }
        let inum: u32 = match self.ialloc(T_FILE) {
            Err(e) => {
                return Err(e);
            },
            Ok(i) => i,
        };
        let de = Dirent { inum: xu16(inum as u16), name: entry_name(fname) };
        let b: [u8; DIRENT_SIZE] = de.to_bytes();
        assert(b@.take(DIRENT_SIZE as int) =~= b@);
        match self.iappend(ROOTINO, &b, DIRENT_SIZE as u32) {
            Err(e) => Err(e),
            Ok(()) => Ok(inum),
        }
    }

    /// Appends `data` to a file in pieces of one block.
    #[verifier::rlimit(30)]
    pub fn feed_file(&mut self, inum: u32, data: &[u8]) -> (r: Result<(), Fault>)
        ensures
            (final(self)@, r) == feed(old(self)@, inum as int, data@),
            sound(old(self)@) && live(old(self)@, inum as int) ==> {
                let before = contents(old(self)@.disk, inum as int);
                let after = contents(final(self)@.disk, inum as int);
                &&& r == append(old(self)@, inum as int, data@).1
                &&& r is Ok ==> sound(final(self)@) && after == before + data@
                &&& before.is_prefix_of(after) && after.is_prefix_of(before + data@)
                &&& others_kept(old(self)@, final(self)@, inum as int)
            },
    {
        proof {
            if sound(self@) && live(self@, inum as int) {
                law_append(self@, inum as int, data@);
                law_feed_is_append(self@, inum as int, data@);
                law_feed(self@, inum as int, data@);
            }
        }
        self.feed_pieces(inum, data)
    }

    /// The pieces of `data`, appended one after the other.
    fn feed_pieces(&mut self, inum: u32, data: &[u8]) -> (r: Result<(), Fault>)
        ensures
            (final(self)@, r) == feed(old(self)@, inum as int, data@),
    {
        let mut done: usize = 0;
        assert(data@.len() == data.len());
        assert(data@.skip(0) =~= data@);
        proof {
            reveal(feed);
        }
        while done < data.len()
            invariant
                done <= data@.len() <= usize::MAX,
                feed(old(self)@, inum as int, data@) == feed(
                    self@,
                    inum as int,
                    data@.skip(done as int),
                ),
            decreases data@.len() - done,
        {
            let n: usize = if data.len() - done < BLOCK {
                data.len() - done
            } else {
                BLOCK
            };
            let piece: &[u8] = slice_subrange(data, done, done + n);
            proof {
                let rest = data@.skip(done as int);
                assert(piece@.take(n as int) =~= rest.take(n as int));
                assert(rest.skip(n as int) =~= data@.skip(done + n));
                reveal(feed);
            }
            match self.iappend(inum, piece, n as u32) {
                Err(e) => {
                    return Err(e);
                },
                Ok(()) => {},
            }
            done = done + n;
        }
        assert(data@.skip(done as int).len() == 0);
        Ok(())
    }

    /// Enters a file in the root directory and stores its contents. An image that
    /// holds some files, and has an inode left, then holds this one too, exactly if
    /// it is not too large and there are blocks for it and for its entry; otherwise
    /// the files that it held are still there.
    #[verifier::rlimit(30)]
    pub fn add_file(&mut self, fname: &[u8], data: &[u8]) -> (r: Result<(), Fault>)
        ensures
            (final(self)@, r) == add_file(old(self)@, fname@, data@),
            fname@.contains(0x2f) ==> r == Err::<(), Fault>(Fault::SlashInName) && final(self)@
                == old(self)@,
            fname@.len() == 0 ==> r == Err::<(), Fault>(Fault::EmptyName) && final(self)@ == old(
                self,
            )@,
            forall|files: Seq<FileView>| #[trigger]
                holds(old(self)@, files) && files.len() + 2 < MAXINODE && fname@.len() > 0
                    && !fname@.contains(0x2f) ==> {
                    let all = files.push((fname@, data@));
                    &&& r is Ok <==> data@.len() <= MAXBYTES && NMETA + blocks_for(all) <= FSSIZE
                    &&& r is Ok ==> holds(final(self)@, all)
                    &&& r is Err ==> keeps(final(self)@.disk, files)
                },
    {
        proof {
            assert forall|files: Seq<FileView>| #[trigger]
                holds(self@, files) && files.len() + 2 < MAXINODE && fname@.len() > 0
                    && !fname@.contains(0x2f) implies {
                let all = files.push((fname@, data@));
                let (st, r) = add_file(self@, fname@, data@);
                &&& r is Ok <==> data@.len() <= MAXBYTES && NMETA + blocks_for(all) <= FSSIZE
                &&& r is Ok ==> holds(st, all)
                &&& r is Err ==> keeps(st.disk, files)
            } by {
                law_add_file(self@, files, fname@, data@);
            }
        }
        match self.link_file(fname) {
            Err(e) => Err(e),
            Ok(inum) => self.feed_file(inum, data),
        }
    }

    /// Rounds up the size of the root directory and marks the used blocks. That
    /// finishes an image that holds some files.
    #[verifier::rlimit(30)]
    pub fn seal(&mut self) -> (r: Result<(), Fault>)
        ensures
            (final(self)@, r) == seal(old(self)@),
            forall|files: Seq<FileView>| #[trigger]
                holds(old(self)@, files) ==> r is Ok && finished(final(self)@, files),
            ({
                let size = word32(old(self)@.disk[32], 72);
                let size2 = word32(final(self)@.disk[32], 72);
                &&& r is Ok <==> {
                    &&& old(self)@.disk.len() > 32
                    &&& size - size % 512 + 512 <= u32::MAX
                    &&& old(self)@.freeblock < 4096
                }
                &&& r is Ok ==> {
                    &&& size2 % 512 == 0
                    &&& size < size2 <= size + 512
                    &&& forall|q: int, i: int|
                        0 <= q < old(self)@.disk.len() && q != 58 && 0 <= i < 512 && !(q == 32 && 72
                            <= i < 76) ==> #[trigger] final(self)@.disk[q][i] == old(
                            self,
                        )@.disk[q][i]
                    &&& forall|k: int, m: u8|
                        0 <= k < 512 && m < 8 ==> (#[trigger] final(self)@.disk[58][k]
                            & #[trigger] (1u8 << m) != 0 <==> 8 * k + m < old(self)@.freeblock)
                }
            }),
    {
        proof {
            self.law_sector_size();
            law_seal_bytes(self@);
            assert forall|files: Seq<FileView>| #[trigger] holds(self@, files) implies seal(
                self@,
            ).1 is Ok && finished(seal(self@).0, files) by {
                law_seal(self@, files);
            }
        }
        let mut din: Dinode = match self.rinode(ROOTINO) {
            Err(e) => {
                return Err(e);
            },
            Ok(d) => d,
        };
        let ghost before = din@;
        let size: u32 = xu32(din.size);
        if size / BSIZE >= u32::MAX / BSIZE {
            return Err(Fault::Overflow);
        }
        let off: u32 = (size / BSIZE + 1) * BSIZE;
        din.size = xu32(off);
        assert(din@ =~= with_size(before, off));
        match self.winode(ROOTINO, &din) {
            Err(e) => {
                return Err(e);
            },
            Ok(()) => {},
        }
        let used: u32 = self.freeblock();
        self.balloc(used)
    }
}

/// Once a file cannot be added, the files behind it are not looked at.
proof fn lemma_add_files_stops(st: ImageView, files: Seq<FileView>, k: int)
    requires
        0 <= k <= files.len(),
        add_files(st, files.take(k)).1 is Err,
    ensures
        add_files(st, files) == add_files(st, files.take(k)),
    decreases files.len(),
{
    if k == files.len() {
        assert(files.take(k) =~= files);
    } else {
        assert(files.drop_last().take(k) =~= files.take(k));
        lemma_add_files_stops(st, files.drop_last(), k);
    }
}

/// One more file is added behind those that have been added.
proof fn lemma_add_one_more(st: ImageView, files: Seq<FileView>, i: int, now: ImageView)
    requires
        0 <= i < files.len(),
        add_files(st, files.take(i)) == (now, Ok::<(), Fault>(())),
    ensures
        add_files(st, files.take(i + 1)) == add_file(now, files[i].0, files[i].1),
{
    assert(files.take(i + 1).drop_last() =~= files.take(i));
    assert(files.take(i + 1).last() == files[i]);
}

impl Image {
    /// Adds files one after the other, up to the first that cannot be added.
    pub fn add_files(&mut self, files: &Vec<HostFile>) -> (r: Result<(), Fault>)
        ensures
            (final(self)@, r) == add_files(old(self)@, files_view(files@)),
    {
        let ghost all = files_view(files@);
        let mut i: usize = 0;
        assert(all.take(0) =~= Seq::<FileView>::empty());
        while i < files.len()
            invariant
                i <= files@.len(),
                all == files_view(files@),
                add_files(old(self)@, all.take(i as int)) == (self@, Ok::<(), Fault>(())),
            decreases files@.len() - i,
        {
            proof {
                lemma_add_one_more(old(self)@, all, i as int, self@);
            }
            let r = self.add_file(files[i].name.as_slice(), files[i].data.as_slice());
            assert(add_files(old(self)@, all.take(i + 1)) == (self@, r));
            match r {
                Err(e) => {
                    proof {
                        lemma_add_files_stops(old(self)@, all, i + 1);
                    }
                    return Err(e);
                },
                Ok(()) => {
                    assert(r->Ok_0 == ());
                },
            }
            i = i + 1;
        }
        assert(all.take(i as int) =~= all);
        Ok(())
    }
}

/// Builds the image that holds the given files. Where a file cannot be added,
/// the image is handed back as it is at that point, with the reason. Well-named
/// files, no more than the inode table has room for, make a finished image
/// exactly if they fit; otherwise those before the first that does not fit are
/// there.
#[verifier::rlimit(30)]
pub fn build(files: &Vec<HostFile>) -> (r: (Image, Result<(), Fault>))
    ensures
        (r.0@, r.1) == image_of(files_view(files@)),
        files@.len() + 2 <= MAXINODE && well_named(files_view(files@)) ==> {
            &&& r.1 is Ok <==> fitting(files_view(files@))
            &&& r.1 is Ok ==> finished(r.0@, files_view(files@))
            &&& r.1 is Err ==> exists|k: int| #[trigger]
                overflows_at(files_view(files@), k) && keeps(
                    r.0@.disk,
                    files_view(files@).take(k),
                )
        },
        (exists|k: int| 0 <= k < files@.len() && #[trigger] files@[k].name@.contains(0x2f))
            ==> r.1 is Err,
{
    proof {
        if files@.len() + 2 <= MAXINODE && well_named(files_view(files@)) {
            law_image(files_view(files@));
        }
        if exists|k: int| 0 <= k < files@.len() && #[trigger] files@[k].name@.contains(0x2f) {
            let k = choose|k: int|
                0 <= k < files@.len() && #[trigger] files@[k].name@.contains(0x2f);
            let i = choose|i: int|
                0 <= i < files@[k].name@.len() && files@[k].name@[i] == 0x2f;
            assert(files_view(files@)[k].0 == files@[k].name@);
            law_slash_stops_build(files_view(files@), k, i);
        }
    }
    let mut image = Image::format();
    match image.add_files(files) {
        Err(e) => (image, Err(e)),
        Ok(()) => {
            let r = image.seal();
            (image, r)
        },
    }
}

} // verus!
