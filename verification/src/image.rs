//! The image in memory: sectors, inodes, and appending to files.

use vstd::prelude::*;
use crate::append::{append_outcome, law_append, others_kept};
use crate::bytes::{bcopy, get32, le32, put32, splice, u32_at, word16, word32, xu16, xu32};
use crate::inode::{
    dinode_at, dinode_bytes, fields_at, fresh_dinode, get_dinode, law_dinode_fields,
    law_dinode_len, law_dinode_read_back, put_dinode, Dinode, DinodeView,
};
use crate::sound::{contents, live, sound};
use crate::layout::{iblock, ioffset};
use crate::layout::{
    BLOCK, BMAPSTART, BSIZE, DINODE_SIZE, INODESTART, IPB, MAXFILE, NADDRS, NDIRECT, NMETA,
};

verus! {

/// Number of sectors whose byte offset fits in 32 bits.
pub const MAXSECTOR: u32 = 8388608;

/// Number of blocks that the bitmap block can describe.
pub const BITMAP_BITS: u32 = 4096;

/// Why an operation stopped.
#[derive(Clone, Copy, Debug, PartialEq, Eq, Structural)]
pub enum Fault {
    /// The file would need more blocks than an inode can address.
    FileTooLarge,
    /// The sector lies outside the image: the image is full, or an address is wrong.
    BadSector,
    /// A 32-bit counter or size would overflow.
    Overflow,
    /// There are more blocks in use than the bitmap block has bits.
    BitmapTooSmall,
    /// A file name holds a slash.
    SlashInName,
    /// A file name is empty.
    EmptyName,
}

/// The abstract image: its sectors, and the next free inode and block numbers.
#[verifier::ext_equal]
pub struct ImageView {
    /// The contents of each sector.
    pub disk: Seq<Seq<u8>>,
    /// The next inode number to hand out.
    pub freeinode: int,
    /// The next block number to hand out.
    pub freeblock: int,
}

/// A file-system image under construction.
pub struct Image {
    sectors: Vec<[u8; BLOCK]>,
    freeinode: u32,
    freeblock: u32,
}

impl View for Image {
    type V = ImageView;

    closed spec fn view(&self) -> ImageView {
        ImageView {
            disk: Seq::new(self.sectors@.len(), |i: int| self.sectors@[i]@),
            freeinode: self.freeinode as int,
            freeblock: self.freeblock as int,
        }
    }
}

/// A sector of zero bytes.
pub open spec fn zero_block() -> Seq<u8> {
    Seq::new(BLOCK as nat, |i: int| 0u8)
}

/// Whether `sec` can be read.
pub open spec fn readable(disk: Seq<Seq<u8>>, sec: int) -> bool {
    0 <= sec < disk.len() && sec < MAXSECTOR
}

/// The disk after writing `b` to sector `sec`; a gap before it is filled with zeroes.
pub open spec fn write_sector(disk: Seq<Seq<u8>>, sec: int, b: Seq<u8>) -> Seq<Seq<u8>> {
    Seq::new(
        if sec < disk.len() {
            disk.len()
        } else {
            (sec + 1) as nat
        },
        |i: int|
            if i == sec {
                b
            } else if i < disk.len() {
                disk[i]
            } else {
                zero_block()
            },
    )
}

/// The inode numbered `inum`.
pub open spec fn inode(disk: Seq<Seq<u8>>, inum: int) -> DinodeView {
    dinode_at(disk[iblock(inum)], ioffset(inum))
}

/// The disk after storing `d` as inode `inum`.
pub open spec fn write_inode(disk: Seq<Seq<u8>>, inum: int, d: DinodeView) -> Seq<Seq<u8>> {
    disk.update(iblock(inum), splice(disk[iblock(inum)], ioffset(inum), dinode_bytes(d)))
}

/// Taking the next inode and storing a fresh one of type `f_type` there.
pub open spec fn alloc_inode(st: ImageView, f_type: u16) -> (ImageView, Result<u32, Fault>) {
    let inum = st.freeinode;
    if inum >= u32::MAX {
        (st, Err(Fault::Overflow))
    } else if !readable(st.disk, iblock(inum)) {
        (ImageView { freeinode: inum + 1, ..st }, Err(Fault::BadSector))
    } else {
        (
            ImageView {
                disk: write_inode(st.disk, inum, fresh_dinode(f_type)),
                freeinode: inum + 1,
                ..st
            },
            Ok(inum as u32),
        )
    }
}

/// What appending works on: the disk, the inode in memory, the next free block.
#[verifier::ext_equal]
pub struct Cursor {
    /// The contents of each sector.
    pub disk: Seq<Seq<u8>>,
    /// The inode of the file.
    pub din: DinodeView,
    /// The next block number to hand out.
    pub freeblock: int,
}

/// The block at a stored address, where address 0 takes the next free block;
/// and the next free block after that.
pub open spec fn claim(addr: u32, freeblock: int) -> (Result<u32, Fault>, int) {
    if addr != 0 {
        (Ok(addr), freeblock)
    } else if freeblock >= u32::MAX {
        (Err(Fault::Overflow), freeblock)
    } else {
        (Ok(freeblock as u32), freeblock + 1)
    }
}

/// The inode with address `k` set to `addr`.
pub open spec fn with_addr(d: DinodeView, k: int, addr: u32) -> DinodeView {
    DinodeView { addrs: d.addrs.update(k, addr), ..d }
}

/// The inode with another size.
pub open spec fn with_size(d: DinodeView, size: u32) -> DinodeView {
    DinodeView { size, ..d }
}

/// The block number of block `fbn` of the file, which is allocated, together
/// with the indirect block that holds its address, where it is missing.
pub open spec fn map_block(c: Cursor, fbn: int) -> (Cursor, Result<u32, Fault>) {
    if fbn < NDIRECT {
        match claim(c.din.addrs[fbn], c.freeblock) {
            (Ok(x), free) => (
                Cursor { din: with_addr(c.din, fbn, x), freeblock: free, ..c },
                Ok(x),
            ),
            (Err(e), free) => (c, Err(e)),
        }
    } else {
        match claim(c.din.addrs[NDIRECT as int], c.freeblock) {
            (Ok(ib), free) => {
                let c1 = Cursor {
                    din: with_addr(c.din, NDIRECT as int, ib),
                    freeblock: free,
                    ..c
                };
                if !readable(c.disk, ib as int) {
                    (c1, Err(Fault::BadSector))
                } else {
                    let table = c.disk[ib as int];
                    let at = 4 * (fbn - NDIRECT);
                    match claim(u32_at(table, at), free) {
                        (Ok(x), free2) => {
                            let disk = if u32_at(table, at) == 0 {
                                c.disk.update(ib as int, splice(table, at, le32(x)))
                            } else {
                                c.disk
                            };
                            (Cursor { disk, freeblock: free2, ..c1 }, Ok(x))
                        },
                        (Err(e), free2) => (c1, Err(e)),
                    }
                }
            },
            (Err(e), free) => (c, Err(e)),
        }
    }
}

/// How many of `len` bytes go into the block at byte `off`.
pub open spec fn chunk_len(off: int, len: int) -> int {
    if len < BSIZE - off % (BSIZE as int) {
        len
    } else {
        BSIZE - off % (BSIZE as int)
    }
}

/// Writing `data` into the blocks of a file from byte `off` on, block by block.
/// Stops at the first block that cannot be had.
pub open spec fn append_run(c: Cursor, off: int, data: Seq<u8>) -> (Cursor, Result<(), Fault>)
    decreases data.len(),
{
    let fbn = off / (BSIZE as int);
    let n = chunk_len(off, data.len() as int);
    if data.len() == 0 {
        (c, Ok(()))
    } else if fbn >= MAXFILE {
        (c, Err(Fault::FileTooLarge))
    } else {
        match map_block(c, fbn) {
            (c1, Err(e)) => (c1, Err(e)),
            (c1, Ok(x)) => if !readable(c1.disk, x as int) {
                (c1, Err(Fault::BadSector))
            } else {
                append_run(
                    put_chunk(c1, x as int, off % (BSIZE as int), data.take(n)),
                    off + n,
                    data.skip(n),
                )
            },
        }
    }
}

/// Overwriting part of block `x`.
pub open spec fn put_chunk(c: Cursor, x: int, at: int, chunk: Seq<u8>) -> Cursor {
    Cursor { disk: c.disk.update(x, splice(c.disk[x], at, chunk)), ..c }
}

/// Appending `data` to the file with inode `inum`. Where it stops early, the
/// blocks written so far stay written and the inode is left as it was.
pub open spec fn append(st: ImageView, inum: int, data: Seq<u8>) -> (ImageView, Result<(), Fault>) {
    if !readable(st.disk, iblock(inum)) {
        (st, Err(Fault::BadSector))
    } else {
        let din = inode(st.disk, inum);
        let c = Cursor { disk: st.disk, din, freeblock: st.freeblock };
        match append_run(c, din.size as int, data) {
            (c1, Err(e)) => (
                ImageView { disk: c1.disk, freeblock: c1.freeblock, ..st },
                Err(e),
            ),
            (c1, Ok(())) => (
                ImageView {
                    disk: write_inode(
                        c1.disk,
                        inum,
                        with_size(c1.din, (din.size + data.len()) as u32),
                    ),
                    freeblock: c1.freeblock,
                    ..st
                },
                Ok(()),
            ),
        }
    }
}

/// The bytes of the image `b` are those of `a`, but for the 64 bytes of inode `inum`,
/// which start `64 * inum` bytes behind the start of block 32.
pub open spec fn same_but_inode(a: Seq<Seq<u8>>, b: Seq<Seq<u8>>, inum: int) -> bool {
    &&& b.len() == a.len()
    &&& forall|q: int| 0 <= q < a.len() ==> #[trigger] b[q].len() == a[q].len()
    &&& forall|q: int, i: int|
        0 <= q < a.len() && 0 <= i < 512 && !(64 * inum <= 512 * (q - 32) + i < 64 * inum + 64)
            ==> #[trigger] b[q][i] == a[q][i]
}

/// Inode `inum` stands in 64 bytes of block `32 + inum / 8`, eight to a block. What
/// is read are the fields that stand there; storing an inode puts its fields there
/// and changes no other byte of the image.
pub proof fn law_inode_bytes(disk: Seq<Seq<u8>>, inum: int, d: DinodeView)
    requires
        0 <= inum,
        32 + inum / 8 < disk.len(),
        disk[32 + inum / 8].len() == BLOCK,
        d.addrs.len() == NADDRS,
    ensures
        fields_at(disk[32 + inum / 8], 64 * (inum % 8), inode(disk, inum)),
        fields_at(write_inode(disk, inum, d)[32 + inum / 8], 64 * (inum % 8), d),
        same_but_inode(disk, write_inode(disk, inum, d), inum),
{
    let q0 = 32 + inum / 8;
    let at = 64 * (inum % 8);
    let m = write_inode(disk, inum, d);
    assert(iblock(inum) == q0 && ioffset(inum) == at);
    law_dinode_fields(disk[q0], at);
    law_dinode_len(d);
    law_dinode_read_back(disk[q0], at, d);
    law_dinode_fields(m[q0], at);
    assert forall|q: int, i: int|
        0 <= q < disk.len() && 0 <= i < 512 && !(64 * inum <= 512 * (q - 32) + i < 64 * inum
            + 64) implies #[trigger] m[q][i] == disk[q][i] by {
        if q == q0 {
            assert(512 * (q - 32) == 64 * inum - at);
        }
    }
}

/// The bitmap byte in which the lowest `n` bits are set.
pub open spec fn bitmap_byte(n: int) -> u8 {
    if n <= 0 {
        0
    } else if n >= 8 {
        255
    } else {
        ((1u8 << (n as u8)) - 1) as u8
    }
}

/// The bitmap block in which the first `used` blocks are marked.
pub open spec fn bitmap(used: int) -> Seq<u8> {
    Seq::new(BLOCK as nat, |k: int| bitmap_byte(used - 8 * k))
}

/// Whether block `i` is marked in a bitmap block.
pub open spec fn marked(b: Seq<u8>, i: int) -> bool {
    b[i / 8] & (1u8 << ((i % 8) as u8)) != 0
}

/// The image with the first `used` blocks marked as allocated.
pub open spec fn mark_used(st: ImageView, used: int) -> (ImageView, Result<(), Fault>) {
    if used >= BITMAP_BITS {
        (st, Err(Fault::BitmapTooSmall))
    } else {
        (ImageView { disk: write_sector(st.disk, BMAPSTART as int, bitmap(used)), ..st }, Ok(()))
    }
}

/// A block is marked exactly if it is one of the first `used`.
pub proof fn law_bitmap_marks_exactly_the_used(used: int, i: int)
    requires
        0 <= i < BITMAP_BITS,
    ensures
        marked(bitmap(used), i) <==> i < used,
        bitmap(used).len() == 512,
        bitmap(used)[i / 8] & (1u8 << ((i % 8) as u8)) != 0 <==> i < used,
{
    let k = i / 8;
    let t = (i % 8) as u8;
    let n = used - 8 * k;
    assert(bitmap(used)[k] == bitmap_byte(n));
    if n <= 0 {
        assert(0u8 & (1u8 << t) == 0) by (bit_vector);
    } else if n >= 8 {
        assert(255u8 & (1u8 << t) != 0) by (bit_vector)
            requires
                t < 8,
        ;
    } else {
        let m = n as u8;
        assert((1u8 << m) >= 1) by (bit_vector)
            requires
                m < 8,
        ;
        let b = ((1u8 << m) - 1) as u8;
        assert(b & (1u8 << t) != 0 <==> t < m) by (bit_vector)
            requires
                t < 8,
                m < 8,
                b == ((1u8 << m) - 1) as u8,
        ;
    }
}

/// A written sector is read back, and every other sector stays as it was.
pub proof fn law_sector_read_back(disk: Seq<Seq<u8>>, sec: int, b: Seq<u8>, other: int)
    requires
        0 <= sec,
    ensures
        write_sector(disk, sec, b).len() == if sec < disk.len() {
            disk.len() as int
        } else {
            sec + 1
        },
        disk.len() <= other < sec ==> write_sector(disk, sec, b)[other].len() == 512,
        disk.len() <= other < sec ==> forall|i: int|
            0 <= i < 512 ==> #[trigger] write_sector(disk, sec, b)[other][i] == 0,
        write_sector(disk, sec, b)[sec] == b,
        0 <= other < disk.len() && other != sec ==> write_sector(disk, sec, b)[other]
            == disk[other],
        sec < disk.len() ==> write_sector(disk, sec, b) == disk.update(sec, b),
{
    if sec < disk.len() {
        assert(write_sector(disk, sec, b) =~= disk.update(sec, b));
    }
}

impl Image {
    /// An image file without any sector. Inode numbers start at 1, blocks behind
    /// the metadata.
    pub fn empty() -> (r: Self)
        ensures
            r@ == (ImageView { disk: Seq::empty(), freeinode: 1, freeblock: NMETA as int }),
    {
        let r = Image { sectors: Vec::new(), freeinode: 1, freeblock: NMETA };
        assert(r@.disk =~= Seq::empty());
        r
    }

    /// The number of sectors.
    pub fn len(&self) -> (n: usize)
        ensures
            n == self@.disk.len(),
    {
        self.sectors.len()
    }

    /// The next block number to hand out.
    pub fn freeblock(&self) -> (n: u32)
        ensures
            n == self@.freeblock,
    {
        self.freeblock
    }

    /// Every sector has the size of a block.
    pub proof fn law_sector_size(&self)
        ensures
            forall|i: int| 0 <= i < self@.disk.len() ==> #[trigger] self@.disk[i].len() == BLOCK,
    {
    }

    /// The counters are 32-bit numbers.
    pub proof fn law_counters(&self)
        ensures
            0 <= self@.freeinode <= u32::MAX,
            0 <= self@.freeblock <= u32::MAX,
    {
    }

    /// Writes sector `sec`, growing the image where it is shorter.
    #[verifier::rlimit(30)]
    pub fn wsect(&mut self, sec: u32, buf: &[u8; BLOCK])
        requires
            sec < MAXSECTOR,
        ensures
            final(self)@ == (ImageView {
                disk: write_sector(old(self)@.disk, sec as int, buf@),
                ..old(self)@
            }),
            final(self)@.disk[sec as int] == buf@,
            sec < old(self)@.disk.len() ==> final(self)@.disk.len() == old(self)@.disk.len(),
            sec >= old(self)@.disk.len() ==> final(self)@.disk.len() == sec + 1,
            forall|q: int|
                0 <= q < old(self)@.disk.len() && q != sec ==> #[trigger] final(self)@.disk[q]
                    == old(self)@.disk[q],
            forall|q: int, i: int|
                old(self)@.disk.len() <= q < sec && 0 <= i < 512
                    ==> #[trigger] final(self)@.disk[q][i] == 0,
    {
        let zeroes: [u8; BLOCK] = [0;BLOCK];
        assert(zeroes@ =~= zero_block());
        while self.sectors.len() <= sec as usize
            invariant
                zeroes@ == zero_block(),
                self.freeinode == old(self).freeinode,
                self.freeblock == old(self).freeblock,
                old(self).sectors@.len() <= self.sectors@.len(),
                old(self).sectors@.len() == self.sectors@.len() || self.sectors@.len() <= sec + 1,
                forall|i: int|
                    0 <= i < self.sectors@.len() ==> self.sectors@[i]@ == if i
                        < old(self).sectors@.len() {
                        old(self).sectors@[i]@
                    } else {
                        zero_block()
                    },
            decreases sec + 1 - self.sectors@.len(),
        {
            self.sectors.push(zeroes);
        }
        self.sectors[sec as usize] = *buf;
        assert(self@.disk =~= write_sector(old(self)@.disk, sec as int, buf@));
    }

    /// Reads sector `sec`.
    pub fn rsect(&self, sec: u32) -> (r: Result<[u8; BLOCK], Fault>)
        ensures
            r is Ok <==> readable(self@.disk, sec as int),
            r is Ok <==> sec < self@.disk.len() && sec * 512 <= u32::MAX,
            r is Ok ==> r->Ok_0@ == self@.disk[sec as int],
            r is Err ==> r == Err::<[u8; BLOCK], Fault>(Fault::BadSector),
    {
        if sec < MAXSECTOR && (sec as usize) < self.sectors.len() {
            Ok(self.sectors[sec as usize])
        } else {
            Err(Fault::BadSector)
        }
    }

    /// Stores `ip` as inode `inum`.
    #[verifier::rlimit(30)]
    pub fn winode(&mut self, inum: u32, ip: &Dinode) -> (r: Result<(), Fault>)
        ensures
            r is Ok <==> readable(old(self)@.disk, iblock(inum as int)),
            r is Ok ==> final(self)@ == (ImageView {
                disk: write_inode(old(self)@.disk, inum as int, ip@),
                ..old(self)@
            }),
            r is Err ==> r == Err::<(), Fault>(Fault::BadSector) && final(self)@ == old(self)@,
            r is Ok <==> 32 + inum / 8 < old(self)@.disk.len() && (32 + inum / 8) * 512 <= u32::MAX,
            r is Ok ==> {
                &&& fields_at(final(self)@.disk[32 + inum / 8], 64 * (inum % 8) as int, ip@)
                &&& same_but_inode(old(self)@.disk, final(self)@.disk, inum as int)
                &&& final(self)@.freeinode == old(self)@.freeinode
                &&& final(self)@.freeblock == old(self)@.freeblock
            },
    {
        let bn: u32 = inum / IPB + INODESTART;
        match self.rsect(bn) {
            Err(e) => Err(e),
            Ok(b) => {
                let mut buf: [u8; BLOCK] = b;
                let at: usize = (inum % IPB) as usize * DINODE_SIZE as usize;
                put_dinode(&mut buf, at, ip);
                self.wsect(bn, &buf);
                assert(self@.disk =~= write_inode(old(self)@.disk, inum as int, ip@));
                proof {
                    old(self).law_sector_size();
                    law_inode_bytes(old(self)@.disk, inum as int, ip@);
                }
                Ok(())
            },
        }
    }

    /// Reads inode `inum`.
    pub fn rinode(&self, inum: u32) -> (r: Result<Dinode, Fault>)
        ensures
            r is Ok <==> readable(self@.disk, iblock(inum as int)),
            r is Ok ==> r->Ok_0@ == inode(self@.disk, inum as int),
            r is Err ==> r == Err::<Dinode, Fault>(Fault::BadSector),
            r is Ok <==> 32 + inum / 8 < self@.disk.len() && (32 + inum / 8) * 512 <= u32::MAX,
            r is Ok ==> fields_at(
                self@.disk[32 + inum / 8],
                64 * (inum % 8) as int,
                r->Ok_0@,
            ),
    {
        let bn: u32 = inum / IPB + INODESTART;
        match self.rsect(bn) {
            Err(e) => Err(e),
            Ok(buf) => {
                let at: usize = (inum % IPB) as usize * DINODE_SIZE as usize;
                proof {
                    law_dinode_fields(buf@, at as int);
                }
                Ok(get_dinode(&buf, at))
            },
        }
    }

    /// Takes the next inode number and stores a fresh inode of type `f_type` there.
    #[verifier::rlimit(30)]
    pub fn ialloc(&mut self, f_type: u16) -> (r: Result<u32, Fault>)
        ensures
            (final(self)@, r) == alloc_inode(old(self)@, f_type),
            r is Ok ==> r->Ok_0 == old(self)@.freeinode,
            r is Ok <==> old(self)@.freeinode < u32::MAX && 32 + old(self)@.freeinode / 8
                < old(self)@.disk.len() && (32 + old(self)@.freeinode / 8) * 512 <= u32::MAX,
            r is Ok ==> {
                let n = old(self)@.freeinode;
                let b = final(self)@.disk[32 + n / 8];
                let at = 64 * (n % 8);
                &&& word16(b, at) == f_type
                &&& word16(b, at + 2) == 0 && word16(b, at + 4) == 0
                &&& word16(b, at + 6) == 1
                &&& word32(b, at + 8) == 0
                &&& forall|i: int| at + 12 <= i < at + 64 ==> #[trigger] b[i] == 0
                &&& same_but_inode(old(self)@.disk, final(self)@.disk, n)
                &&& final(self)@.freeinode == n + 1
                &&& final(self)@.freeblock == old(self)@.freeblock
            },
            r is Err ==> {
                &&& r->Err_0 == if old(self)@.freeinode == u32::MAX {
                    Fault::Overflow
                } else {
                    Fault::BadSector
                }
                &&& final(self)@.disk == old(self)@.disk
                &&& final(self)@.freeblock == old(self)@.freeblock
            },
    {
        if self.freeinode == u32::MAX {
            return Err(Fault::Overflow);
        }
        let inum: u32 = self.freeinode;
        self.freeinode = inum + 1;
        let din = Dinode {
            f_type: xu16(f_type),
            major: 0,
            minor: 0,
            nlink: xu16(1),
            size: xu32(0),
            addrs: [0;NADDRS],
        };
        assert(din@ =~= fresh_dinode(f_type));
        assert(self@.disk =~= old(self)@.disk);
        match self.winode(inum, &din) {
            Err(e) => Err(e),
            Ok(()) => {
                proof {
                    let b = self@.disk[32 + inum as int / 8];
                    let at = 64 * (inum as int % 8);
                    assert(fields_at(b, at, din@));
                    assert forall|i: int| at + 12 <= i < at + 64 implies #[trigger] b[i] == 0 by {
                        let k = (i - at - 12) / 4;
                        assert(din@.addrs[k] == 0);
                        assert(word32(b, at + 12 + 4 * k) == 0);
                    }
                }
                Ok(inum)
            },
        }
    }

    /// Writes the bitmap block, with the first `used` blocks marked as allocated.
    #[verifier::rlimit(30)]
    pub fn balloc(&mut self, used: u32) -> (r: Result<(), Fault>)
        ensures
            (final(self)@, r) == mark_used(old(self)@, used as int),
            r is Ok <==> used < 4096,
            r is Err ==> r == Err::<(), Fault>(Fault::BitmapTooSmall) && final(self)@ == old(self)@,
            r is Ok ==> {
                &&& final(self)@.disk[58].len() == 512
                &&& forall|k: int, m: u8|
                    0 <= k < 512 && m < 8 ==> (#[trigger] final(self)@.disk[58][k] & #[trigger] (1u8
                        << m) != 0 <==> 8 * k + m < used)
                &&& forall|q: int|
                    0 <= q < old(self)@.disk.len() && q != 58 ==> #[trigger] final(self)@.disk[q]
                        == old(self)@.disk[q]
                &&& old(self)@.disk.len() > 58 ==> final(self)@.disk.len() == old(self)@.disk.len()
                &&& final(self)@.freeinode == old(self)@.freeinode
                &&& final(self)@.freeblock == old(self)@.freeblock
            },
    {
        if used >= BITMAP_BITS {
            return Err(Fault::BitmapTooSmall);
        }
        let mut buf: [u8; BLOCK] = [0;BLOCK];
        let mut i: u32 = 0;
        while i < used
            invariant
                i <= used < BITMAP_BITS,
                forall|k: int| 0 <= k < BLOCK ==> #[trigger] buf@[k] == bitmap_byte(i - 8 * k),
            decreases used - i,
        {
            let k: usize = (i / 8) as usize;
            let m: u8 = (i % 8) as u8;
            let x: u8 = buf[k];
            proof {
                assert(x == bitmap_byte(m as int));
                assert(m == 0 ==> x == 0);
                assert((1u8 << m) >= 1) by (bit_vector)
                    requires
                        m < 8,
                ;
                assert(0 < m ==> x == ((1u8 << m) - 1) as u8);
                assert(m < 7 ==> (x | (1u8 << m)) == ((1u8 << ((m + 1) as u8)) - 1) as u8)
                    by (bit_vector)
                    requires
                        m < 8,
                        m == 0 ==> x == 0,
                        0 < m ==> x == ((1u8 << m) - 1) as u8,
                ;
                assert(m == 7 ==> (x | (1u8 << m)) == 255) by (bit_vector)
                    requires
                        0 < m ==> x == ((1u8 << m) - 1) as u8,
                ;
            }
            buf[k] = x | (1u8 << m);
            i = i + 1;
        }
        assert(buf@ =~= bitmap(used as int));
        self.wsect(BMAPSTART, &buf);
        proof {
            assert forall|k: int, m: u8| 0 <= k < 512 && m < 8 implies (#[trigger] self@.disk[58][k]
                & #[trigger] (1u8 << m) != 0 <==> 8 * k + m < used) by {
                law_bitmap_marks_exactly_the_used(used as int, 8 * k + m);
                assert((8 * k + m) / 8 == k && (8 * k + m) % 8 == m);
            }
        }
        Ok(())
    }

    /// The block at a stored address; address 0 takes the next free block.
    fn claim_block(&mut self, addr: u32) -> (r: Result<u32, Fault>)
        ensures
            (r, final(self)@.freeblock) == claim(addr, old(self)@.freeblock),
            final(self)@.disk == old(self)@.disk,
            final(self)@.freeinode == old(self)@.freeinode,
    {
        if addr != 0 {
            Ok(addr)
        } else if self.freeblock == u32::MAX {
            Err(Fault::Overflow)
        } else {
            let x: u32 = self.freeblock;
            self.freeblock = x + 1;
            assert(self@.disk =~= old(self)@.disk);
            Ok(x)
        }
    }

    /// The block number of block `fbn` of the file, allocated where it is missing.
    fn bmap(&mut self, din: &mut Dinode, fbn: u32) -> (r: Result<u32, Fault>)
        requires
            fbn < MAXFILE,
        ensures
            (
                Cursor {
                    disk: final(self)@.disk,
                    din: final(din)@,
                    freeblock: final(self)@.freeblock,
                },
                r,
            ) == map_block(
                Cursor { disk: old(self)@.disk, din: old(din)@, freeblock: old(self)@.freeblock },
                fbn as int,
            ),
            final(self)@.freeinode == old(self)@.freeinode,
    {
        if fbn < NDIRECT {
            match self.claim_block(xu32(din.addrs[fbn as usize])) {
                Err(e) => Err(e),
                Ok(x) => {
                    din.addrs[fbn as usize] = xu32(x);
                    Ok(x)
                },
            }
        } else {
            let ib: u32 = match self.claim_block(xu32(din.addrs[NDIRECT as usize])) {
                Err(e) => {
                    return Err(e);
                },
                Ok(x) => x,
            };
            din.addrs[NDIRECT as usize] = xu32(ib);
            let mut indirect: [u8; BLOCK] = match self.rsect(ib) {
                Err(e) => {
                    return Err(e);
                },
                Ok(b) => b,
            };
            let at: usize = 4 * (fbn - NDIRECT) as usize;
            let entry: u32 = get32(&indirect, at);
            match self.claim_block(entry) {
                Err(e) => Err(e),
                Ok(x) => {
                    if entry == 0 {
                        put32(&mut indirect, at, xu32(x));
                        self.wsect(ib, &indirect);
                        assert(self@.disk =~= old(self)@.disk.update(ib as int, indirect@));
                    }
                    Ok(x)
                },
            }
        }
    }

    /// Writes the first `n` bytes of `xp` into the blocks of a file from byte `start` on.
    fn write_blocks(&mut self, din: &mut Dinode, start: u32, xp: &[u8], n: u32) -> (r: Result<
        (),
        Fault,
    >)
        requires
            n <= xp@.len(),
        ensures
            (
                Cursor {
                    disk: final(self)@.disk,
                    din: final(din)@,
                    freeblock: final(self)@.freeblock,
                },
                r,
            ) == append_run(
                Cursor { disk: old(self)@.disk, din: old(din)@, freeblock: old(self)@.freeblock },
                start as int,
                xp@.take(n as int),
            ),
            final(self)@.freeinode == old(self)@.freeinode,
            final(self)@.disk.len() == old(self)@.disk.len(),
            r is Ok ==> start + n <= u32::MAX,
    {
        let ghost data = xp@.take(n as int);
        let ghost c0 = Cursor { disk: self@.disk, din: din@, freeblock: self@.freeblock };
        let mut off: u32 = start;
        let mut done: u32 = 0;
        assert(data.skip(0) =~= data);
        while done < n
            invariant
                done <= n <= xp@.len(),
                data == xp@.take(n as int),
                off == start + done,
                c0 == (Cursor {
                    disk: old(self)@.disk,
                    din: old(din)@,
                    freeblock: old(self)@.freeblock,
                }),
                self@.freeinode == old(self)@.freeinode,
                self@.disk.len() == c0.disk.len(),
                append_run(c0, start as int, data) == append_run(
                    Cursor { disk: self@.disk, din: din@, freeblock: self@.freeblock },
                    off as int,
                    data.skip(done as int),
                ),
            decreases n - done,
        {
            let fbn: u32 = off / BSIZE;
            if fbn >= MAXFILE {
                return Err(Fault::FileTooLarge);
            }
            let x: u32 = match self.bmap(din, fbn) {
                Err(e) => {
                    return Err(e);
                },
                Ok(x) => x,
            };
            let at: u32 = off - fbn * BSIZE;
            let n1: u32 = if n - done < BSIZE - at {
                n - done
            } else {
                BSIZE - at
            };
            let mut buf: [u8; BLOCK] = match self.rsect(x) {
                Err(e) => {
                    return Err(e);
                },
                Ok(b) => b,
            };
            bcopy(xp, done as usize, &mut buf, at as usize, n1 as usize);
            let ghost before = self@.disk;
            self.wsect(x, &buf);
            proof {
                let rest = data.skip(done as int);
                assert(xp@.subrange(done as int, done + n1) =~= rest.take(n1 as int));
                assert(data.skip(done + n1) =~= rest.skip(n1 as int));
                assert(self@.disk =~= before.update(x as int, buf@));
            }
            done = done + n1;
            off = off + n1;
        }
        assert(data.skip(done as int).len() == 0);
        Ok(())
    }

    /// Appends the first `n` bytes of `xp` to the file with inode `inum`. In a sound
    /// image, the file then holds these bytes behind what it held before, or, where
    /// they do not fit, just what it held before; the other files stay as they are.
    #[verifier::rlimit(30)]
    pub fn iappend(&mut self, inum: u32, xp: &[u8], n: u32) -> (r: Result<(), Fault>)
        requires
            0 < xp@.len(),
            n <= xp@.len(),
        ensures
            (final(self)@, r) == append(old(self)@, inum as int, xp@.take(n as int)),
            sound(old(self)@) && live(old(self)@, inum as int) ==> {
                &&& r == append_outcome(
                    old(self)@.freeblock,
                    inode(old(self)@.disk, inum as int).size as int,
                    n as int,
                )
                &&& others_kept(old(self)@, final(self)@, inum as int)
                &&& r is Ok ==> sound(final(self)@) && contents(final(self)@.disk, inum as int)
                    == contents(old(self)@.disk, inum as int) + xp@.take(n as int)
                &&& r is Err ==> {
                    &&& inode(final(self)@.disk, inum as int) == inode(
                        old(self)@.disk,
                        inum as int,
                    )
                    &&& contents(final(self)@.disk, inum as int) == contents(
                        old(self)@.disk,
                        inum as int,
                    )
                }
            },
    {
        let ghost data = xp@.take(n as int);
        proof {
            if sound(self@) && live(self@, inum as int) {
                law_append(self@, inum as int, data);
            }
        }
        let mut din: Dinode = match self.rinode(inum) {
            Err(e) => {
                return Err(e);
            },
            Ok(d) => d,
        };
        let off: u32 = xu32(din.size);
        let r = self.write_blocks(&mut din, off, xp, n);
        match r {
            Err(e) => Err(e),
            Ok(()) => {
                assert(r->Ok_0 == ());
                let ghost last = din@;
                din.size = xu32(off + n);
                assert(din@ =~= with_size(last, (off + n) as u32));
                let w = self.winode(inum, &din);
                assert(w->Ok_0 == ());
                w
            },
        }
    }
}

} // verus!
