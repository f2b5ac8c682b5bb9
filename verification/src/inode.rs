//! The on-disk inode.

use vstd::prelude::*;
use crate::bytes::{get16, get32, le16, le32, put16, put32, splice, u16_at, u32_at};
use crate::bytes::{word16, word32};
use crate::bytes::{law_u16_read_back, law_u16_write_back, law_u32_read_back, law_u32_write_back};
use crate::layout::{BLOCK, DINODE_SIZE, NADDRS};

verus! {

/// An inode as it is stored in the inode table.
#[derive(Clone, Copy, Debug, PartialEq, Eq)]
pub struct Dinode {
    /// File type.
    pub f_type: u16,
    /// Major device number (devices only).
    pub major: u16,
    /// Minor device number (devices only).
    pub minor: u16,
    /// Number of links to the inode.
    pub nlink: u16,
    /// Size of the file in bytes.
    pub size: u32,
    /// Data block addresses; the last one is that of the indirect block.
    pub addrs: [u32; NADDRS],
}

/// The values in an inode.
#[verifier::ext_equal]
pub struct DinodeView {
    /// File type.
    pub f_type: u16,
    /// Major device number.
    pub major: u16,
    /// Minor device number.
    pub minor: u16,
    /// Number of links.
    pub nlink: u16,
    /// Size in bytes.
    pub size: u32,
    /// Block addresses.
    pub addrs: Seq<u32>,
}

impl View for Dinode {
    type V = DinodeView;

    open spec fn view(&self) -> DinodeView {
        DinodeView {
            f_type: self.f_type,
            major: self.major,
            minor: self.minor,
            nlink: self.nlink,
            size: self.size,
            addrs: self.addrs@,
        }
    }
}

/// An inode of the given type with one link and no contents.
pub open spec fn fresh_dinode(f_type: u16) -> DinodeView {
    DinodeView {
        f_type,
        major: 0,
        minor: 0,
        nlink: 1,
        size: 0,
        addrs: Seq::new(NADDRS as nat, |k: int| 0u32),
    }
}

/// An inode that is free: every byte of it is zero.
pub open spec fn free_dinode() -> DinodeView {
    DinodeView {
        f_type: 0,
        major: 0,
        minor: 0,
        nlink: 0,
        size: 0,
        addrs: Seq::new(NADDRS as nat, |k: int| 0u32),
    }
}

/// The bytes of an inode: four 16-bit fields, the size, the addresses.
pub open spec fn dinode_bytes(d: DinodeView) -> Seq<u8> {
    le16(d.f_type) + le16(d.major) + le16(d.minor) + le16(d.nlink) + le32(d.size) + Seq::new(
        52,
        |i: int| le32(d.addrs[i / 4])[i % 4],
    )
}

/// The inode whose bytes start at `at`.
pub open spec fn dinode_at(b: Seq<u8>, at: int) -> DinodeView {
    DinodeView {
        f_type: u16_at(b, at),
        major: u16_at(b, at + 2),
        minor: u16_at(b, at + 4),
        nlink: u16_at(b, at + 6),
        size: u32_at(b, at + 8),
        addrs: Seq::new(NADDRS as nat, |k: int| u32_at(b, at + 12 + 4 * k)),
    }
}

/// A fresh inode has the type that is asked for, one link, and no contents.
pub proof fn law_fresh_dinode(f_type: u16)
    ensures
        ({
            let d = fresh_dinode(f_type);
            &&& d.f_type == f_type
            &&& d.major == 0 && d.minor == 0
            &&& d.nlink == 1
            &&& d.size == 0
            &&& d.addrs.len() == 13
            &&& forall|k: int| 0 <= k < 13 ==> #[trigger] d.addrs[k] == 0
        }),
{
}

/// The fields of `d` stand in the bytes from `at` on: type, device numbers and
/// links in two bytes each, the size in four, and thirteen addresses in four each.
pub open spec fn fields_at(b: Seq<u8>, at: int, d: DinodeView) -> bool {
    &&& word16(b, at) == d.f_type
    &&& word16(b, at + 2) == d.major
    &&& word16(b, at + 4) == d.minor
    &&& word16(b, at + 6) == d.nlink
    &&& word32(b, at + 8) == d.size
    &&& d.addrs.len() == 13
    &&& forall|k: int| 0 <= k < 13 ==> word32(b, at + 12 + 4 * k) == #[trigger] d.addrs[k]
}

/// What is read as an inode are the fields that stand there.
pub proof fn law_dinode_fields(b: Seq<u8>, at: int)
    ensures
        fields_at(b, at, dinode_at(b, at)),
        ({
            let d = dinode_at(b, at);
            &&& d.f_type == word16(b, at)
            &&& d.major == word16(b, at + 2)
            &&& d.minor == word16(b, at + 4)
            &&& d.nlink == word16(b, at + 6)
            &&& d.size == word32(b, at + 8)
            &&& d.addrs.len() == 13
            &&& forall|k: int| 0 <= k < 13 ==> #[trigger] d.addrs[k] == word32(b, at + 12 + 4 * k)
        }),
{
}

/// The bytes of an inode hold its fields.
pub proof fn law_dinode_bytes(d: DinodeView)
    requires
        d.addrs.len() == NADDRS,
    ensures
        ({
            let e = dinode_bytes(d);
            &&& e.len() == 64
            &&& word16(e, 0) == d.f_type
            &&& word16(e, 2) == d.major
            &&& word16(e, 4) == d.minor
            &&& word16(e, 6) == d.nlink
            &&& word32(e, 8) == d.size
            &&& forall|k: int| 0 <= k < 13 ==> word32(e, 12 + 4 * k) == #[trigger] d.addrs[k]
        }),
{
    let e = dinode_bytes(d);
    law_dinode_read_back(e, 0, d);
    assert(splice(e, 0, e) =~= e);
    law_dinode_fields(e, 0);
}

/// The bytes of a free inode are zeroes, and no other inode has these bytes.
pub proof fn law_free_dinode_is_zero(d: DinodeView)
    requires
        d.addrs.len() == NADDRS,
    ensures
        dinode_bytes(d) == Seq::new(DINODE_SIZE as nat, |i: int| 0u8) <==> d == free_dinode(),
{
    let zeroes = Seq::new(DINODE_SIZE as nat, |i: int| 0u8);
    assert(dinode_bytes(free_dinode()) =~= zeroes);
    if dinode_bytes(d) == zeroes {
        law_dinode_len(d);
        law_dinode_read_back(zeroes, 0, d);
        law_dinode_read_back(zeroes, 0, free_dinode());
    }
}

/// An inode occupies exactly its share of a block.
pub proof fn law_dinode_len(d: DinodeView)
    ensures
        dinode_bytes(d).len() == DINODE_SIZE,
{
}

/// An inode stored in a block is read back unchanged.
pub proof fn law_dinode_read_back(b: Seq<u8>, at: int, d: DinodeView)
    requires
        0 <= at,
        at + DINODE_SIZE <= b.len(),
        d.addrs.len() == NADDRS,
    ensures
        dinode_at(splice(b, at, dinode_bytes(d)), at) == d,
{
    let s = splice(b, at, dinode_bytes(d));
    let e = dinode_bytes(d);
    assert(forall|i: int| 0 <= i < 64 ==> s[at + i] == e[i]);
    law_u16_read_back(s, at, d.f_type);
    assert(e[2] == le16(d.major)[0] && e[3] == le16(d.major)[1]);
    law_u16_read_back(s, at + 2, d.major);
    assert(e[4] == le16(d.minor)[0] && e[5] == le16(d.minor)[1]);
    law_u16_read_back(s, at + 4, d.minor);
    assert(e[6] == le16(d.nlink)[0] && e[7] == le16(d.nlink)[1]);
    law_u16_read_back(s, at + 6, d.nlink);
    assert(s[at + 8] == e[8] && s[at + 9] == e[9] && s[at + 10] == e[10] && s[at + 11] == e[11]);
    law_u32_read_back(s, at + 8, d.size);
    assert forall|k: int| 0 <= k < NADDRS implies dinode_at(s, at).addrs[k] == d.addrs[k] by {
        assert forall|m: int| 0 <= m < 4 implies s[at + 12 + 4 * k + m] == le32(d.addrs[k])[m] by {
            assert(s[at + (12 + 4 * k + m)] == e[12 + 4 * k + m]);
            assert((4 * k + m) / 4 == k && (4 * k + m) % 4 == m);
        }
        assert(s[at + 12 + 4 * k + 0] == le32(d.addrs[k])[0]);
        assert(s[at + 12 + 4 * k + 1] == le32(d.addrs[k])[1]);
        assert(s[at + 12 + 4 * k + 2] == le32(d.addrs[k])[2]);
        assert(s[at + 12 + 4 * k + 3] == le32(d.addrs[k])[3]);
        law_u32_read_back(s, at + 12 + 4 * k, d.addrs[k]);
    }
    assert(dinode_at(s, at) =~= d);
}

/// Storing an inode that was just read changes nothing.
pub proof fn law_dinode_write_back(b: Seq<u8>, at: int)
    requires
        0 <= at,
        at + DINODE_SIZE <= b.len(),
    ensures
        splice(b, at, dinode_bytes(dinode_at(b, at))) == b,
{
    let d = dinode_at(b, at);
    let e = dinode_bytes(d);
    law_u16_write_back(b, at);
    law_u16_write_back(b, at + 2);
    law_u16_write_back(b, at + 4);
    law_u16_write_back(b, at + 6);
    law_u32_write_back(b, at + 8);
    assert forall|i: int| 0 <= i < DINODE_SIZE implies e[i] == b[at + i] by {
        if i >= 12 {
            let k = (i - 12) / 4;
            law_u32_write_back(b, at + 12 + 4 * k);
            assert(d.addrs[k] == u32_at(b, at + 12 + 4 * k));
            assert(e[i] == le32(d.addrs[k])[(i - 12) % 4]);
            assert(at + i == at + 12 + 4 * k + (i - 12) % 4);
        }
    }
    assert(splice(b, at, e) =~= b);
}

/// What is read as an inode depends on the bytes of that inode alone.
pub proof fn law_dinode_depends_on_own_bytes(a: Seq<u8>, b: Seq<u8>, at: int)
    requires
        forall|i: int| at <= i < at + DINODE_SIZE ==> a[i] == b[i],
    ensures
        dinode_at(a, at) == dinode_at(b, at),
{
    assert(dinode_at(a, at) =~= dinode_at(b, at));
}

/// Stores `ip` in the block from `at` on.
pub fn put_dinode(b: &mut [u8; BLOCK], at: usize, ip: &Dinode)
    requires
        at + DINODE_SIZE <= BLOCK,
    ensures
        final(b)@ == splice(old(b)@, at as int, dinode_bytes(ip@)),
        fields_at(final(b)@, at as int, ip@),
        forall|i: int|
            0 <= i < BLOCK && !(at <= i < at + 64) ==> #[trigger] final(b)@[i] == old(b)@[i],
{
    let ghost e = dinode_bytes(ip@);
    put16(b, at, ip.f_type);
    put16(b, at + 2, ip.major);
    put16(b, at + 4, ip.minor);
    put16(b, at + 6, ip.nlink);
    put32(b, at + 8, ip.size);
    let mut k: usize = 0;
    while k < NADDRS
        invariant
            k <= NADDRS,
            at + DINODE_SIZE <= BLOCK,
            e == dinode_bytes(ip@),
            forall|i: int|
                0 <= i < BLOCK ==> b@[i] == if at <= i < at + 12 + 4 * k {
                    e[i - at]
                } else {
                    old(b)@[i]
                },
        decreases NADDRS - k,
    {
        let ghost before = b@;
        put32(b, at + 12 + 4 * k, ip.addrs[k]);
        proof {
            assert forall|i: int| at + 12 + 4 * k <= i < at + 16 + 4 * k implies b@[i] == e[i
                - at] by {
                let m = i - (at + 12 + 4 * k);
                assert((4 * k + m) / 4 == k as int && (4 * k + m) % 4 == m);
            }
        }
        k = k + 1;
    }
    assert(b@ =~= splice(old(b)@, at as int, e));
    proof {
        law_dinode_read_back(old(b)@, at as int, ip@);
        law_dinode_fields(b@, at as int);
    }
}

/// The inode stored in the block from `at` on.
pub fn get_dinode(b: &[u8; BLOCK], at: usize) -> (d: Dinode)
    requires
        at + DINODE_SIZE <= BLOCK,
    ensures
        d@ == dinode_at(b@, at as int),
        fields_at(b@, at as int, d@),
{
    let mut addrs: [u32; NADDRS] = [0;NADDRS];
    let mut k: usize = 0;
    while k < NADDRS
        invariant
            k <= NADDRS,
            at + DINODE_SIZE <= BLOCK,
            forall|j: int| 0 <= j < k ==> addrs@[j] == u32_at(b@, at + 12 + 4 * j),
        decreases NADDRS - k,
    {
        addrs[k] = get32(b, at + 12 + 4 * k);
        k = k + 1;
    }
    let d = Dinode {
        f_type: get16(b, at),
        major: get16(b, at + 2),
        minor: get16(b, at + 4),
        nlink: get16(b, at + 6),
        size: get32(b, at + 8),
        addrs,
    };
    assert(d@ =~= dinode_at(b@, at as int));
    d
}

} // verus!
