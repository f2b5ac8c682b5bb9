//! Directory entries.

use vstd::prelude::*;
use crate::bytes::{bytes16, le16, word16};
use crate::layout::{DIRENT_SIZE, DIRSIZ};

verus! {

/// One entry of a directory. A directory is a file that holds a sequence of them.
#[derive(Clone, Copy, Debug, PartialEq, Eq)]
pub struct Dirent {
    /// Inode number.
    pub inum: u16,
    /// Name, padded with zero bytes.
    pub name: [u8; DIRSIZ],
}

/// The bytes of a directory entry.
pub open spec fn dirent_bytes(inum: u16, name: Seq<u8>) -> Seq<u8> {
    le16(inum) + name
}

/// A byte string padded with zero bytes to the length of a name.
pub open spec fn padded(s: Seq<u8>) -> Seq<u8> {
    Seq::new(
        DIRSIZ as nat,
        |i: int|
            if i < s.len() {
                s[i]
            } else {
                0
            },
    )
}

/// The position at which the name proper starts: one leading underscore is skipped.
pub open spec fn name_start(fname: Seq<u8>) -> int {
    if fname.len() > 0 && fname[0] == 0x5f {
        1
    } else {
        0
    }
}

/// The part of a host file's name that is kept: without one leading underscore,
/// and without what lies past the thirteenth byte of the host name.
pub open spec fn kept_name(fname: Seq<u8>) -> Seq<u8> {
    fname.subrange(
        name_start(fname),
        if fname.len() < DIRSIZ {
            fname.len() as int
        } else {
            DIRSIZ - 1
        },
    )
}

/// Byte `i` of the name under which the host file `fname` is entered: the bytes of
/// the host name up to its thirteenth, without one leading underscore, then zeroes.
pub open spec fn name_byte(fname: Seq<u8>, i: int) -> u8 {
    let at = if fname[0] == 0x5f {
        i + 1
    } else {
        i
    };
    if at < fname.len() && at < 13 {
        fname[at]
    } else {
        0
    }
}

/// A padded string starts with the string, and goes on with zeroes.
pub proof fn law_padded(s: Seq<u8>)
    ensures
        padded(s).len() == 14,
        s.len() <= 14 ==> s.is_prefix_of(padded(s)),
        forall|i: int| 0 <= i < s.len() && i < 14 ==> #[trigger] padded(s)[i] == s[i],
        forall|i: int| s.len() <= i < 14 ==> #[trigger] padded(s)[i] == 0,
{
}

/// What is kept of a name is a first part of the name proper, cut behind the
/// thirteenth byte of the host name.
pub proof fn law_kept_name(fname: Seq<u8>)
    requires
        fname.len() > 0,
    ensures
        ({
            let proper = if fname[0] == 0x5f {
                fname.skip(1)
            } else {
                fname
            };
            let cut = if fname[0] == 0x5f {
                12int
            } else {
                13int
            };
            &&& kept_name(fname).is_prefix_of(proper)
            &&& proper.len() <= cut ==> kept_name(fname) == proper
            &&& proper.len() > cut ==> kept_name(fname).len() == cut
        }),
{
    let proper = if fname[0] == 0x5f {
        fname.skip(1)
    } else {
        fname
    };
    assert(kept_name(fname) =~= proper.take(kept_name(fname).len() as int));
    assert(proper.len() <= 12 ==> kept_name(fname) =~= proper);
    assert(fname[0] != 0x5f && proper.len() == 13 ==> kept_name(fname) =~= proper);
}

/// The stored name, byte by byte.
pub proof fn law_stored_name(fname: Seq<u8>, i: int)
    requires
        fname.len() > 0,
        0 <= i < DIRSIZ,
    ensures
        padded(kept_name(fname))[i] == name_byte(fname, i),
{
}

/// A name of at most twelve bytes is entered whole, also from behind an underscore.
pub proof fn law_underscore_is_dropped(fname: Seq<u8>)
    requires
        0 < fname.len() <= 12,
        fname[0] != 0x5f,
    ensures
        kept_name(seq![0x5fu8] + fname) == kept_name(fname),
        kept_name(fname) == fname,
{
    assert(kept_name(seq![0x5fu8] + fname) =~= fname);
    assert(kept_name(fname) =~= fname);
}

/// An entry holds the inode number in its first two bytes, and the name behind it.
pub proof fn law_dirent_bytes(inum: u16, name: Seq<u8>)
    ensures
        dirent_bytes(inum, name).len() == 2 + name.len(),
        word16(dirent_bytes(inum, name), 0) == inum,
        dirent_bytes(inum, name).skip(2) == name,
{
    assert(dirent_bytes(inum, name).skip(2) =~= name);
}

/// An entry with a padded name occupies exactly its share of a directory.
pub proof fn law_dirent_len(inum: u16, s: Seq<u8>)
    ensures
        dirent_bytes(inum, padded(s)).len() == DIRENT_SIZE,
{
}

/// A stored name always ends in a zero byte.
pub proof fn law_stored_name_is_terminated(fname: Seq<u8>)
    requires
        fname.len() > 0,
    ensures
        kept_name(fname).len() < DIRSIZ,
        padded(kept_name(fname)).len() == DIRSIZ,
        padded(kept_name(fname))[DIRSIZ - 1] == 0,
{
}

/// A name of at most thirteen bytes, the underscore counted, is kept whole.
pub proof fn law_short_name_is_kept(fname: Seq<u8>)
    requires
        0 < fname.len() < DIRSIZ,
    ensures
        fname[0] != 0x5f ==> kept_name(fname) == fname,
        fname[0] == 0x5f ==> kept_name(fname) == fname.skip(1),
{
    assert(fname.subrange(0, fname.len() as int) =~= fname);
    assert(fname.subrange(1, fname.len() as int) =~= fname.skip(1));
}

impl Dirent {
    /// The bytes of the entry as they are stored in a directory.
    pub fn to_bytes(&self) -> (r: [u8; DIRENT_SIZE])
        ensures
            r@ == dirent_bytes(self.inum, self.name@),
            r@[0] + 256 * r@[1] == self.inum,
            forall|i: int| 0 <= i < 14 ==> r@[i + 2] == #[trigger] self.name@[i],
    {
        let mut r: [u8; DIRENT_SIZE] = [0;DIRENT_SIZE];
        let x: [u8; 2] = bytes16(self.inum);
        r[0] = x[0];
        r[1] = x[1];
        let mut i: usize = 0;
        while i < DIRSIZ
            invariant
                i <= DIRSIZ,
                r@[0] == le16(self.inum)[0],
                r@[1] == le16(self.inum)[1],
                forall|j: int| 0 <= j < i ==> r@[j + 2] == self.name@[j],
            decreases DIRSIZ - i,
        {
            r[i + 2] = self.name[i];
            i = i + 1;
        }
        assert forall|j: int| 0 <= j < DIRENT_SIZE implies r@[j] == dirent_bytes(
            self.inum,
            self.name@,
        )[j] by {
            if j >= 2 {
                assert(r@[(j - 2) + 2] == self.name@[j - 2]);
            }
        }
        assert(r@ =~= dirent_bytes(self.inum, self.name@));
        r
    }
}

/// The name under which a host file is entered in the root directory.
pub fn entry_name(fname: &[u8]) -> (name: [u8; DIRSIZ])
    requires
        fname@.len() > 0,
    ensures
        name@ == padded(kept_name(fname@)),
        forall|i: int| 0 <= i < 14 ==> #[trigger] name@[i] == name_byte(fname@, i),
{
    let start: usize = if fname[0] == 0x5f {
        1
    } else {
        0
    };
    let mut name: [u8; DIRSIZ] = [0;DIRSIZ];
    let mut j: usize = start;
    while j < fname.len() && j < DIRSIZ - 1
        invariant
            start == name_start(fname@),
            start <= j <= fname@.len(),
            j <= DIRSIZ - 1,
            forall|i: int| 0 <= i < j - start ==> name@[i] == fname@[i + start],
            forall|i: int| j - start <= i < DIRSIZ ==> name@[i] == 0,
        decreases fname@.len() - j,
    {
        name[j - start] = fname[j];
        j = j + 1;
    }
    assert(name@ =~= padded(kept_name(fname@)));
    name
}

} // verus!
