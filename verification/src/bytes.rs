//! Little-endian numbers inside blocks, and copying into blocks.

use vstd::prelude::*;
use crate::layout::BLOCK;

verus! {

/// The two bytes of `v`, least significant first.
pub open spec fn le16(v: u16) -> Seq<u8> {
    seq![(v % 256) as u8, (v / 256) as u8]
}

/// The four bytes of `v`, least significant first.
pub open spec fn le32(v: u32) -> Seq<u8> {
    seq![
        (v % 256) as u8,
        (v / 256 % 256) as u8,
        (v / 65536 % 256) as u8,
        (v / 16777216) as u8,
    ]
}

/// The number that the two bytes from `at` on stand for.
pub open spec fn u16_at(b: Seq<u8>, at: int) -> u16 {
    (b[at] + 256 * b[at + 1]) as u16
}

/// The number that the four bytes from `at` on stand for.
pub open spec fn u32_at(b: Seq<u8>, at: int) -> u32 {
    (b[at] + 256 * b[at + 1] + 65536 * b[at + 2] + 16777216 * b[at + 3]) as u32
}

/// `b` with the bytes from `at` on replaced by `new`.
pub open spec fn splice(b: Seq<u8>, at: int, new: Seq<u8>) -> Seq<u8> {
    Seq::new(
        b.len(),
        |i: int|
            if at <= i < at + new.len() {
                new[i - at]
            } else {
                b[i]
            },
    )
}

/// The value of the two bytes from `at` on, the first one counting least.
pub open spec fn word16(b: Seq<u8>, at: int) -> int {
    b[at] + 256 * b[at + 1]
}

/// The value of the four bytes from `at` on, the first one counting least.
pub open spec fn word32(b: Seq<u8>, at: int) -> int {
    b[at] + 256 * (b[at + 1] + 256 * (b[at + 2] + 256 * b[at + 3]))
}

/// A stored number takes two bytes, and these have its value.
pub proof fn law_le16_value(v: u16)
    ensures
        le16(v).len() == 2,
        word16(le16(v), 0) == v,
{
}

/// A stored number takes four bytes, and these have its value.
pub proof fn law_le32_value(v: u32)
    ensures
        le32(v).len() == 4,
        word32(le32(v), 0) == v,
{
}

/// A number that is read has the value of its bytes.
pub proof fn law_read_value(b: Seq<u8>, at: int)
    ensures
        u16_at(b, at) == word16(b, at),
        u32_at(b, at) == word32(b, at),
{
}

/// Replacing bytes changes those bytes and no others.
pub proof fn law_splice(b: Seq<u8>, at: int, new: Seq<u8>, i: int)
    requires
        0 <= at,
        at + new.len() <= b.len(),
        0 <= i < b.len(),
    ensures
        splice(b, at, new).len() == b.len(),
        i < at || at + new.len() <= i ==> splice(b, at, new)[i] == b[i],
        splice(b, at, new).subrange(at, at + new.len()) == new,
{
    assert(splice(b, at, new).subrange(at, at + new.len()) =~= new);
}

/// Reading a number back from the bytes it was stored in.
pub proof fn law_u16_read_back(b: Seq<u8>, at: int, v: u16)
    requires
        b[at] == le16(v)[0],
        b[at + 1] == le16(v)[1],
    ensures
        u16_at(b, at) == v,
{
}

/// Reading a number back from the bytes it was stored in.
pub proof fn law_u32_read_back(b: Seq<u8>, at: int, v: u32)
    requires
        b[at] == le32(v)[0],
        b[at + 1] == le32(v)[1],
        b[at + 2] == le32(v)[2],
        b[at + 3] == le32(v)[3],
    ensures
        u32_at(b, at) == v,
{
}

/// Storing a number that was just read changes nothing.
pub proof fn law_u16_write_back(b: Seq<u8>, at: int)
    ensures
        le16(u16_at(b, at))[0] == b[at],
        le16(u16_at(b, at))[1] == b[at + 1],
{
}

/// Storing a number that was just read changes nothing.
pub proof fn law_u32_write_back(b: Seq<u8>, at: int)
    ensures
        le32(u32_at(b, at))[0] == b[at],
        le32(u32_at(b, at))[1] == b[at + 1],
        le32(u32_at(b, at))[2] == b[at + 2],
        le32(u32_at(b, at))[3] == b[at + 3],
{
    let v = u32_at(b, at);
    let high = b[at + 1] + 256 * (b[at + 2] + 256 * b[at + 3]);
    assert(v == b[at] + 256 * high);
    assert(v / 256 == high);
    assert(v / 65536 == b[at + 2] + 256 * b[at + 3]);
}

/// The two bytes of `v`, least significant first.
pub fn bytes16(v: u16) -> (r: [u8; 2])
    ensures
        r@ == le16(v),
        r@[0] + 256 * r@[1] == v,
{
    let lo: u8 = (v & 0xff) as u8;
    let hi: u8 = (v >> 8) as u8;
    assert(v & 0xff == v % 256) by (bit_vector);
    assert(v >> 8 == v / 256) by (bit_vector);
    [lo, hi]
}

/// The four bytes of `v`, least significant first.
pub fn bytes32(v: u32) -> (r: [u8; 4])
    ensures
        r@ == le32(v),
        r@[0] + 256 * (r@[1] + 256 * (r@[2] + 256 * r@[3])) == v,
{
    assert(v & 0xff == v % 256) by (bit_vector);
    assert((v >> 8) & 0xff == v / 256 % 256) by (bit_vector);
    assert((v >> 16) & 0xff == v / 65536 % 256) by (bit_vector);
    assert(v >> 24 == v / 16777216) by (bit_vector);
    [(v & 0xff) as u8, ((v >> 8) & 0xff) as u8, ((v >> 16) & 0xff) as u8, (v >> 24) as u8]
}

/// The number with these two bytes, least significant first.
pub fn value16(b0: u8, b1: u8) -> (r: u16)
    ensures
        r == b0 + 256 * b1,
{
    b0 as u16 + 256 * (b1 as u16)
}

/// The number with these four bytes, least significant first.
pub fn value32(b0: u8, b1: u8, b2: u8, b3: u8) -> (r: u32)
    ensures
        r == b0 + 256 * b1 + 65536 * b2 + 16777216 * b3,
{
    b0 as u32 + 256 * (b1 as u32) + 65536 * (b2 as u32) + 16777216 * (b3 as u32)
}

/// Intel byte order: the number that a little-endian machine reads from the
/// bytes of `src` laid out least significant first.
pub fn xu16(src: u16) -> (dest: u16)
    ensures
        dest == u16_at(le16(src), 0),
        dest == src,
{
    let b: [u8; 2] = bytes16(src);
    value16(b[0], b[1])
}

/// Intel byte order: the number that a little-endian machine reads from the
/// bytes of `src` laid out least significant first.
pub fn xu32(src: u32) -> (dest: u32)
    ensures
        dest == u32_at(le32(src), 0),
        dest == src,
{
    let b: [u8; 4] = bytes32(src);
    value32(b[0], b[1], b[2], b[3])
}

/// Copies `length` bytes of `source` from `from` on over the bytes of `dest`
/// from `to` on.
pub fn bcopy(source: &[u8], from: usize, dest: &mut [u8; BLOCK], to: usize, length: usize)
    requires
        from + length <= source@.len(),
        to + length <= BLOCK,
    ensures
        final(dest)@ == splice(
            old(dest)@,
            to as int,
            source@.subrange(from as int, from + length),
        ),
        forall|i: int|
            0 <= i < BLOCK ==> final(dest)@[i] == if to <= i < to + length {
                source@[from + i - to]
            } else {
                old(dest)@[i]
            },
{
    let mut i: usize = 0;
    assert(source@.len() == source.len());
    while i < length
        invariant
            i <= length,
            from + length <= source@.len() <= usize::MAX,
            to + length <= BLOCK,
            dest@ == splice(old(dest)@, to as int, source@.subrange(from as int, from + i)),
        decreases length - i,
    {
        dest[to + i] = source[from + i];
        i = i + 1;
    }
}

/// The number stored at `at`.
pub fn get16(b: &[u8; BLOCK], at: usize) -> (v: u16)
    requires
        at + 2 <= BLOCK,
    ensures
        v == u16_at(b@, at as int),
        v == b@[at as int] + 256 * b@[at + 1],
{
    value16(b[at], b[at + 1])
}

/// The number stored at `at`.
pub fn get32(b: &[u8; BLOCK], at: usize) -> (v: u32)
    requires
        at + 4 <= BLOCK,
    ensures
        v == u32_at(b@, at as int),
        v == b@[at as int] + 256 * (b@[at + 1] + 256 * (b@[at + 2] + 256 * b@[at + 3])),
{
    value32(b[at], b[at + 1], b[at + 2], b[at + 3])
}

/// Stores `v` at `at`.
pub fn put16(b: &mut [u8; BLOCK], at: usize, v: u16)
    requires
        at + 2 <= BLOCK,
    ensures
        final(b)@ == splice(old(b)@, at as int, le16(v)),
        word16(final(b)@, at as int) == v,
        forall|i: int|
            0 <= i < BLOCK && !(at <= i < at + 2) ==> #[trigger] final(b)@[i] == old(b)@[i],
{
    let x: [u8; 2] = bytes16(v);
    b[at] = x[0];
    b[at + 1] = x[1];
}

/// Stores `v` at `at`.
pub fn put32(b: &mut [u8; BLOCK], at: usize, v: u32)
    requires
        at + 4 <= BLOCK,
    ensures
        final(b)@ == splice(old(b)@, at as int, le32(v)),
        word32(final(b)@, at as int) == v,
        forall|i: int|
            0 <= i < BLOCK && !(at <= i < at + 4) ==> #[trigger] final(b)@[i] == old(b)@[i],
{
    let x: [u8; 4] = bytes32(v);
    b[at] = x[0];
    b[at + 1] = x[1];
    b[at + 2] = x[2];
    b[at + 3] = x[3];
}

} // verus!
