use mkfs::bytes::{bcopy, bytes16, bytes32, get16, get32, put16, put32, value16, value32, xu16, xu32};
use mkfs::dirent::{entry_name, Dirent};
use mkfs::inode::{get_dinode, put_dinode, Dinode};

#[test]
fn test_xu16() {
    assert_eq!(xu16(10), 10);
    assert_eq!(xu16(500), 500);
}

#[test]
fn test_xu32() {
    assert_eq!(xu32(10), 10);
    assert_eq!(xu32(500), 500);
}

#[test]
fn numbers_are_little_endian() {
    assert_eq!(bytes16(0x1234), [0x34, 0x12]);
    assert_eq!(bytes32(0x12345678), [0x78, 0x56, 0x34, 0x12]);
    assert_eq!(value16(0x34, 0x12), 0x1234);
    assert_eq!(value32(0x78, 0x56, 0x34, 0x12), 0x12345678);
    assert_eq!(xu32(u32::MAX), u32::MAX);
    assert_eq!(xu16(u16::MAX), u16::MAX);
}

#[test]
fn numbers_are_read_back() {
    let mut b = [7u8; 512];
    put16(&mut b, 3, 0xabcd);
    put32(&mut b, 508, 0xdeadbeef);
    assert_eq!(get16(&b, 3), 0xabcd);
    assert_eq!(get32(&b, 508), 0xdeadbeef);
    assert_eq!(b[2], 7);
    assert_eq!(b[3], 0xcd);
    assert_eq!(b[4], 0xab);
    assert_eq!(b[5], 7);
    assert_eq!(b[507], 7);
    assert_eq!(b[511], 0xde);
}

#[test]
fn bcopy_overwrites_only_its_range() {
    let source = [1u8, 2, 3, 4, 5];
    let mut dest = [9u8; 512];
    bcopy(&source, 1, &mut dest, 510, 2);
    assert_eq!(&dest[508..], &[9, 9, 2, 3]);
    bcopy(&source, 5, &mut dest, 512, 0);
    assert_eq!(&dest[508..], &[9, 9, 2, 3]);
}

fn sample() -> Dinode {
    let mut addrs = [0u32; 13];
    for k in 0..13 {
        addrs[k] = 0x01020300 + k as u32;
    }
    Dinode { f_type: 2, major: 3, minor: 0x0405, nlink: 1, size: 0x11223344, addrs }
}

#[test]
fn inode_bytes() {
    let mut b = [0u8; 512];
    put_dinode(&mut b, 64, &sample());
    assert_eq!(
        &b[64..84],
        &[2, 0, 3, 0, 5, 4, 1, 0, 0x44, 0x33, 0x22, 0x11, 0, 3, 2, 1, 1, 3, 2, 1]
    );
    assert_eq!(&b[124..128], &[12, 3, 2, 1]);
    assert!(b[..64].iter().all(|x| *x == 0));
    assert!(b[128..].iter().all(|x| *x == 0));
    assert_eq!(get_dinode(&b, 64), sample());
}

#[test]
fn neighbouring_inode_is_untouched() {
    let mut b = [0u8; 512];
    put_dinode(&mut b, 0, &sample());
    let other = Dinode { size: 5, ..sample() };
    put_dinode(&mut b, 64, &other);
    assert_eq!(get_dinode(&b, 0), sample());
    assert_eq!(get_dinode(&b, 64), other);
}

#[test]
fn dirent_layout() {
    let mut name = [0u8; 14];
    name[0] = b'.';
    let de = Dirent { inum: 0x0201, name };
    let b = de.to_bytes();
    assert_eq!(b.len(), 16);
    assert_eq!(&b[..4], &[1, 2, b'.', 0]);
}

#[test]
fn leading_underscore_is_skipped() {
    assert_eq!(&entry_name(b"_cat"), b"cat\0\0\0\0\0\0\0\0\0\0\0");
    assert_eq!(&entry_name(b"README"), b"README\0\0\0\0\0\0\0\0");
    assert_eq!(&entry_name(b"__x"), b"_x\0\0\0\0\0\0\0\0\0\0\0\0");
    assert_eq!(entry_name(b"_"), [0u8; 14]);
}

#[test]
fn long_names_are_cut() {
    assert_eq!(&entry_name(b"abcdefghijklm"), b"abcdefghijklm\0");
    assert_eq!(&entry_name(b"abcdefghijklmnop"), b"abcdefghijklm\0");
    assert_eq!(&entry_name(b"_abcdefghijklmnop"), b"abcdefghijkl\0\0");
}
