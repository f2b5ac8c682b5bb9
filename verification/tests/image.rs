use mkfs::image::{Fault, Image};
use mkfs::inode::Dinode;
use mkfs::layout::{T_DIR, T_FILE};

fn all_sectors(image: &Image) -> Vec<[u8; 512]> {
    (0..image.len() as u32).map(|s| image.rsect(s).unwrap()).collect()
}

fn word(b: &[u8; 512], at: usize) -> u32 {
    u32::from_le_bytes([b[at], b[at + 1], b[at + 2], b[at + 3]])
}

/// The bytes of a file, followed through its inode.
fn contents(image: &Image, inum: u32) -> Vec<u8> {
    let d = image.rinode(inum).unwrap();
    let mut out = Vec::new();
    let mut fbn: usize = 0;
    while out.len() < d.size as usize {
        let x = if fbn < 12 {
            d.addrs[fbn]
        } else {
            word(&image.rsect(d.addrs[12]).unwrap(), 4 * (fbn - 12))
        };
        out.extend_from_slice(&image.rsect(x).unwrap());
        fbn += 1;
    }
    out.truncate(d.size as usize);
    out
}

fn pattern(n: usize, seed: usize) -> Vec<u8> {
    (0..n).map(|i| ((i * 31 + seed * 17 + i / 512) % 251) as u8).collect()
}

fn put(image: &mut Image, inum: u32, data: &[u8]) -> Result<(), Fault> {
    image.iappend(inum, data, data.len() as u32)
}

#[test]
fn sectors_are_read_back() {
    let mut image = Image::empty();
    assert_eq!(image.len(), 0);
    assert_eq!(image.rsect(0), Err(Fault::BadSector));
    image.wsect(3, &[5u8; 512]);
    assert_eq!(image.len(), 4);
    assert_eq!(image.rsect(3), Ok([5u8; 512]));
    assert_eq!(image.rsect(1), Ok([0u8; 512]));
    image.wsect(1, &[6u8; 512]);
    assert_eq!(image.len(), 4);
    assert_eq!(image.rsect(1), Ok([6u8; 512]));
    assert_eq!(image.rsect(3), Ok([5u8; 512]));
    assert_eq!(image.rsect(4), Err(Fault::BadSector));
    assert_eq!(image.rsect(u32::MAX), Err(Fault::BadSector));
}

#[test]
fn blank_image() {
    let image = Image::new();
    assert_eq!(image.len(), 2000);
    assert_eq!(image.freeblock(), 59);
    let sb = image.rsect(1).unwrap();
    let words: Vec<u32> = (0..7).map(|k| word(&sb, 4 * k)).collect();
    assert_eq!(words, vec![2000, 1941, 200, 30, 2, 32, 58]);
    assert!(sb[28..].iter().all(|x| *x == 0));
    for s in 0..2000 {
        if s != 1 {
            assert_eq!(image.rsect(s), Ok([0u8; 512]));
        }
    }
}

#[test]
fn inodes_are_numbered_from_one() {
    let mut image = Image::new();
    assert_eq!(image.ialloc(T_DIR), Ok(1));
    assert_eq!(image.ialloc(T_FILE), Ok(2));
    assert_eq!(
        image.rinode(1),
        Ok(Dinode { f_type: 1, major: 0, minor: 0, nlink: 1, size: 0, addrs: [0; 13] })
    );
    assert_eq!(image.rinode(2).unwrap().f_type, 2);
    let table = image.rsect(32).unwrap();
    assert_eq!(&table[64..72], &[1, 0, 0, 0, 0, 0, 1, 0]);
    assert_eq!(&table[128..136], &[2, 0, 0, 0, 0, 0, 1, 0]);
}

#[test]
fn inodes_are_read_back_and_kept_apart() {
    let mut image = Image::new();
    for i in 0..208u32 {
        let d = Dinode { f_type: 2, major: 1, minor: 2, nlink: 3, size: i, addrs: [i; 13] };
        assert_eq!(image.winode(i, &d), Ok(()));
    }
    for i in 0..208u32 {
        let d = Dinode { f_type: 2, major: 1, minor: 2, nlink: 3, size: i, addrs: [i; 13] };
        assert_eq!(image.rinode(i), Ok(d));
    }
    assert_eq!(image.rsect(31), Ok([0u8; 512]));
    assert_eq!(image.rsect(58), Ok([0u8; 512]));
}

#[test]
fn inodes_outside_the_image_are_refused() {
    let mut image = Image::empty();
    assert_eq!(image.ialloc(T_FILE), Err(Fault::BadSector));
    assert_eq!(image.rinode(1), Err(Fault::BadSector));
    let d = Dinode { f_type: 2, major: 0, minor: 0, nlink: 1, size: 0, addrs: [0; 13] };
    assert_eq!(image.winode(1, &d), Err(Fault::BadSector));
    assert_eq!(put(&mut image, 1, b"x"), Err(Fault::BadSector));
    assert_eq!(image.len(), 0);
    let full = Image::new();
    assert!(full.rinode(15743).is_ok());
    assert_eq!(full.rinode(15744), Err(Fault::BadSector));
}

#[test]
fn bitmap_marks_the_first_blocks() {
    let mut image = Image::new();
    assert_eq!(image.balloc(60), Ok(()));
    let b = image.rsect(58).unwrap();
    assert_eq!(&b[..9], &[255, 255, 255, 255, 255, 255, 255, 15, 0]);
    assert!(b[8..].iter().all(|x| *x == 0));
    assert_eq!(image.balloc(0), Ok(()));
    assert_eq!(image.rsect(58), Ok([0u8; 512]));
    assert_eq!(image.balloc(4095), Ok(()));
    let b = image.rsect(58).unwrap();
    assert!(b[..511].iter().all(|x| *x == 255));
    assert_eq!(b[511], 127);
    assert_eq!(image.balloc(4096), Err(Fault::BitmapTooSmall));
    assert_eq!(image.rsect(58), Ok(b));
}

#[test]
fn append_small() {
    let mut image = Image::new();
    image.ialloc(T_FILE).unwrap();
    assert_eq!(image.iappend(1, b"hello world", 5), Ok(()));
    assert_eq!(put(&mut image, 1, b", world"), Ok(()));
    assert_eq!(contents(&image, 1), b"hello, world");
    let d = image.rinode(1).unwrap();
    assert_eq!(d.size, 12);
    assert_eq!(d.addrs[0], 59);
    assert!(d.addrs[1..].iter().all(|a| *a == 0));
    assert_eq!(image.freeblock(), 60);
    let b = image.rsect(59).unwrap();
    assert_eq!(&b[..12], b"hello, world");
    assert!(b[12..].iter().all(|x| *x == 0));
}

#[test]
fn append_nothing() {
    let mut image = Image::new();
    image.ialloc(T_FILE).unwrap();
    let before = all_sectors(&image);
    assert_eq!(image.iappend(1, b"x", 0), Ok(()));
    assert_eq!(all_sectors(&image), before);
    assert_eq!(image.freeblock(), 59);
}

#[test]
fn append_past_the_direct_blocks() {
    let mut image = Image::new();
    image.ialloc(T_FILE).unwrap();
    let data = pattern(14 * 512 + 7, 1);
    assert_eq!(put(&mut image, 1, &data), Ok(()));
    assert_eq!(contents(&image, 1), data);
    let d = image.rinode(1).unwrap();
    for k in 0..12 {
        assert_eq!(d.addrs[k], 59 + k as u32);
    }
    // The indirect block comes before the first block that needs it.
    assert_eq!(d.addrs[12], 71);
    let table = image.rsect(71).unwrap();
    assert_eq!(word(&table, 0), 72);
    assert_eq!(word(&table, 4), 73);
    assert_eq!(word(&table, 8), 74);
    assert_eq!(word(&table, 12), 0);
    assert_eq!(image.freeblock(), 75);
}

#[test]
fn division_into_calls_does_not_matter() {
    let data = pattern(20000, 3);
    let mut whole = Image::new();
    whole.ialloc(T_FILE).unwrap();
    assert_eq!(put(&mut whole, 1, &data), Ok(()));
    for step in [1usize, 7, 100, 511, 512, 513, 5000] {
        let mut parts = Image::new();
        parts.ialloc(T_FILE).unwrap();
        for piece in data.chunks(step) {
            assert_eq!(put(&mut parts, 1, piece), Ok(()));
        }
        assert_eq!(parts.freeblock(), whole.freeblock());
        assert_eq!(all_sectors(&parts), all_sectors(&whole));
    }
}

#[test]
fn files_do_not_disturb_each_other() {
    let mut image = Image::new();
    for _ in 0..3 {
        image.ialloc(T_FILE).unwrap();
    }
    let mut expected: Vec<Vec<u8>> = vec![Vec::new(); 3];
    for round in 0..60usize {
        for f in 0..3usize {
            let piece = pattern(1 + (round * 37 + f * 101) % 700, round + f);
            assert_eq!(put(&mut image, f as u32 + 1, &piece), Ok(()));
            expected[f].extend_from_slice(&piece);
        }
    }
    for f in 0..3usize {
        assert_eq!(contents(&image, f as u32 + 1), expected[f]);
    }
}

#[test]
fn largest_file() {
    let mut image = Image::new();
    image.ialloc(T_FILE).unwrap();
    let data = pattern(71680, 5);
    assert_eq!(put(&mut image, 1, &data), Ok(()));
    assert_eq!(contents(&image, 1), data);
    assert_eq!(image.freeblock(), 59 + 141);
    assert_eq!(put(&mut image, 1, b"x"), Err(Fault::FileTooLarge));
    assert_eq!(contents(&image, 1), data);
}

#[test]
fn too_large_file_stops_at_the_limit() {
    let mut image = Image::new();
    image.ialloc(T_FILE).unwrap();
    let data = pattern(71681, 5);
    assert_eq!(put(&mut image, 1, &data), Err(Fault::FileTooLarge));
    assert_eq!(image.rinode(1).unwrap().size, 0);
    assert_eq!(image.freeblock(), 59 + 141);
    assert_eq!(&image.rsect(59).unwrap()[..], &data[..512]);
}

#[test]
fn full_image() {
    let mut image = Image::new();
    for f in 1..=14u32 {
        assert_eq!(image.ialloc(T_FILE), Ok(f));
    }
    // Thirteen largest files own 141 blocks each; 108 blocks are left.
    for f in 1..=13u32 {
        assert_eq!(put(&mut image, f, &pattern(71680, f as usize)), Ok(()));
    }
    assert_eq!(image.freeblock(), 59 + 13 * 141);
    // 107 data blocks and the indirect block fill the image.
    let rest = pattern(107 * 512, 99);
    assert_eq!(put(&mut image, 14, &rest), Ok(()));
    assert_eq!(image.freeblock(), 2000);
    assert_eq!(put(&mut image, 14, b"x"), Err(Fault::BadSector));
    assert_eq!(contents(&image, 14), rest);
    assert_eq!(contents(&image, 13), pattern(71680, 13));
}

#[test]
fn failed_append_leaves_the_files() {
    let mut image = Image::new();
    for f in 1..=15u32 {
        assert_eq!(image.ialloc(T_FILE), Ok(f));
    }
    for f in 1..=13u32 {
        put(&mut image, f, &pattern(71680, f as usize)).unwrap();
    }
    // 108 blocks are left: one for each of these two, 106 to go on with.
    put(&mut image, 14, &pattern(100, 14)).unwrap();
    put(&mut image, 15, &pattern(300, 15)).unwrap();
    assert_eq!(image.freeblock(), 1894);
    let inodes: Vec<Dinode> = (1..=15).map(|f| image.rinode(f).unwrap()).collect();
    // The rest of the block and 107 blocks more, an indirect one not counted.
    assert_eq!(put(&mut image, 14, &pattern(412 + 107 * 512, 7)), Err(Fault::BadSector));
    assert_eq!(image.len(), 2000);
    for f in 1..=15u32 {
        assert_eq!(image.rinode(f), Ok(inodes[f as usize - 1].clone()));
    }
    for f in 1..=13u32 {
        assert_eq!(contents(&image, f), pattern(71680, f as usize));
    }
    assert_eq!(contents(&image, 14), pattern(100, 14));
    assert_eq!(contents(&image, 15), pattern(300, 15));
}

#[test]
fn failed_append_keeps_the_indirect_addresses() {
    let mut image = Image::new();
    image.ialloc(T_FILE).unwrap();
    let data = pattern(7000, 3);
    put(&mut image, 1, &data).unwrap();
    let before = image.rinode(1).unwrap();
    assert_eq!(put(&mut image, 1, &pattern(70000, 4)), Err(Fault::FileTooLarge));
    assert_eq!(image.rinode(1), Ok(before));
    assert_eq!(contents(&image, 1), data);
    assert_eq!(image.len(), 2000);
}

#[test]
fn blocks_are_taken_in_order() {
    let mut image = Image::new();
    image.ialloc(T_FILE).unwrap();
    image.ialloc(T_FILE).unwrap();
    put(&mut image, 1, &pattern(5 * 512, 1)).unwrap();
    put(&mut image, 2, &pattern(10, 2)).unwrap();
    assert_eq!(image.freeblock(), 65);
    // Ten blocks more: blocks 5 to 11, the indirect block, blocks 12 to 14.
    put(&mut image, 1, &pattern(10 * 512, 3)).unwrap();
    let d = image.rinode(1).unwrap();
    assert_eq!(d.addrs, [59, 60, 61, 62, 63, 65, 66, 67, 68, 69, 70, 71, 72]);
    let table = image.rsect(72).unwrap();
    let entries: Vec<u32> = (0..4).map(|k| word(&table, 4 * k)).collect();
    assert_eq!(entries, [73, 74, 75, 0]);
    // Behind the indirect block that is there already, no other is taken.
    put(&mut image, 1, &pattern(512, 4)).unwrap();
    assert_eq!(word(&image.rsect(72).unwrap(), 12), 76);
    assert_eq!(image.freeblock(), 77);
}

#[test]
fn inode_number_is_the_counter() {
    let mut image = Image::new();
    for i in 1..=208u32 {
        assert_eq!(image.ialloc(T_FILE), Ok(i));
    }
}
