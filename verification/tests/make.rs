use mkfs::image::{Fault, Image};
use mkfs::inode::Dinode;
use mkfs::make::{build, has_slash, superblock, HostFile};

fn word(b: &[u8; 512], at: usize) -> u32 {
    u32::from_le_bytes([b[at], b[at + 1], b[at + 2], b[at + 3]])
}

fn prefix(image: &Image, inum: u32, len: usize) -> Vec<u8> {
    let d = image.rinode(inum).unwrap();
    let mut out = Vec::new();
    let mut fbn: usize = 0;
    while out.len() < len {
        let x = if fbn < 12 {
            d.addrs[fbn]
        } else {
            word(&image.rsect(d.addrs[12]).unwrap(), 4 * (fbn - 12))
        };
        out.extend_from_slice(&image.rsect(x).unwrap());
        fbn += 1;
    }
    out.truncate(len);
    out
}

fn contents(image: &Image, inum: u32) -> Vec<u8> {
    prefix(image, inum, image.rinode(inum).unwrap().size as usize)
}

fn host(name: &str, data: &[u8]) -> HostFile {
    HostFile { name: name.as_bytes().to_vec(), data: data.to_vec() }
}

fn entry(inum: u16, name: &str) -> Vec<u8> {
    let mut e = inum.to_le_bytes().to_vec();
    e.extend_from_slice(name.as_bytes());
    e.resize(16, 0);
    e
}

fn sectors(image: &Image) -> Vec<[u8; 512]> {
    (0..image.len() as u32).map(|s| image.rsect(s).unwrap()).collect()
}

#[test]
fn superblock_values() {
    let sb = superblock();
    assert_eq!(sb.size, 2000);
    assert_eq!(sb.nblocks, 1941);
    assert_eq!(sb.ninodes, 200);
    assert_eq!(sb.nlog, 30);
    assert_eq!(sb.logstart, 2);
    assert_eq!(sb.inodestart, 32);
    assert_eq!(sb.bmapstart, 58);
}

#[test]
fn formatted_image_has_a_root_directory() {
    let image = Image::format();
    let d = image.rinode(1).unwrap();
    assert_eq!(d.f_type, 1);
    assert_eq!(d.nlink, 1);
    assert_eq!(d.size, 32);
    assert_eq!(d.addrs[0], 59);
    assert_eq!(image.freeblock(), 60);
    let expected = [entry(1, "."), entry(1, "..")].concat();
    assert_eq!(contents(&image, 1), expected);
}

#[test]
fn slashes_and_empty_names_are_refused() {
    assert!(has_slash(b"a/b"));
    assert!(has_slash(b"/"));
    assert!(!has_slash(b"ab"));
    assert!(!has_slash(b""));
    let mut image = Image::format();
    let before = sectors(&image);
    assert_eq!(image.link_file(b"a/b"), Err(Fault::SlashInName));
    assert_eq!(image.link_file(b""), Err(Fault::EmptyName));
    assert_eq!(sectors(&image), before);
    assert_eq!(image.link_file(b"ab"), Ok(2));
}

#[test]
fn empty_list() {
    let (image, r) = build(&vec![]);
    assert_eq!(r, Ok(()));
    let d = image.rinode(1).unwrap();
    assert_eq!(d.size, 512);
    let b = image.rsect(58).unwrap();
    assert_eq!(&b[..9], &[255, 255, 255, 255, 255, 255, 255, 15, 0]);
}

#[test]
fn built_image_holds_the_files() {
    let big: Vec<u8> = (0..10000usize).map(|i| (i % 253) as u8).collect();
    let files = vec![
        host("README", b"read me"),
        host("_cat", &big),
        host("empty", b""),
        host("_a_very_long_name", &[7u8; 512]),
    ];
    let (image, r) = build(&files);
    assert_eq!(r, Ok(()));
    let listing = [
        entry(1, "."),
        entry(1, ".."),
        entry(2, "README"),
        entry(3, "cat"),
        entry(4, "empty"),
        entry(5, "a_very_long_"),
    ]
    .concat();
    assert_eq!(image.rinode(1).unwrap().size, 512);
    let mut root = listing.clone();
    root.resize(512, 0);
    assert_eq!(contents(&image, 1), root);
    for (i, f) in files.iter().enumerate() {
        let d = image.rinode(i as u32 + 2).unwrap();
        assert_eq!(d.f_type, 2);
        assert_eq!(d.nlink, 1);
        assert_eq!(d.size as usize, f.data.len());
        assert_eq!(contents(&image, i as u32 + 2), f.data);
    }
    // 1 block for the root, 1 for README, 20 and an indirect one for cat, 1 for the last.
    let used: u32 = 59 + 1 + 1 + 21 + 1;
    assert_eq!(image.freeblock(), used);
    let b = image.rsect(58).unwrap();
    for q in 0..4096usize {
        assert_eq!(b[q / 8] >> (q % 8) & 1 == 1, q < used as usize);
    }
    for q in 0..32u32 {
        if q != 1 {
            assert_eq!(image.rsect(q), Ok([0u8; 512]));
        }
    }
    for q in used..2000 {
        assert_eq!(image.rsect(q), Ok([0u8; 512]));
    }
}

#[test]
fn root_size_grows_past_a_full_block() {
    // Two own entries and thirty files fill a block exactly.
    let files: Vec<HostFile> = (0..30).map(|i| host(&format!("f{}", i), b"")).collect();
    let (image, r) = build(&files);
    assert_eq!(r, Ok(()));
    let d = image.rinode(1).unwrap();
    assert_eq!(d.size, 1024);
    assert_eq!(d.addrs[0], 59);
    assert_eq!(d.addrs[1], 0);
    assert_eq!(&prefix(&image, 1, 512)[496..], &entry(31, "f29")[..]);
}

#[test]
fn full_inode_table() {
    let files: Vec<HostFile> =
        (0..206).map(|i| host(&format!("f{}", i), format!("data {}", i).as_bytes())).collect();
    let (image, r) = build(&files);
    assert_eq!(r, Ok(()));
    for i in 0..206u32 {
        assert_eq!(contents(&image, i + 2), format!("data {}", i).into_bytes());
    }
    assert_eq!(image.rinode(1).unwrap().size, 7 * 512);
    assert_eq!(image.freeblock(), 59 + 206 + 7);
}

#[test]
fn one_file_too_many_lands_in_the_bitmap_block() {
    let files: Vec<HostFile> = (0..207).map(|i| host(&format!("f{}", i), b"x")).collect();
    let (image, r) = build(&files);
    assert_eq!(r, Ok(()));
    // The bitmap is written last and covers the inode.
    let b = image.rsect(58).unwrap();
    assert!(b[..33].iter().all(|x| *x == 255));
    assert_eq!(image.rinode(208).unwrap().f_type, 0xffff);
}

#[test]
fn building_stops_at_the_first_fault() {
    let files = vec![host("a", b"1"), host("b/c", b"2"), host("d", b"3")];
    let (image, r) = build(&files);
    assert_eq!(r, Err(Fault::SlashInName));
    assert_eq!(contents(&image, 1), [entry(1, "."), entry(1, ".."), entry(2, "a")].concat());
    assert_eq!(contents(&image, 2), b"1");
    assert_eq!(image.rsect(58), Ok([0u8; 512]));

    let (_, r) = build(&vec![host("", b"1")]);
    assert_eq!(r, Err(Fault::EmptyName));
    let (_, r) = build(&vec![host("big", &vec![1u8; 71681])]);
    assert_eq!(r, Err(Fault::FileTooLarge));
    let (_, r) = build(&vec![host("big", &vec![1u8; 71680])]);
    assert_eq!(r, Ok(()));
}

#[test]
fn building_stops_when_the_image_is_full() {
    let mut files: Vec<HostFile> =
        (0..13).map(|i| host(&format!("f{}", i), &vec![i as u8; 71680])).collect();
    files.push(host("last", &vec![9u8; 106 * 512]));
    let (image, r) = build(&files);
    assert_eq!(r, Ok(()));
    assert_eq!(image.freeblock(), 2000);
    files.push(host("more", b""));
    assert_eq!(build(&files).1, Ok(()));
    files.push(host("over", b"x"));
    assert_eq!(build(&files).1, Err(Fault::BadSector));
}

#[test]
fn add_file_equals_its_steps() {
    let data: Vec<u8> = (0..1300usize).map(|i| (i % 250) as u8).collect();
    let mut a = Image::format();
    assert_eq!(a.add_file(b"_x", &data), Ok(()));
    let mut b = Image::format();
    let inum = b.link_file(b"_x").unwrap();
    assert_eq!(inum, 2);
    assert_eq!(b.iappend(inum, &data, 1300), Ok(()));
    assert_eq!(sectors(&a), sectors(&b));
    let mut c = Image::format();
    c.link_file(b"_x").unwrap();
    assert_eq!(c.feed_file(2, &data), Ok(()));
    assert_eq!(sectors(&a), sectors(&c));
}

#[test]
fn sealing_a_damaged_root() {
    let mut image = Image::format();
    let d = Dinode { size: u32::MAX, ..image.rinode(1).unwrap() };
    image.winode(1, &d).unwrap();
    assert_eq!(image.seal(), Err(Fault::Overflow));
    let d = Dinode { size: u32::MAX - 512, ..d };
    image.winode(1, &d).unwrap();
    assert_eq!(image.seal(), Ok(()));
    assert_eq!(image.rinode(1).unwrap().size, u32::MAX - 511);
    assert_eq!(Image::empty().seal(), Err(Fault::BadSector));
}

#[test]
fn every_marked_data_block_has_one_owner() {
    let mut files = vec![host("empty", b""), host("small", b"x"), host("twelve", &[1u8; 6144])];
    files.push(host("thirteen", &[2u8; 6145]));
    files.push(host("largest", &vec![3u8; 71680]));
    for i in 0..60 {
        files.push(host(&format!("f{}", i), &[i as u8; 600]));
    }
    let (image, r) = build(&files);
    assert_eq!(r, Ok(()));
    let mut owners = vec![0; 2000];
    for inum in 1..files.len() as u32 + 2 {
        let d = image.rinode(inum).unwrap();
        // The size of the root directory is rounded up past its entries.
        let size = if inum == 1 { (files.len() + 2) * 16 } else { d.size as usize };
        let blocks = (size + 511) / 512;
        let mut addrs: Vec<u32> = d.addrs[..12].to_vec();
        assert_eq!(d.addrs[12] != 0, blocks > 12);
        if d.addrs[12] != 0 {
            owners[d.addrs[12] as usize] += 1;
            let table = image.rsect(d.addrs[12]).unwrap();
            addrs.extend((0..128).map(|k| word(&table, 4 * k)));
        }
        for (k, a) in addrs.iter().enumerate() {
            assert_eq!(*a != 0, k < blocks);
            if *a != 0 {
                owners[*a as usize] += 1;
            }
        }
    }
    let bitmap = image.rsect(58).unwrap();
    for q in 0..2000usize {
        let marked = bitmap[q / 8] >> (q % 8) & 1 == 1;
        assert_eq!(marked, q < 59 || owners[q] == 1);
        assert!(owners[q] <= 1);
    }
}

#[test]
fn steps_make_the_image_that_build_makes() {
    let files = vec![host("_one", &[1u8; 700]), host("two", b"")];
    let (whole, r) = build(&files);
    assert_eq!(r, Ok(()));
    let mut image = Image::format();
    for f in &files {
        assert_eq!(image.add_file(&f.name, &f.data), Ok(()));
    }
    assert_eq!(image.seal(), Ok(()));
    assert_eq!(sectors(&image), sectors(&whole));
}

#[test]
fn other_inodes_are_free_and_last_blocks_padded() {
    let files = vec![host("a", &[9u8; 513]), host("b", &[8u8; 1])];
    let (image, r) = build(&files);
    assert_eq!(r, Ok(()));
    for inum in (0..1).chain(4..208) {
        let free = Dinode { f_type: 0, major: 0, minor: 0, nlink: 0, size: 0, addrs: [0; 13] };
        assert_eq!(image.rinode(inum), Ok(free));
    }
    let a = prefix(&image, 2, 1024);
    assert_eq!(&a[..513], &[9u8; 513][..]);
    assert_eq!(&a[513..], &[0u8; 511][..]);
    let b = prefix(&image, 3, 512);
    assert_eq!(b[0], 8);
    assert_eq!(&b[1..], &[0u8; 511][..]);
}

#[test]
fn files_before_one_that_does_not_fit_are_there() {
    let files = vec![
        host("_one", &[1u8; 700]),
        host("two", b"second"),
        host("huge", &vec![5u8; 71681]),
        host("never", b"reached"),
    ];
    let (image, r) = build(&files);
    assert_eq!(r, Err(Fault::FileTooLarge));
    assert_eq!(image.len(), 2000);
    let listing = [entry(1, "."), entry(1, ".."), entry(2, "one"), entry(3, "two")].concat();
    let root = image.rinode(1).unwrap();
    assert_eq!((root.f_type, root.nlink), (1, 1));
    assert_eq!(&contents(&image, 1)[..listing.len()], &listing[..]);
    for (i, f) in files[..2].iter().enumerate() {
        let d = image.rinode(i as u32 + 2).unwrap();
        assert_eq!((d.f_type, d.nlink), (2, 1));
        assert_eq!(contents(&image, i as u32 + 2), f.data);
    }
    // The file itself holds the blocks that went in before it was refused.
    assert_eq!(contents(&image, 4), vec![5u8; 71680]);
}
