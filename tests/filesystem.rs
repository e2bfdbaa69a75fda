use ext2::error::Error;
use ext2::fs::{parse_entry, Ext2};
use ext2::sector::{Size1024, Size512};

const BS: usize = 1024;

fn put32(img: &mut [u8], at: usize, v: u32) {
    img[at..at + 4].copy_from_slice(&v.to_le_bytes());
}

fn put16(img: &mut [u8], at: usize, v: u16) {
    img[at..at + 2].copy_from_slice(&v.to_le_bytes());
}

fn inode_at(n: usize) -> usize {
    // inode table starts at block 3, 128-byte records
    3 * BS + (n - 1) * 128
}

fn set_inode(img: &mut [u8], n: usize, type_perm: u16, size: u32, direct: &[u32]) {
    let at = inode_at(n);
    put16(img, at, type_perm);
    put32(img, at + 4, size);
    put16(img, at + 26, 1);
    for (i, &b) in direct.iter().enumerate() {
        put32(img, at + 40 + 4 * i, b);
    }
}

/// Writes a directory record; returns the offset of the next one.
fn dirent(img: &mut [u8], at: usize, inode: u32, rec_len: u16, name: &[u8]) -> usize {
    put32(img, at, inode);
    put16(img, at + 4, rec_len);
    img[at + 6] = name.len() as u8;
    img[at + 7] = 1;
    img[at + 8..at + 8 + name.len()].copy_from_slice(name);
    at + rec_len as usize
}

const README: &[u8] = b"# funky\nhello from ext2\n";

/// A 1024-byte-block image with one block group and 32 inodes:
/// `/`, `/hello.txt`, `/sub/README.md`, a sparse file (15) and a file
/// reaching through every level of indirect blocks (16).
fn image() -> Vec<u8> {
    let mut img = vec![0_u8; 64 * BS];
    let sb = 1024;
    put32(&mut img, sb, 32); // inodes_count
    put32(&mut img, sb + 4, 64); // blocks_count
    put32(&mut img, sb + 12, 20); // free_blocks_count
    put32(&mut img, sb + 20, 1); // first_data_block
    put32(&mut img, sb + 24, 0); // log_block_size
    put32(&mut img, sb + 32, 8192); // blocks_per_group
    put32(&mut img, sb + 40, 32); // inodes_per_group
    put16(&mut img, sb + 56, 0xef53);
    put16(&mut img, sb + 62, 3); // rev_minor
    // group descriptor table in block 2: inode table at block 3
    put32(&mut img, 2 * BS + 8, 3);

    // root directory (inode 2), data in block 8
    set_inode(&mut img, 2, 0x41ed, BS as u32, &[8]);
    let mut at = 8 * BS;
    at = dirent(&mut img, at, 2, 12, b".");
    at = dirent(&mut img, at, 2, 12, b"..");
    at = dirent(&mut img, at, 12, 20, b"hello.txt");
    at = dirent(&mut img, at, 13, 12, b"sub");
    at = dirent(&mut img, at, 40, 16, b"ghost");
    dirent(&mut img, at, 0, (9 * BS - at) as u16, b"");

    // /hello.txt (inode 12), block 9
    let hello = b"Hello, world!\n";
    set_inode(&mut img, 12, 0x81a4, hello.len() as u32, &[9]);
    img[9 * BS..9 * BS + hello.len()].copy_from_slice(hello);

    // /sub (inode 13), block 10; its last record spans the rest of the block
    set_inode(&mut img, 13, 0x41ed, BS as u32, &[10]);
    let mut at = 10 * BS;
    at = dirent(&mut img, at, 13, 12, b".");
    at = dirent(&mut img, at, 2, 12, b"..");
    dirent(&mut img, at, 14, (11 * BS - at) as u16, b"README.md");

    // /sub/README.md (inode 14), block 11
    set_inode(&mut img, 14, 0x81a4, README.len() as u32, &[11]);
    img[11 * BS..11 * BS + README.len()].copy_from_slice(README);

    // sparse file (inode 15): blocks 12, hole, 13
    set_inode(&mut img, 15, 0x81a4, 3 * BS as u32, &[12, 0, 13]);
    for i in 0..BS {
        img[12 * BS + i] = 0xaa;
        img[13 * BS + i] = 0xbb;
    }

    // inode 16: pointers through every level
    let at = inode_at(16);
    set_inode(&mut img, 16, 0x81a4, 0, &[40, 41, 42, 43, 44, 45, 46, 47, 48, 49, 50, 51]);
    put32(&mut img, at + 88, 20); // singly indirect
    put32(&mut img, at + 92, 22); // doubly indirect
    put32(&mut img, at + 96, 25); // triply indirect
    put32(&mut img, 20 * BS, 21);
    put32(&mut img, 22 * BS, 23);
    put32(&mut img, 23 * BS, 24);
    put32(&mut img, 25 * BS, 26);
    put32(&mut img, 26 * BS, 27);
    put32(&mut img, 27 * BS, 28);
    put32(&mut img, 27 * BS + 4, 29);
    img
}

#[test]
fn open_volume() {
    let fs = Ext2::<Size512, _>::new(image()).unwrap();
    assert_eq!(fs.block_size(), 1024);
    assert_eq!(fs.log_block_size(), 10);
    assert_eq!(fs.sector_size(), 512);
    assert_eq!(fs.log_sector_size(), 9);
    assert_eq!(fs.version(), (0, 3));
    assert_eq!(fs.inode_size(), 128);
    assert_eq!(fs.inodes_count(), 32);
    assert_eq!(fs.total_inodes_count(), 32);
    assert_eq!(fs.total_block_count(), 64);
    assert_eq!(fs.free_block_count(), 20);
    assert_eq!(fs.block_group_count().unwrap(), 1);
}

#[test]
fn bad_magic_is_reported() {
    let mut img = image();
    img[1024 + 56] = 0x00;
    img[1024 + 57] = 0x12;
    match Ext2::<Size512, _>::new(img) {
        Err(Error::BadMagic { magic }) => assert_eq!(magic, 0x1200),
        _ => panic!("expected BadMagic"),
    }
}

#[test]
fn group_count_consistency() {
    let mut img = vec![0_u8; 16 * BS];
    put16(&mut img, 1024 + 56, 0xef53);
    put32(&mut img, 1024 + 4, 8192); // blocks_count
    put32(&mut img, 1024 + 32, 4096); // blocks_per_group
    put32(&mut img, 1024, 4000); // inodes_count
    put32(&mut img, 1024 + 40, 2048); // inodes_per_group
    put32(&mut img, 1024 + 20, 1); // first_data_block
    assert!(Ext2::<Size512, _>::new(img.clone()).is_ok());
    put32(&mut img, 1024, 5000);
    match Ext2::<Size512, _>::new(img) {
        Err(Error::BadBlockGroupCount { by_blocks, by_inodes }) => {
            assert_eq!((by_blocks, by_inodes), (2, 3))
        }
        _ => panic!("expected BadBlockGroupCount"),
    }
}

#[test]
fn bad_block_size_is_refused() {
    let mut img = image();
    put32(&mut img, 1024 + 24, 22);
    assert!(matches!(
        Ext2::<Size512, _>::new(img),
        Err(Error::BadBlockSize { log_block_size: 22 })
    ));
}

#[test]
fn inodes_are_one_indexed() {
    let fs = Ext2::<Size512, _>::new(image()).unwrap();
    assert!(fs.inode_nth(0).is_none());
    assert!(fs.inode_nth(33).is_none());
    let root = fs.inode_nth(2).unwrap();
    assert!(root.is_dir());
    assert_eq!(root.num(), 2);
    assert_eq!(root.address().into_index(), 3 * 1024 + 128);
    assert!(fs.root_inode().unwrap().is_dir());
    let hello = fs.inode_nth(12).unwrap();
    assert!(!hello.is_dir());
    assert!(hello.in_use());
    assert_eq!(hello.size(), 14);
    assert_eq!(hello.size32(), 14);
    assert_eq!(hello.size64(), 14);
    assert_eq!(hello.uid(), 0);
    assert_eq!(hello.sectors(), 0);
    assert!(!fs.inode_nth(20).unwrap().in_use());
}

#[test]
fn inode_iteration() {
    let fs = Ext2::<Size1024, _>::new(image()).unwrap();
    let mut inodes = fs.inodes();
    let mut count = 0;
    while let Some(inode) = inodes.next() {
        count += 1;
        assert_eq!(inode.num() as usize, count);
    }
    assert_eq!(count, 32);
    let mut from = fs.inodes_nth(31);
    assert_eq!(from.next().unwrap().num(), 31);
    assert_eq!(from.next().unwrap().num(), 32);
    assert!(from.next().is_none());
}

#[test]
fn block_resolver_regions() {
    let fs = Ext2::<Size512, _>::new(image()).unwrap();
    let ino = fs.inode_nth(16).unwrap();
    for i in 0..12 {
        assert_eq!(ino.try_block(i).unwrap(), Some(40 + i as u32));
    }
    // singly indirect: first entry
    assert_eq!(ino.try_block(12).unwrap(), Some(21));
    // a zero entry of the singly indirect table is a hole
    assert_eq!(ino.try_block(13).unwrap(), None);
    // doubly indirect: 12 + 256
    assert_eq!(ino.try_block(268).unwrap(), Some(24));
    assert_eq!(ino.try_block(269).unwrap(), None);
    // triply indirect: 12 + 256 + 65536
    assert_eq!(ino.try_block(65804).unwrap(), Some(28));
    assert_eq!(ino.try_block(65805).unwrap(), Some(29));
    assert_eq!(ino.try_block(65806).unwrap(), None);
    // past the triply indirect tree
    assert_eq!(ino.try_block(12 + 256 + 65536 + 16777216).unwrap(), None);
    assert_eq!(ino.block(12), Some(21));
    // an inode without indirect pointers: holes everywhere past the direct ones
    let hello = fs.inode_nth(12).unwrap();
    assert_eq!(hello.try_block(12).unwrap(), None);
    assert_eq!(hello.try_block(300).unwrap(), None);
    assert_eq!(hello.try_block(70000).unwrap(), None);
}

#[test]
fn inode_blocks() {
    let fs = Ext2::<Size512, _>::new(image()).unwrap();
    let hello = fs.inode_nth(12).unwrap();
    let mut blocks = hello.blocks();
    let (data, addr) = blocks.next().unwrap().unwrap();
    assert_eq!(addr.into_index(), 9 * 1024);
    assert_eq!(data.len(), 1024);
    assert_eq!(&data.as_slice()[..5], b"Hello");
    assert!(blocks.next().is_none());
}

#[test]
fn read_whole_file() {
    let fs = Ext2::<Size512, _>::new(image()).unwrap();
    let hello = fs.inode_nth(12).unwrap();
    let mut buf = vec![0_u8; 100];
    let n = hello.read(&mut buf).unwrap();
    assert_eq!(n as u64, hello.size());
    assert_eq!(&buf[..n], b"Hello, world!\n");
    let mut small = vec![0_u8; 5];
    assert_eq!(fs.read_inode(&mut small, &hello).unwrap(), 5);
    assert_eq!(&small, b"Hello");
}

#[test]
fn sparse_read_is_short() {
    let fs = Ext2::<Size512, _>::new(image()).unwrap();
    let sparse = fs.inode_nth(15).unwrap();
    let mut buf = vec![0_u8; 4096];
    let n = sparse.read(&mut buf).unwrap();
    assert_eq!(n, 1024);
    assert!((n as u64) < sparse.size());
    assert!(buf[..1024].iter().all(|&b| b == 0xaa));
    assert!(buf[1024..].iter().all(|&b| b == 0));
}

#[test]
fn directory_walk() {
    let fs = Ext2::<Size512, _>::new(image()).unwrap();
    let root = fs.root_inode().unwrap();
    let mut dir = root.directory().unwrap();
    let mut names = Vec::new();
    while let Some(entry) = dir.next() {
        let entry = entry.unwrap();
        names.push((String::from_utf8(entry.name.clone()).unwrap(), entry.inode));
    }
    assert_eq!(
        names,
        vec![
            (".".to_string(), 2),
            ("..".to_string(), 2),
            ("hello.txt".to_string(), 12),
            ("sub".to_string(), 13),
            ("ghost".to_string(), 40),
        ]
    );
    // the walk ends at the end of the block stream too
    let sub = fs.inode_nth(13).unwrap();
    let mut dir = sub.directory().unwrap();
    let mut count = 0;
    while let Some(entry) = dir.next() {
        assert!(entry.is_ok());
        count += 1;
    }
    assert_eq!(count, 3);
    assert!(fs.inode_nth(12).unwrap().directory().is_none());
}

#[test]
fn directory_records() {
    let mut block = vec![0_u8; 64];
    dirent(&mut block, 0, 5, 16, b"abc");
    let (entry, rec_len) = parse_entry(&block, 0).unwrap().unwrap();
    assert_eq!(entry.name, b"abc".to_vec());
    assert_eq!(entry.inode, 5);
    assert_eq!(entry.ty, 1);
    assert_eq!(rec_len, 16);
    assert!(entry.name.len() + 8 <= rec_len);
    // the record with inode 0 ends the directory
    assert!(parse_entry(&block, 16).unwrap().is_none());
    // a name longer than its record
    dirent(&mut block, 32, 6, 10, b"toolong");
    assert!(matches!(parse_entry(&block, 32), Err(Error::MalformedEntry { offset: 32 })));
    // a header past the block
    assert!(matches!(parse_entry(&block, 61), Err(Error::MalformedEntry { offset: 61 })));
    block[60..64].copy_from_slice(&7_u32.to_le_bytes());
    assert!(matches!(parse_entry(&block, 60), Err(Error::MalformedEntry { offset: 60 })));
    // a zero inode field in the last four bytes ends the directory
    block[60..64].copy_from_slice(&0_u32.to_le_bytes());
    assert!(parse_entry(&block, 60).unwrap().is_none());
}

#[test]
fn path_resolver() {
    let fs = Ext2::<Size512, _>::new(image()).unwrap();
    match fs.open(b"") {
        Err(Error::NotAbsolute { name }) => assert_eq!(name, ""),
        _ => panic!("expected NotAbsolute"),
    }
    match fs.open(b"foo") {
        Err(Error::NotAbsolute { name }) => assert_eq!(name, "foo"),
        _ => panic!("expected NotAbsolute"),
    }
    match fs.open(b"\xffx") {
        Err(Error::NotAbsolute { name }) => assert_eq!(name, "\u{FFFD}x"),
        _ => panic!("expected NotAbsolute"),
    }
    assert_eq!(fs.open(b"/").unwrap().num(), 2);
    match fs.open(b"/nope") {
        Err(Error::NotFound { name }) => assert_eq!(name, "/nope"),
        _ => panic!("expected NotFound"),
    }
    match fs.open(b"/hello.txt/x") {
        Err(Error::NotADirectory { inode, name }) => {
            assert_eq!(inode, 12);
            assert_eq!(name, "/hello.txt/x");
        }
        _ => panic!("expected NotADirectory"),
    }
    match fs.open(b"/ghost") {
        Err(Error::InodeNotFound { inode }) => assert_eq!(inode, 2),
        _ => panic!("expected InodeNotFound"),
    }
    let readme = fs.open(b"/sub/README.md").unwrap();
    assert_eq!(readme.num(), 14);
    let mut buf = vec![0_u8; readme.size() as usize];
    let n = readme.read(&mut buf).unwrap();
    assert_eq!(&buf[..n], README);
    assert!(std::str::from_utf8(&buf).is_ok());
    assert_eq!(fs.open(b"/sub/").err().map(|e| matches!(e, Error::NotFound { .. })), Some(true));
}

#[test]
fn lookup_takes_the_first_matching_record() {
    let mut img = image();
    // replace the record that ends the root directory with a second
    // `hello.txt`, naming the README's inode
    let at = 8 * BS + 12 + 12 + 20 + 12 + 16;
    dirent(&mut img, at, 14, (9 * BS - at) as u16, b"hello.txt");
    let fs = Ext2::<Size512, _>::new(img).unwrap();
    assert_eq!(fs.open(b"/hello.txt").unwrap().num(), 12);
    // without a terminating record the walk ends with the block stream
    let root = fs.root_inode().unwrap();
    let mut dir = root.directory().unwrap();
    let mut count = 0;
    while let Some(entry) = dir.next() {
        assert!(entry.is_ok());
        count += 1;
    }
    assert_eq!(count, 6);
}

#[test]
fn malformed_record_is_an_error() {
    let mut img = image();
    // a record length of 0 in the root directory
    put16(&mut img, 8 * BS + 4, 0);
    let fs = Ext2::<Size512, _>::new(img).unwrap();
    let root = fs.root_inode().unwrap();
    let mut dir = root.directory().unwrap();
    assert!(matches!(dir.next(), Some(Err(Error::MalformedEntry { offset: 0 }))));
    assert!(matches!(fs.open(b"/hello.txt"), Err(Error::MalformedEntry { offset: 0 })));
}

#[test]
fn block_stream_moves_past_an_unreadable_block() {
    let mut img = image();
    // hello.txt: its first block lies past the end of the volume
    let at = inode_at(12);
    put32(&mut img, at + 40, 100);
    put32(&mut img, at + 44, 9);
    let fs = Ext2::<Size512, _>::new(img).unwrap();
    let hello = fs.inode_nth(12).unwrap();
    let mut blocks = hello.blocks();
    assert!(matches!(blocks.next(), Some(Err(Error::AddressOutOfBounds { .. }))));
    let (data, addr) = blocks.next().unwrap().unwrap();
    assert_eq!(addr.into_index(), 9 * 1024);
    assert_eq!(&data.as_slice()[..5], b"Hello");
}

#[test]
fn walk_ends_at_zero_inode_in_last_bytes() {
    let mut img = image();
    // /sub: make README.md's record end four bytes before the block end,
    // leaving a zero inode field there
    let start = 10 * BS + 24;
    put16(&mut img, start + 4, (BS - 24 - 4) as u16);
    let fs = Ext2::<Size512, _>::new(img).unwrap();
    let sub = fs.inode_nth(13).unwrap();
    let mut dir = sub.directory().unwrap();
    let mut count = 0;
    while let Some(entry) = dir.next() {
        assert!(entry.is_ok());
        count += 1;
    }
    assert_eq!(count, 3);
}

#[test]
fn directory_bit_decides_directory_walks() {
    let mut img = image();
    // inode 13 (/sub) typed as a block device: the directory bit stays set
    put16(&mut img, inode_at(13), 0x61ed);
    // inode 12 (/hello.txt) typed as a symbolic link: no directory bit
    put16(&mut img, inode_at(12), 0xa1ff);
    let fs = Ext2::<Size512, _>::new(img).unwrap();
    let dev = fs.inode_nth(13).unwrap();
    assert!(dev.is_dir());
    assert!(dev.directory().is_some());
    assert_eq!(fs.open(b"/sub/README.md").unwrap().num(), 14);
    let link = fs.inode_nth(12).unwrap();
    assert!(!link.is_dir());
    assert!(link.directory().is_none());
    match fs.open(b"/hello.txt/x") {
        Err(Error::NotADirectory { inode, .. }) => assert_eq!(inode, 12),
        _ => panic!("expected NotADirectory"),
    }
}

#[test]
fn too_small_volume_is_out_of_bounds() {
    let img = vec![0_u8; 1500];
    assert!(matches!(
        Ext2::<Size512, _>::new(img),
        Err(Error::AddressOutOfBounds { .. })
    ));
}
