use ext2::block_group::BlockGroupDescriptor;
use ext2::error::Error;
use ext2::sector::{Address, Size512};
use ext2::superblock::{count_groups, Superblock, EXT2_MAGIC};
use ext2::volume::{Size, Volume, VolumeCommit, VolumeSlice};

#[test]
fn superblock_find() {
    let mut volume = vec![0_u8; 4096];
    // magic
    volume[1024 + 56] = EXT2_MAGIC as u8;
    volume[1024 + 57] = (EXT2_MAGIC >> 8) as u8;
    let superblock = Superblock::find::<Size512, _>(&volume);
    assert!(
        superblock.is_ok(),
        "Err({:?})",
        superblock.err().unwrap_or_else(|| unreachable!()),
    );
}

#[test]
fn superblock_bad_magic_reports_value() {
    let mut volume = vec![0_u8; 4096];
    volume[1024 + 56] = 0x34;
    volume[1024 + 57] = 0x12;
    match Superblock::find::<Size512, _>(&volume) {
        Err(Error::BadMagic { magic }) => assert_eq!(magic, 0x1234),
        other => panic!("unexpected {:?}", other.map(|(_, a)| a.into_index())),
    }
}

#[test]
fn superblock_too_small_volume() {
    let volume = vec![0_u8; 2000];
    match Superblock::find::<Size512, _>(&volume) {
        Err(Error::AddressOutOfBounds { sector, offset, size }) => {
            assert_eq!((sector, offset, size), (4, 0, 512));
        }
        other => panic!("unexpected {:?}", other.map(|(_, a)| a.into_index())),
    }
}

#[test]
fn superblock_fields_and_sizes() {
    let mut b = vec![0_u8; 1024];
    b[4..8].copy_from_slice(&8192_u32.to_le_bytes());
    b[24..28].copy_from_slice(&2_u32.to_le_bytes());
    b[28..32].copy_from_slice(&1_u32.to_le_bytes());
    b[32..36].copy_from_slice(&4096_u32.to_le_bytes());
    b[0..4].copy_from_slice(&4000_u32.to_le_bytes());
    b[40..44].copy_from_slice(&2048_u32.to_le_bytes());
    b[88..90].copy_from_slice(&256_u16.to_le_bytes());
    let sb = Superblock::parse(&b);
    assert_eq!(sb.blocks_count, 8192);
    assert_eq!(sb.inode_size, 256);
    assert_eq!(sb.block_size(), 4096);
    assert_eq!(sb.frag_size(), 2048);
    assert_eq!(sb.block_group_count(), Ok(2));
    let mut sb2 = sb;
    sb2.inodes_count = 5000;
    assert_eq!(sb2.block_group_count(), Err((2, 3)));
}

#[test]
fn group_count_rounds_up() {
    assert_eq!(count_groups(8192, 4096), 2);
    assert_eq!(count_groups(8193, 4096), 3);
    assert_eq!(count_groups(0, 4096), 0);
    assert_eq!(count_groups(7, 0), 0);
    assert_eq!(count_groups(u32::MAX, 1), u32::MAX);
}

#[test]
fn block_group_find() {
    let buffer = vec![0_u8; 4096];
    let table = BlockGroupDescriptor::find_descriptor_table(
        &buffer,
        Address::<Size512>::new(4, 0),
        8,
    );
    assert!(
        table.is_ok(),
        "Err({:?})",
        table.err().unwrap_or_else(|| unreachable!()),
    );
    let table = table.unwrap_or_else(|_| unreachable!());
    assert_eq!(table.0.len(), 8);
}

#[test]
fn descriptor_fields() {
    let mut buffer = vec![0_u8; 4096];
    let at = 2048 + 32;
    buffer[at + 8..at + 12].copy_from_slice(&77_u32.to_le_bytes());
    buffer[at + 16..at + 18].copy_from_slice(&5_u16.to_le_bytes());
    let (table, addr) = BlockGroupDescriptor::find_descriptor_table(
        &buffer,
        Address::<Size512>::new(4, 0),
        2,
    )
    .unwrap();
    assert_eq!(addr.into_index(), 2048);
    assert_eq!(table[1].inode_table_block, 77);
    assert_eq!(table[1].dirs_count, 5);
    let (one, _) = BlockGroupDescriptor::find_descriptor(&buffer, Address::<Size512>::new(4, 32)).unwrap();
    assert_eq!(one.inode_table_block, 77);
    // past the end of the volume
    assert!(BlockGroupDescriptor::find_descriptor_table(
        &buffer,
        Address::<Size512>::new(7, 0),
        32,
    )
    .is_err());
}

#[test]
fn volume() {
    let mut volume = vec![0_u8; 1024];
    let commit = {
        let mut slice = volume
            .slice(Address::<Size512>::from(256_u64)..Address::<Size512>::from(512_u64))
            .unwrap();
        for i in 0..slice.len() {
            slice.set(i, 1);
        }
        slice.commit()
    };
    assert!(volume.commit(commit).is_ok());

    for (i, &x) in volume.iter().enumerate() {
        if i < 256 || i >= 512 {
            assert_eq!(x, 0);
        } else {
            assert_eq!(x, 1);
        }
    }
}

#[test]
fn volume_bounds_and_unmutated_slices() {
    let volume = vec![7_u8; 1024];
    let slice = volume
        .slice(Address::<Size512>::new(1, 0)..Address::<Size512>::new(2, 0))
        .unwrap();
    assert!(!slice.is_mutated());
    assert_eq!(slice.address().into_index(), 512);
    assert_eq!(slice.as_slice(), &[7_u8; 512][..]);
    assert!(slice.commit().is_none());
    match volume.slice(Address::<Size512>::new(1, 0)..Address::<Size512>::new(2, 1)) {
        Err(Error::AddressOutOfBounds { sector, offset, size }) => {
            assert_eq!((sector, offset, size), (2, 1, 512))
        }
        _ => panic!("expected an out-of-bounds error"),
    }
    let size: Size<Size512> = Volume::<Size512>::size(&volume);
    assert!(size.is_bounded());
    assert_eq!(size.try_len().unwrap().into_index(), 1024);
    assert!(size.covers_end(&Address::new(2, 0)));
    assert!(!size.covers_end(&Address::new(2, 1)));
    let unbounded: Size<Size512> = Size::Unbounded;
    assert!(unbounded.covers_end(&Address::new(1000, 0)));
    assert!(unbounded.try_len().is_none());
}

#[test]
fn volume_commit_out_of_range() {
    let mut volume = vec![0_u8; 16];
    let commit = VolumeCommit::<Size512>::new(vec![1, 2, 3], Address::new(0, 14));
    assert!(matches!(volume.commit(Some(commit)), Err(Error::OutOfBounds { .. })));
    let commit = VolumeCommit::<Size512>::with_vec(vec![1, 2, 3]);
    assert_eq!(commit.address().into_index(), 0);
    assert_eq!(commit.into_inner(), vec![1, 2, 3]);
    let owned = VolumeSlice::<Size512>::new_owned(vec![9, 9], Address::new(0, 3));
    assert!(owned.is_mutated());
    let commit = owned.commit().unwrap();
    assert!(volume.commit(Some(commit)).is_ok());
    assert_eq!(&volume[..6], &[0, 0, 0, 9, 9, 0]);
    let fixed = VolumeSlice::<Size512>::with_static(&[1, 2]);
    assert_eq!(fixed.address().into_index(), 0);
    assert!(volume.commit(None::<VolumeCommit<Size512>>).is_ok());
}

#[test]
fn sizes_compare() {
    let small: Size<Size512> = Size::Bounded(Address::new(1, 0));
    let large: Size<Size512> = Size::Bounded(Address::new(2, 0));
    let same: Size<Size512> = Size::Bounded(Address::new(0, 512));
    let unbounded: Size<Size512> = Size::Unbounded;
    assert!(small < large);
    assert!(small == same);
    assert!(unbounded > large);
    assert!(large < unbounded);
    assert!(unbounded != Size::Unbounded);
    assert_eq!(unbounded.partial_cmp(&Size::Unbounded), None);
}
