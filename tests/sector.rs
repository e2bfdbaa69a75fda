use ext2::sector::{Address, Size1024, Size2048, Size4096, Size512};

#[test]
fn conv() {
    assert_eq!(Address::<Size512>::new(0, 1024).into_index(), 1024);
    assert_eq!(Address::<Size512>::from(1024_u64).into_index(), 1024);
    assert_eq!(
        Address::<Size512>::with_block_size(1, 256, 10).into_index(),
        1024 + 256
    );
    assert_eq!(
        Address::<Size512>::with_block_size(2, 0, 10).into_index(),
        2048
    );
    assert_eq!(
        Address::<Size512>::with_block_size(0, 1792, 10).into_index(),
        1792
    );
}

#[test]
fn sector_arithmetic() {
    assert_eq!(
        Address::<Size512>::new(0, 512),
        Address::<Size512>::new(1, 0),
    );

    assert_eq!(
        Address::<Size512>::new(2, -256),
        Address::<Size512>::new(1, 256),
    );

    let a = Address::<Size2048>::new(0, 1024);
    let b = Address::<Size2048>::new(0, 1024);
    assert_eq!(a + b, Address::<Size2048>::new(1, 0));
    assert_eq!((a + b).into_index(), 2048);

    let a = Address::<Size512>::new(0, 2048);
    let b = Address::<Size512>::new(0, 256);
    assert_eq!(a - b, Address::<Size512>::new(3, 256));
    assert_eq!((a - b).into_index(), 1792);
}

#[test]
fn block_arithmetic() {
    assert_eq!(
        Address::<Size512>::new(0, 512),
        Address::<Size512>::new(1, 0),
    );

    assert_eq!(
        Address::<Size512>::new(2, -256),
        Address::<Size512>::new(1, 256),
    );

    let a = Address::<Size2048>::new(0, 1024);
    let b = Address::<Size2048>::new(0, 1024);
    assert_eq!(a + b, Address::<Size2048>::new(1, 0));
    assert_eq!((a + b).into_index(), 2048);

    let a = Address::<Size512>::new(0, 2048);
    let b = Address::<Size512>::new(0, 256);
    assert_eq!(a - b, Address::<Size512>::new(3, 256));
    assert_eq!((a - b).into_index(), 1792);
}

#[test]
fn negative_offset_borrows_from_sector() {
    // -100 bytes from sector 2 is byte 924, i.e. sector 1 offset 412.
    let a = Address::<Size512>::new(2, -100);
    assert_eq!(a.sector(), 1);
    assert_eq!(a.offset(), 412);
    assert_eq!(a.into_index(), 924);
}

#[test]
fn with_block_size_round_trip() {
    // block 5 of a 4096-byte filesystem, byte 3000, in 1024-byte sectors
    let a = Address::<Size1024>::with_block_size(5, 3000, 12);
    assert_eq!(a.into_index(), 5 * 4096 + 3000);
    assert_eq!(a.sector(), 22);
    assert_eq!(a.offset(), 952);
    // an offset past the block carries into the next block
    let b = Address::<Size4096>::with_block_size(1, 1024 + 100, 10);
    assert_eq!(b.into_index(), 2148);
    assert_eq!(b.sector(), 0);
    // a negative offset borrows from the block
    let c = Address::<Size512>::with_block_size(3, -1, 10);
    assert_eq!(c.into_index(), 3071);
}

#[test]
fn sizes_and_from_wraps() {
    let a = Address::<Size4096>::new(1, 5);
    assert_eq!(a.sector_size(), 4096);
    assert_eq!(a.log_sector_size(), 12);
    // sector numbers past 32 bits wrap
    let b = Address::<Size512>::from((1_u64 << 41) + 7);
    assert_eq!(b.into_index(), 7);
}

#[test]
fn stepping_by_sector() {
    let a = Address::<Size512>::new(3, 100);
    let b = Address::<Size512>::new(7, 5);
    assert_eq!(Address::steps_between(&a, &b), Some(4));
    assert_eq!(Address::steps_between(&b, &a), None);
    assert_eq!(a.add_one(), Address::<Size512>::new(4, 0));
    assert_eq!(a.sub_one(), Address::<Size512>::new(2, 0));
    assert_eq!(a.add_usize(10), Some(Address::<Size512>::new(13, 0)));
    let last = Address::<Size512>::new(u32::MAX - 1, 0);
    assert_eq!(last.add_usize(1).map(|x| x.sector()), Some(u32::MAX));
    assert!(last.add_usize(2).is_none());
}
