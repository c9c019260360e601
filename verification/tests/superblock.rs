use squashfs::decompress::Compressor;
use squashfs::{read, SquashError, Squashfs, Superblock};

fn superblock_bytes(magic: u32, block_size: u32, compressor: u16, block_log: u16, ver: (u16, u16)) -> Vec<u8> {
    let mut b = Vec::new();
    b.extend_from_slice(&magic.to_le_bytes());
    b.extend_from_slice(&7u32.to_le_bytes()); // inode_count
    b.extend_from_slice(&1_600_000_000u32.to_le_bytes()); // mod_time
    b.extend_from_slice(&block_size.to_le_bytes());
    b.extend_from_slice(&2u32.to_le_bytes()); // frag_count
    b.extend_from_slice(&compressor.to_le_bytes());
    b.extend_from_slice(&block_log.to_le_bytes());
    b.extend_from_slice(&0x00c0u16.to_le_bytes()); // flags
    b.extend_from_slice(&1u16.to_le_bytes()); // id_count
    b.extend_from_slice(&ver.0.to_le_bytes());
    b.extend_from_slice(&ver.1.to_le_bytes());
    for v in [0x20u64, 4096, 4000, 0xFFFF_FFFF_FFFF_FFFF, 1000, 2000, 3000, 3500] {
        b.extend_from_slice(&v.to_le_bytes());
    }
    b
}

fn valid_image(compressor: u16) -> Vec<u8> {
    superblock_bytes(0x73717368, 131072, compressor, 17, (4, 0))
}

#[test]
fn superblock_fields_decode_in_order() {
    let sb = Superblock::parse(&valid_image(1)).unwrap();
    assert_eq!(sb.magic, 0x73717368);
    assert_eq!(sb.inode_count, 7);
    assert_eq!(sb.mod_time, 1_600_000_000);
    assert_eq!(sb.block_size, 131072);
    assert_eq!(sb.frag_count, 2);
    assert_eq!(sb.compressor, 1);
    assert_eq!(sb.block_log, 17);
    assert_eq!(sb.flags, 0x00c0);
    assert_eq!(sb.id_count, 1);
    assert_eq!(sb.ver_maj, 4);
    assert_eq!(sb.ver_min, 0);
    assert_eq!(sb.root_inode, 0x20);
    assert_eq!(sb.bytes_used, 4096);
    assert_eq!(sb.id_table_start, 4000);
    assert_eq!(sb.xattr_table_start, 0xFFFF_FFFF_FFFF_FFFF);
    assert_eq!(sb.inode_table_start, 1000);
    assert_eq!(sb.dir_table_start, 2000);
    assert_eq!(sb.frag_table_start, 3000);
    assert_eq!(sb.export_table_start, 3500);
}

#[test]
fn superblock_ignores_what_follows() {
    let img = valid_image(1);
    let mut longer = img.clone();
    longer.extend_from_slice(&[0xAB; 40]);
    assert_eq!(Superblock::parse(&longer).unwrap(), Superblock::parse(&img).unwrap());
}

#[test]
fn superblock_checks() {
    let sb = Superblock::parse(&valid_image(1)).unwrap();
    assert!(sb.valid_magic());
    assert!(sb.valid_block_log());
    assert!(sb.valid_version());
    let bad = Superblock::parse(&superblock_bytes(0x1234, 131072, 1, 16, (3, 1))).unwrap();
    assert!(!bad.valid_magic());
    assert!(!bad.valid_block_log());
    assert!(!bad.valid_version());
}

#[test]
fn block_log_follows_single_precision() {
    let mut sb = Superblock::parse(&valid_image(1)).unwrap();
    sb.block_size = 4096;
    sb.block_log = 12;
    assert!(sb.valid_block_log());
    sb.block_size = 6000;
    assert!(sb.valid_block_log());
    sb.block_size = 8191;
    assert!(sb.valid_block_log());
    sb.block_size = 8192;
    assert!(!sb.valid_block_log());
    sb.block_size = 0;
    sb.block_log = 0;
    assert!(sb.valid_block_log());
    sb.block_size = 1;
    assert!(sb.valid_block_log());
    // single precision rounds 2^25 - 1 up to 2^25, so its block log is 25
    sb.block_size = (1 << 25) - 1;
    sb.block_log = 25;
    assert!(sb.valid_block_log());
    sb.block_log = 24;
    assert!(!sb.valid_block_log());
    // ties go to even: 2^24 + 1 rounds down to 2^24, 2^25 - 3 down to 2^25 - 4;
    // 2^25 - 2 is exact
    sb.block_size = (1 << 24) + 1;
    assert!(sb.valid_block_log());
    sb.block_size = (1 << 25) - 2;
    assert!(sb.valid_block_log());
    sb.block_size = (1 << 25) - 3;
    sb.block_log = 24;
    assert!(sb.valid_block_log());
    sb.block_size = u32::MAX;
    sb.block_log = 32;
    assert!(sb.valid_block_log());
}

#[test]
fn read_takes_superblock() {
    let img = valid_image(6);
    let sq = read(&img).unwrap();
    assert_eq!(sq.supe, Superblock::parse(&img).unwrap());
    assert_eq!(read(&img[..95]).unwrap_err(), SquashError::UnexpectedEof);
}

#[test]
fn open_picks_compressor() {
    let cases = [
        (0u16, Compressor::Passthrough),
        (1, Compressor::Zlib),
        (2, Compressor::XzLzma),
        (4, Compressor::XzLzma),
        (5, Compressor::Lz4),
        (6, Compressor::Zstd),
    ];
    for (id, c) in cases {
        assert_eq!(Squashfs::check(&valid_image(id)), Ok(()));
        let fs = Squashfs::new(valid_image(id));
        assert_eq!(fs.compressor(), c);
        assert_eq!(fs.superblock().compressor, id);
        assert_eq!(fs.image().len(), 96);
    }
}

#[test]
fn open_rejects_bad_superblocks() {
    assert_eq!(Squashfs::check(&valid_image(7)).err(), Some(SquashError::UnsupportedCompressor));
    // LZO archives are not supported
    assert_eq!(Squashfs::check(&valid_image(3)).err(), Some(SquashError::UnsupportedCompressor));
    assert_eq!(
        Squashfs::check(&superblock_bytes(0x73717369, 131072, 1, 17, (4, 0))).err(),
        Some(SquashError::InvalidMagic)
    );
    assert_eq!(
        Squashfs::check(&superblock_bytes(0x73717368, 131072, 1, 16, (4, 0))).err(),
        Some(SquashError::BadBlockLog)
    );
    assert_eq!(
        Squashfs::check(&superblock_bytes(0x73717368, 131072, 1, 17, (4, 1))).err(),
        Some(SquashError::UnsupportedVersion)
    );
    assert_eq!(
        Squashfs::check(&superblock_bytes(0x73717368, 131072, 1, 17, (3, 0))).err(),
        Some(SquashError::UnsupportedVersion)
    );
    assert_eq!(Squashfs::check(&[0u8; 10]).err(), Some(SquashError::UnexpectedEof));
    // the magic is checked before the block log
    assert_eq!(
        Squashfs::check(&superblock_bytes(0, 131072, 9, 3, (1, 1))).err(),
        Some(SquashError::InvalidMagic)
    );
}
