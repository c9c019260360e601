use squashfs::inode::{ExtFileInode, FileInode, Inode, InodeData, InodeHeader, SymInode};
use squashfs::SquashError;

fn header(t: u16) -> Vec<u8> {
    let mut v = Vec::new();
    v.extend_from_slice(&t.to_le_bytes());
    v.extend_from_slice(&0o755u16.to_le_bytes());
    v.extend_from_slice(&1u16.to_le_bytes());
    v.extend_from_slice(&2u16.to_le_bytes());
    v.extend_from_slice(&123456u32.to_le_bytes());
    v.extend_from_slice(&42u32.to_le_bytes());
    v
}

fn u16s(v: &mut Vec<u8>, xs: &[u16]) {
    for x in xs {
        v.extend_from_slice(&x.to_le_bytes());
    }
}

fn u32s(v: &mut Vec<u8>, xs: &[u32]) {
    for x in xs {
        v.extend_from_slice(&x.to_le_bytes());
    }
}

#[test]
fn header_fields() {
    let (h, end) = InodeHeader::decode(&header(3), 0).unwrap();
    assert_eq!((h.inode_type, h.permissions, h.uid_index, h.gid_index, h.mod_time, h.number), (3, 0o755, 1, 2, 123456, 42));
    assert_eq!(end, 16);
}

#[test]
fn dir_inode_decodes() {
    let mut img = header(1);
    u32s(&mut img, &[100]);
    u16s(&mut img, &[3]);
    u32s(&mut img, &[70]);
    u16s(&mut img, &[12]);
    u32s(&mut img, &[9]);
    img.push(0xEE);
    let (inode, end) = Inode::decode(&img, 0, 4096).unwrap();
    assert_eq!(end, 32);
    match inode.data {
        InodeData::Dir(d) => {
            assert_eq!((d.block_start, d.link_count, d.size, d.block_offset, d.parent_inode), (100, 3, 70, 12, 9))
        }
        _ => panic!("expected a directory"),
    }
}

#[test]
fn file_inode_block_list() {
    // 10000 bytes in blocks of 4096 with no fragment: three block sizes
    let mut img = header(2);
    u32s(&mut img, &[500, 0xFFFF_FFFF, 0, 10000]);
    u32s(&mut img, &[4000, 4100, 1800]);
    img.push(0xEE);
    let (inode, end) = Inode::decode(&img, 0, 4096).unwrap();
    assert_eq!(end, 16 + 16 + 12);
    match inode.data {
        InodeData::File(f) => {
            assert_eq!((f.block_start, f.frag_index, f.block_offset, f.size), (500, 0xFFFF_FFFF, 0, 10000));
            assert_eq!(f.block_sizes, vec![4000, 4100, 1800]);
        }
        _ => panic!("expected a file"),
    }
    // with a fragment, only the one whole block counts; its tail is in the fragment
    let mut frag = Vec::new();
    u32s(&mut frag, &[96, 0, 0, 5000, 1234, 0xFFFF_FFFF]);
    let (f, end) = FileInode::decode(&frag, 0, 4096).unwrap();
    assert_eq!((f.block_start, f.frag_index, f.size), (96, 0, 5000));
    assert_eq!(f.block_sizes, vec![1234]);
    assert_eq!(end, 20);
}

#[test]
fn file_inode_errors() {
    let mut img = Vec::new();
    u32s(&mut img, &[0, 0, 0, 10]);
    assert_eq!(FileInode::decode(&img, 0, 0).err(), Some(SquashError::ZeroBlockSize));
    let mut big = Vec::new();
    u32s(&mut big, &[0, 0, 0, u32::MAX]);
    assert_eq!(FileInode::decode(&big, 0, 1).err(), Some(SquashError::Overflow));
    let mut short = Vec::new();
    u32s(&mut short, &[0, 0xFFFF_FFFF, 0, 5000]);
    short.extend_from_slice(&[0, 0, 0, 0, 0, 0, 0]);
    assert_eq!(FileInode::decode(&short, 0, 4096).err(), Some(SquashError::UnexpectedEof));
}

#[test]
fn ext_file_inode_decodes() {
    let mut img = header(9);
    for x in [1u64 << 40, (1u64 << 32) + 1, 0] {
        img.extend_from_slice(&x.to_le_bytes());
    }
    u32s(&mut img, &[2, 0xFFFF_FFFF, 0, 3]);
    // 2^32 + 1 bytes in blocks of 2^31 without a fragment: three block sizes
    u32s(&mut img, &[7, 8, 9, 10]);
    let (inode, end) = Inode::decode(&img, 0, 1 << 31).unwrap();
    assert_eq!(end, 16 + 40 + 12);
    match inode.data {
        InodeData::ExtFile(f) => {
            assert_eq!((f.block_start, f.size, f.link_count, f.frag_index, f.xattr_index), (1u64 << 40, (1u64 << 32) + 1, 2, 0xFFFF_FFFF, 3));
            assert_eq!(f.block_sizes, vec![7, 8, 9]);
        }
        _ => panic!("expected an extended file"),
    }
}

#[test]
fn ext_file_inode_errors() {
    let mut img = Vec::new();
    for x in [0u64, u64::MAX, 0] {
        img.extend_from_slice(&x.to_le_bytes());
    }
    u32s(&mut img, &[1, 0, 0, 0]);
    assert_eq!(ExtFileInode::decode(&img, 0, 1).err(), Some(SquashError::Overflow));
    assert_eq!(ExtFileInode::decode(&img, 0, 0).err(), Some(SquashError::ZeroBlockSize));
    assert_eq!(ExtFileInode::decode(&img[..39], 0, 1).err(), Some(SquashError::UnexpectedEof));
}

#[test]
fn symlink_inodes_decode() {
    let target = b"/usr/bin/true";
    let mut img = header(3);
    u32s(&mut img, &[1, target.len() as u32]);
    img.extend_from_slice(target);
    let (inode, end) = Inode::decode(&img, 0, 4096).unwrap();
    assert_eq!(end, img.len());
    match inode.data {
        InodeData::Sym(s) => {
            assert_eq!(s.path, target.to_vec());
            assert_eq!(s.path_size, 13);
        }
        _ => panic!("expected a symlink"),
    }
    let mut ext = header(10);
    u32s(&mut ext, &[1, target.len() as u32]);
    ext.extend_from_slice(target);
    u32s(&mut ext, &[99]);
    let (inode, end) = Inode::decode(&ext, 0, 4096).unwrap();
    assert_eq!(end, ext.len());
    match inode.data {
        InodeData::ExtSym(s) => {
            assert_eq!(s.path, target.to_vec());
            assert_eq!(s.xattr_index, 99);
        }
        _ => panic!("expected an extended symlink"),
    }
    let mut short = Vec::new();
    u32s(&mut short, &[1, 5]);
    short.extend_from_slice(b"abcd");
    assert_eq!(SymInode::decode(&short, 0).err(), Some(SquashError::UnexpectedEof));
}

#[test]
fn device_and_ipc_inodes_decode() {
    let mut img = header(4);
    u32s(&mut img, &[1, 0x0801]);
    match Inode::decode(&img, 0, 4096).unwrap().0.data {
        InodeData::BlockDev(d) => assert_eq!((d.link_count, d.dev_number), (1, 0x0801)),
        _ => panic!("expected a block device"),
    }
    let mut img = header(12);
    u32s(&mut img, &[1, 0x0501, 6]);
    match Inode::decode(&img, 0, 4096).unwrap().0.data {
        InodeData::ExtCharDev(d) => assert_eq!((d.link_count, d.dev_number, d.xattr_index), (1, 0x0501, 6)),
        _ => panic!("expected an extended char device"),
    }
    let mut img = header(7);
    u32s(&mut img, &[4]);
    let (inode, end) = Inode::decode(&img, 0, 4096).unwrap();
    assert_eq!(end, 20);
    assert!(matches!(inode.data, InodeData::Socket(_)));
    let mut img = header(13);
    u32s(&mut img, &[4, 8]);
    assert!(matches!(Inode::decode(&img, 0, 4096).unwrap().0.data, InodeData::ExtFifo(_)));
}

#[test]
fn ext_dir_inode_with_indexes() {
    let name = b"lib".to_vec();
    let mut img = header(8);
    u32s(&mut img, &[2, 300, 40, 1]);
    u16s(&mut img, &[2, 16]);
    u32s(&mut img, &[0xFFFF_FFFF]);
    for i in 0..2u32 {
        u32s(&mut img, &[i, 10 * i, name.len() as u32]);
        img.extend(name.clone());
    }
    let (inode, end) = Inode::decode(&img, 0, 4096).unwrap();
    assert_eq!(end, img.len());
    match inode.data {
        InodeData::ExtDir(d) => {
            assert_eq!((d.link_count, d.size, d.block_start, d.parent_inode), (2, 300, 40, 1));
            assert_eq!((d.index_count, d.block_offset, d.xattr_index), (2, 16, 0xFFFF_FFFF));
            assert_eq!(d.dir_indexes.len(), 2);
            assert_eq!(d.dir_indexes[1].offset, 10);
            assert_eq!(d.dir_indexes[1].name, b"lib".to_vec());
        }
        _ => panic!("expected an extended directory"),
    }
}

#[test]
fn inode_types_and_eof() {
    assert!(InodeHeader::decode(&header(14), 0).unwrap().0.has_supported_type());
    assert!(InodeHeader::decode(&header(1), 0).unwrap().0.has_supported_type());
    assert!(!InodeHeader::decode(&header(15), 0).unwrap().0.has_supported_type());
    assert!(!InodeHeader::decode(&header(0), 0).unwrap().0.has_supported_type());
    assert_eq!(Inode::decode(&header(1), 0, 4096).err(), Some(SquashError::UnexpectedEof));
    assert_eq!(Inode::decode(&header(1)[..15], 0, 4096).err(), Some(SquashError::UnexpectedEof));
}
