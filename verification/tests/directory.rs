use squashfs::directory::{decode_directory, DirHeader, Entry};
use squashfs::SquashError;

fn dir_header(count: u32, start: u32, inode_number: u32) -> Vec<u8> {
    let mut v = Vec::new();
    for x in [count, start, inode_number] {
        v.extend_from_slice(&x.to_le_bytes());
    }
    v
}

fn entry(offset: u16, inode_offset: i16, inode_type: u16, name: &[u8]) -> Vec<u8> {
    let mut v = Vec::new();
    v.extend_from_slice(&offset.to_le_bytes());
    v.extend_from_slice(&inode_offset.to_le_bytes());
    v.extend_from_slice(&inode_type.to_le_bytes());
    v.extend_from_slice(&(name.len() as u16).to_le_bytes());
    v.extend_from_slice(name);
    v
}

#[test]
fn entry_inode_numbers_are_relative() {
    let h = DirHeader { count: 0, start: 8192, inode_number: 100 };
    let img = entry(32, -3, 2, b"a.txt");
    let (e, end) = Entry::decode(&img, 0, &h).unwrap();
    assert_eq!(end, img.len());
    assert_eq!((e.inode_number, e.inode_type, e.inode_start, e.inode_offset), (97, 2, 8192, 32));
    assert_eq!(e.name, b"a.txt".to_vec());
    // base above i32::MAX counts as negative: -1 + 1 == 0
    let h = DirHeader { count: 0, start: 0, inode_number: u32::MAX };
    let (e, _) = Entry::decode(&entry(0, 1, 1, b"x"), 0, &h).unwrap();
    assert_eq!(e.inode_number, 0);
    let h = DirHeader { count: 0, start: 0, inode_number: 0x7FFF_FFFF };
    assert_eq!(Entry::decode(&entry(0, 1, 1, b"x"), 0, &h).err(), Some(SquashError::Overflow));
}

#[test]
fn listing_of_two_runs() {
    let mut img = dir_header(1, 0, 10);
    img.extend(entry(0, 1, 1, b"bin"));
    img.extend(entry(40, 2, 2, b"hello"));
    img.extend(dir_header(0, 4096, 50));
    img.extend(entry(8, -5, 3, b"link"));
    let body = img.len();
    img.extend_from_slice(&[0xFF; 4]);
    // the recorded size is the listing's length plus 3
    let (entries, end) = decode_directory(&img, 0, body as u32 + 3).unwrap();
    assert_eq!(end, body);
    let names: Vec<Vec<u8>> = entries.iter().map(|e| e.name.clone()).collect();
    assert_eq!(names, vec![b"bin".to_vec(), b"hello".to_vec(), b"link".to_vec()]);
    let numbers: Vec<u32> = entries.iter().map(|e| e.inode_number).collect();
    assert_eq!(numbers, vec![11, 12, 45]);
    assert_eq!(entries[2].inode_start, 4096);
}

#[test]
fn empty_listing() {
    let (entries, end) = decode_directory(&[], 0, 3).unwrap();
    assert!(entries.is_empty());
    assert_eq!(end, 0);
}

#[test]
fn one_entry_listing() {
    let img = [0, 0, 0, 0, 0x20, 0, 0, 0, 100, 0, 0, 0, 0x10, 0, 2, 0, 2, 0, 1, 0, b'a', 0xCC];
    let (entries, end) = decode_directory(&img, 0, 24).unwrap();
    assert_eq!(end, 21);
    assert_eq!(entries.len(), 1);
    let e = &entries[0];
    assert_eq!((e.inode_number, e.inode_type, e.inode_start, e.inode_offset), (102, 2, 0x20, 0x10));
    assert_eq!(e.name, b"a".to_vec());
}

#[test]
fn listing_size_errors() {
    assert_eq!(decode_directory(&[], 0, 2).err(), Some(SquashError::Overflow));
    let mut img = dir_header(0, 0, 1);
    img.extend(entry(0, 0, 1, b"abc"));
    assert_eq!(img.len(), 23);
    assert_eq!(decode_directory(&img, 0, 3 + 23).unwrap().0.len(), 1);
    // a size that ends inside the entry
    assert_eq!(decode_directory(&img, 0, 3 + 22).err(), Some(SquashError::Overflow));
    // a size that ends inside the header
    assert_eq!(decode_directory(&img, 0, 3 + 10).err(), Some(SquashError::Overflow));
    // a size that runs past the data
    assert_eq!(decode_directory(&img, 0, 3 + 24).err(), Some(SquashError::UnexpectedEof));
    // a run count of u32::MAX cannot be incremented
    let huge = dir_header(u32::MAX, 0, 0);
    assert_eq!(decode_directory(&huge, 0, 100).err(), Some(SquashError::Overflow));
    // a name that runs past the data
    let mut short = dir_header(0, 0, 1);
    short.extend_from_slice(&[0, 0, 0, 0, 1, 0, 4, 0]);
    short.extend_from_slice(b"abc");
    assert_eq!(decode_directory(&short, 0, 3 + 24).err(), Some(SquashError::UnexpectedEof));
}
