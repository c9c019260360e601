use std::io::Write;

use squashfs::decompress::Compressor;
use squashfs::metadata::MetadataReader;
use squashfs::SquashError;

fn stored_block(bytes: &[u8]) -> Vec<u8> {
    let mut v = ((bytes.len() as u16) | 0x8000).to_le_bytes().to_vec();
    v.extend_from_slice(bytes);
    v
}

fn compressed_block(packed: &[u8]) -> Vec<u8> {
    let mut v = (packed.len() as u16).to_le_bytes().to_vec();
    v.extend_from_slice(packed);
    v
}

#[test]
fn stored_block_reads_back() {
    let mut img = vec![0xAA, 0xBB];
    img.extend(stored_block(&[1, 2, 3, 4, 5, 6]));
    let mut r = MetadataReader::new(&img, 2, Compressor::Zlib).unwrap();
    assert_eq!(r.read(2).unwrap(), vec![1, 2]);
    assert_eq!(r.read(0).unwrap(), Vec::<u8>::new());
    assert_eq!(r.read(3).unwrap(), vec![3, 4, 5]);
}

#[test]
fn compressed_block_is_decoded() {
    let data: Vec<u8> = (0..200u32).map(|i| (i * 7 % 256) as u8).collect();
    let mut enc = flate2::write::ZlibEncoder::new(Vec::new(), flate2::Compression::best());
    enc.write_all(&data).unwrap();
    let packed = enc.finish().unwrap();
    let img = compressed_block(&packed);
    let mut r = MetadataReader::new(&img, 0, Compressor::Zlib).unwrap();
    assert_eq!(r.read(150).unwrap(), data[..150].to_vec());
    let passthrough = compressed_block(&[7, 8, 9]);
    let mut p = MetadataReader::new(&passthrough, 0, Compressor::Passthrough).unwrap();
    assert_eq!(p.read(2).unwrap(), vec![7, 8]);
}

#[test]
fn next_block_reads_from_its_front() {
    // Using up a block loads the next one, and reading goes on at its first byte.
    let mut img = stored_block(&[1, 2]);
    img.extend(stored_block(&[3, 4, 5, 6]));
    img.extend(stored_block(&[7, 8, 9]));
    let mut r = MetadataReader::new(&img, 0, Compressor::Passthrough).unwrap();
    assert_eq!(r.read(2).unwrap(), vec![1, 2]);
    assert_eq!(r.read(1).unwrap(), vec![3]);
    assert_eq!(r.read(5).unwrap(), vec![4, 5, 6, 7, 8]);
    // using up the last block wants one more after it
    assert_eq!(r.read(1).err(), Some(SquashError::UnexpectedEof));
}

#[test]
fn split_reads_match_one_read() {
    let mut img = stored_block(&[1, 2, 3, 4]);
    img.extend(stored_block(&[10, 11, 12, 13, 14, 15, 16, 17]));
    img.extend(stored_block(&[]));
    img.extend(stored_block(&[20, 21, 22, 23, 24, 25, 26, 27, 28, 29]));
    let mut whole = MetadataReader::new(&img, 0, Compressor::Passthrough).unwrap();
    let all = whole.read(14).unwrap();
    let mut parts = MetadataReader::new(&img, 0, Compressor::Passthrough).unwrap();
    let mut joined = parts.read(3).unwrap();
    joined.extend(parts.read(11).unwrap());
    assert_eq!(all, joined);
    assert_eq!(all, vec![1, 2, 3, 4, 10, 11, 12, 13, 14, 15, 16, 17, 20, 21]);
    assert_eq!(whole.read(1).unwrap(), parts.read(1).unwrap());
}

#[test]
fn metadata_eof_errors() {
    assert_eq!(MetadataReader::new(&[0x05], 0, Compressor::Passthrough).err(), Some(SquashError::UnexpectedEof));
    assert_eq!(MetadataReader::new(&[0x05, 0x80, 1, 2], 0, Compressor::Passthrough).err(), Some(SquashError::UnexpectedEof));
    assert_eq!(MetadataReader::new(&[1, 2], 5, Compressor::Passthrough).err(), Some(SquashError::UnexpectedEof));
    let img = stored_block(&[1, 2]);
    let mut r = MetadataReader::new(&img, 0, Compressor::Passthrough).unwrap();
    assert_eq!(r.read(3).err(), Some(SquashError::UnexpectedEof));
    // the failed read left the reader where it was
    assert_eq!(r.read(1).unwrap(), vec![1]);
    assert_eq!(MetadataReader::new(&compressed_block(&[1, 2, 3]), 0, Compressor::Zstd).err(), Some(SquashError::DecompressFailed));
}
