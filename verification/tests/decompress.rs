use std::io::Write;

use squashfs::decompress::Compressor;
use squashfs::SquashError;

fn sample() -> Vec<u8> {
    let mut v = Vec::new();
    for i in 0..3000u32 {
        v.push((i % 251) as u8);
        v.push(b'a' + (i % 7) as u8);
    }
    v
}

#[test]
fn passthrough_keeps_bytes() {
    let data = sample();
    assert_eq!(Compressor::Passthrough.decode_block(&data).unwrap(), data);
}

#[test]
fn zlib_block_decodes() {
    let data = sample();
    let mut enc = flate2::write::ZlibEncoder::new(Vec::new(), flate2::Compression::default());
    enc.write_all(&data).unwrap();
    let packed = enc.finish().unwrap();
    assert_eq!(Compressor::Zlib.decode_block(&packed).unwrap(), data);
    assert_eq!(Compressor::Zlib.decode_block(&[1, 2, 3, 4]).err(), Some(SquashError::DecompressFailed));
}

#[test]
fn xz_block_decodes() {
    let data = sample();
    let packed = lzma::compress(&data, 6).unwrap();
    assert_eq!(Compressor::XzLzma.decode_block(&packed).unwrap(), data);
    assert_eq!(Compressor::XzLzma.decode_block(&[9, 9, 9, 9, 9, 9]).err(), Some(SquashError::DecompressFailed));
}

#[test]
fn lzo_block_decodes() {
    let data = sample();
    let mut lzo = minilzo_rs::LZO::init().unwrap();
    let packed = lzo.compress(&data).unwrap();
    let c = Compressor::Lzo { max_size: data.len() as u32 };
    assert_eq!(c.decode_block(&packed).unwrap(), data);
}

#[test]
fn lz4_block_decodes() {
    let data = sample();
    let mut enc = lz4::EncoderBuilder::new().build(Vec::new()).unwrap();
    enc.write_all(&data).unwrap();
    let (packed, res) = enc.finish();
    res.unwrap();
    assert!(packed.len() < data.len());
    assert_eq!(Compressor::Lz4.decode_block(&packed).unwrap(), data);
    assert_eq!(Compressor::Lz4.decode_block(&[1, 2, 3, 4, 5, 6, 7]).err(), Some(SquashError::DecompressFailed));
}

#[test]
fn zstd_block_decodes() {
    let data = sample();
    let packed = zstd::encode_all(&data[..], 3).unwrap();
    assert_eq!(Compressor::Zstd.decode_block(&packed).unwrap(), data);
    assert_eq!(Compressor::Zstd.decode_block(&[0, 1, 2]).err(), Some(SquashError::DecompressFailed));
}

#[test]
fn compressor_ids() {
    assert_eq!(Compressor::for_id(0), Some(Compressor::Passthrough));
    assert_eq!(Compressor::for_id(2), Some(Compressor::XzLzma));
    assert_eq!(Compressor::for_id(3), None);
    assert_eq!(Compressor::for_id(4), Some(Compressor::XzLzma));
    assert_eq!(Compressor::for_id(6), Some(Compressor::Zstd));
    assert_eq!(Compressor::for_id(7), None);
    assert_eq!(Compressor::for_id(0xFFFF), None);
}
