//! Block decompression: the compressors a squashfs archive can name, and what
//! decoding one block with each of them gives.
use std::io::Read;

use vstd::prelude::*;

use crate::error::SquashError;

verus! {

/// The compressor an archive uses for its blocks.
#[derive(Debug, Clone, Copy, PartialEq, Eq, Structural)]
pub enum Compressor {
    /// Blocks are stored as they are.
    Passthrough,
    /// zlib streams (flate2).
    Zlib,
    /// xz streams (liblzma).
    XzLzma,
    /// LZO1X blocks that decompress to at most `max_size` bytes (minilzo). No compressor
    /// id of a superblock selects it: archives that name LZO are not supported.
    Lzo { max_size: u32 },
    /// LZ4 frames (lz4).
    Lz4,
    /// zstd frames (zstd).
    Zstd,
}

/// What flate2's `ZlibDecoder`, read to its end, gives for `data`; `None` when it reports an error.
pub uninterp spec fn zlib_inflate(data: Seq<u8>) -> Option<Seq<u8>>;

/// What rust-lzma's xz `LzmaReader`, read to its end, gives for `data`; `None` on error.
pub uninterp spec fn xz_inflate(data: Seq<u8>) -> Option<Seq<u8>>;

/// What minilzo's `decompress_safe` gives for `data` with output size `max_size`; `None` on error.
pub uninterp spec fn lzo_inflate(data: Seq<u8>, max_size: nat) -> Option<Seq<u8>>;

/// What lz4's frame `Decoder`, read to its end, gives for `data`; `None` on error.
pub uninterp spec fn lz4_inflate(data: Seq<u8>) -> Option<Seq<u8>>;

/// What zstd's `decode_all` gives for `data`; `None` on error.
pub uninterp spec fn zstd_inflate(data: Seq<u8>) -> Option<Seq<u8>>;

/// Calls `flate2::read::ZlibDecoder::new(data).read_to_end(..)`.
/// Claims only that the outcome is `zlib_inflate` of the input.
#[verifier::external_body]
fn zlib_decode(data: &[u8]) -> (r: Option<Vec<u8>>)
    ensures
        match r {
            Some(v) => zlib_inflate(data@) == Some(v@),
            None => zlib_inflate(data@) is None,
        },
{
    let mut buf: Vec<u8> = Vec::new();
    match flate2::read::ZlibDecoder::new(data).read_to_end(&mut buf) {
        Ok(_) => Some(buf),
        Err(_) => None,
    }
}

/// Calls `lzma::LzmaReader::new_decompressor(data)` and reads it to its end.
/// Claims only that the outcome is `xz_inflate` of the input.
#[verifier::external_body]
fn xz_decode(data: &[u8]) -> (r: Option<Vec<u8>>)
    ensures
        match r {
            Some(v) => xz_inflate(data@) == Some(v@),
            None => xz_inflate(data@) is None,
        },
{
    let mut buf: Vec<u8> = Vec::new();
    match lzma::LzmaReader::new_decompressor(data) {
        Ok(mut rd) => match rd.read_to_end(&mut buf) {
            Ok(_) => Some(buf),
            Err(_) => None,
        },
        Err(_) => None,
    }
}

/// Calls `minilzo_rs::LZO::init()` and then `decompress_safe(data, max_size)`.
/// Claims only that the outcome is `lzo_inflate` of the inputs.
#[verifier::external_body]
fn lzo_decode(data: &[u8], max_size: u32) -> (r: Option<Vec<u8>>)
    ensures
        match r {
            Some(v) => lzo_inflate(data@, max_size as nat) == Some(v@),
            None => lzo_inflate(data@, max_size as nat) is None,
        },
{
    match minilzo_rs::LZO::init() {
        Ok(lzo) => lzo.decompress_safe(data, max_size as usize).ok(),
        Err(_) => None,
    }
}

/// Calls `lz4::Decoder::new(data)` and reads it to its end.
/// Claims only that the outcome is `lz4_inflate` of the input.
#[verifier::external_body]
fn lz4_decode(data: &[u8]) -> (r: Option<Vec<u8>>)
    ensures
        match r {
            Some(v) => lz4_inflate(data@) == Some(v@),
            None => lz4_inflate(data@) is None,
        },
{
    let mut buf: Vec<u8> = Vec::new();
    match lz4::Decoder::new(data) {
        Ok(mut d) => match d.read_to_end(&mut buf) {
            Ok(_) => Some(buf),
            Err(_) => None,
        },
        Err(_) => None,
    }
}

/// Calls `zstd::decode_all(data)`.
/// Claims only that the outcome is `zstd_inflate` of the input.
#[verifier::external_body]
fn zstd_decode(data: &[u8]) -> (r: Option<Vec<u8>>)
    ensures
        match r {
            Some(v) => zstd_inflate(data@) == Some(v@),
            None => zstd_inflate(data@) is None,
        },
{
    zstd::decode_all(data).ok()
}

/// What decoding one block `data` with compressor `c` gives; `None` when the compressor fails.
pub open spec fn spec_decode_block(c: Compressor, data: Seq<u8>) -> Option<Seq<u8>> {
    match c {
        Compressor::Passthrough => Some(data),
        Compressor::Zlib => zlib_inflate(data),
        Compressor::XzLzma => xz_inflate(data),
        Compressor::Lzo { max_size } => lzo_inflate(data, max_size as nat),
        Compressor::Lz4 => lz4_inflate(data),
        Compressor::Zstd => zstd_inflate(data),
    }
}

/// The compressor that compressor id `id` of a superblock stands for: 0 none, 1 zlib,
/// 2 and 4 xz/lzma, 5 LZ4, 6 zstd. LZO archives (id 3) are not supported, so id 3,
/// like any id above 6, stands for none.
pub open spec fn spec_compressor_for(id: u16) -> Option<Compressor> {
    if id == 0 {
        Some(Compressor::Passthrough)
    } else if id == 1 {
        Some(Compressor::Zlib)
    } else if id == 2 || id == 4 {
        Some(Compressor::XzLzma)
    } else if id == 5 {
        Some(Compressor::Lz4)
    } else if id == 6 {
        Some(Compressor::Zstd)
    } else {
        None
    }
}

/// The id a superblock names each compressor by: 0 none, 1 zlib, 3 LZO, 4 xz, 5 LZ4,
/// 6 zstd (2, lzma, also selects the xz/lzma decoder).
pub open spec fn compressor_id(c: Compressor) -> u16 {
    match c {
        Compressor::Passthrough => 0,
        Compressor::Zlib => 1,
        Compressor::Lzo { .. } => 3,
        Compressor::XzLzma => 4,
        Compressor::Lz4 => 5,
        Compressor::Zstd => 6,
    }
}

/// Each supported compressor is what its id selects, lzma's id 2 selects the same
/// decoder as xz's 4, and LZO's id and every id above 6 select none.
pub proof fn lemma_compressor_ids(c: Compressor, id: u16)
    ensures
        !(c is Lzo) ==> spec_compressor_for(compressor_id(c)) == Some(c),
        spec_compressor_for(2) == Some(Compressor::XzLzma),
        c is Lzo ==> spec_compressor_for(compressor_id(c)) is None,
        id > 6 ==> spec_compressor_for(id) is None,
{
}

impl Compressor {
    /// The compressor for compressor id `id`, or `None` for an id that names none.
    pub fn for_id(id: u16) -> (r: Option<Compressor>)
        ensures
            r == spec_compressor_for(id),
    {
        match id {
            0 => Some(Compressor::Passthrough),
            1 => Some(Compressor::Zlib),
            2 => Some(Compressor::XzLzma),
            4 => Some(Compressor::XzLzma),
            5 => Some(Compressor::Lz4),
            6 => Some(Compressor::Zstd),
            _ => None,
        }
    }

    /// Decodes one block with this compressor.
    pub fn decode_block(&self, data: &[u8]) -> (r: Result<Vec<u8>, SquashError>)
        ensures
            match r {
                Ok(v) => spec_decode_block(*self, data@) == Some(v@),
                Err(e) => spec_decode_block(*self, data@) is None && e == SquashError::DecompressFailed,
            },
    {
        let out = match self {
            Compressor::Passthrough => Some(vstd::slice::slice_to_vec(data)),
            Compressor::Zlib => zlib_decode(data),
            Compressor::XzLzma => xz_decode(data),
            Compressor::Lzo { max_size } => lzo_decode(data, *max_size),
            Compressor::Lz4 => lz4_decode(data),
            Compressor::Zstd => zstd_decode(data),
        };
        match out {
            Some(v) => Ok(v),
            None => Err(SquashError::DecompressFailed),
        }
    }
}

} // verus!
