//! An opened archive: its image, its checked superblock and the compressor it names.
use vstd::prelude::*;

use crate::decompress::{spec_compressor_for, Compressor};
use crate::error::SquashError;
use crate::superblock::{f32_of, floor_log2, spec_superblock, Superblock, SQUASHFS_MAGIC, SUPERBLOCK_SIZE};

verus! {

/// What opening the archive image `s` gives: its superblock and compressor, or the
/// first check that fails, in the order the checks are made.
pub open spec fn spec_open_archive(s: Seq<u8>) -> Result<(Superblock, Compressor), SquashError> {
    if s.len() < SUPERBLOCK_SIZE {
        Err(SquashError::UnexpectedEof)
    } else {
        let sb = spec_superblock(s);
        if sb.magic != SQUASHFS_MAGIC {
            Err(SquashError::InvalidMagic)
        } else if sb.block_log != floor_log2(f32_of(sb.block_size as nat)) {
            Err(SquashError::BadBlockLog)
        } else if !(sb.ver_maj == 4 && sb.ver_min == 0) {
            Err(SquashError::UnsupportedVersion)
        } else {
            match spec_compressor_for(sb.compressor) {
                Some(c) => Ok((sb, c)),
                None => Err(SquashError::UnsupportedCompressor),
            }
        }
    }
}

/// An archive image opens exactly when it holds a whole superblock that has the magic
/// number, a block log matching its block size, version 4.0 and a compressor id of at
/// most 6 other than 3 (LZO, which is not supported); ids 2 and 4 both give xz.
pub proof fn lemma_open_iff_checks(s: Seq<u8>)
    ensures
        spec_open_archive(s) is Ok <==> {
            &&& s.len() >= SUPERBLOCK_SIZE
            &&& spec_superblock(s).magic == SQUASHFS_MAGIC
            &&& spec_superblock(s).block_log == floor_log2(f32_of(spec_superblock(s).block_size as nat))
            &&& spec_superblock(s).ver_maj == 4 && spec_superblock(s).ver_min == 0
            &&& spec_superblock(s).compressor <= 6
            &&& spec_superblock(s).compressor != 3
        },
        spec_open_archive(s) matches Ok((sb, c)) ==> {
            &&& sb == spec_superblock(s)
            &&& (sb.compressor == 2 || sb.compressor == 4 ==> c == Compressor::XzLzma)
        },
{
}

/// Opening reports the first check that fails, in the order magic number ("hsqs"),
/// block log, version 4.0, compressor id: the error says which check the image failed
/// first, whatever the later fields hold.
pub proof fn lemma_open_errors(s: Seq<u8>)
    ensures
        s.len() < 96 ==> spec_open_archive(s) == Err::<(Superblock, Compressor), SquashError>(SquashError::UnexpectedEof),
        s.len() >= 96 && spec_superblock(s).magic != 0x73717368
            ==> spec_open_archive(s) == Err::<(Superblock, Compressor), SquashError>(SquashError::InvalidMagic),
        s.len() >= 96 && spec_superblock(s).magic == 0x73717368
            && spec_superblock(s).block_log != floor_log2(f32_of(spec_superblock(s).block_size as nat))
            ==> spec_open_archive(s) == Err::<(Superblock, Compressor), SquashError>(SquashError::BadBlockLog),
        s.len() >= 96 && spec_superblock(s).magic == 0x73717368
            && spec_superblock(s).block_log == floor_log2(f32_of(spec_superblock(s).block_size as nat))
            && !(spec_superblock(s).ver_maj == 4 && spec_superblock(s).ver_min == 0)
            ==> spec_open_archive(s) == Err::<(Superblock, Compressor), SquashError>(SquashError::UnsupportedVersion),
        s.len() >= 96 && spec_superblock(s).magic == 0x73717368
            && spec_superblock(s).block_log == floor_log2(f32_of(spec_superblock(s).block_size as nat))
            && spec_superblock(s).ver_maj == 4 && spec_superblock(s).ver_min == 0
            && (spec_superblock(s).compressor > 6 || spec_superblock(s).compressor == 3)
            ==> spec_open_archive(s) == Err::<(Superblock, Compressor), SquashError>(SquashError::UnsupportedCompressor),
{
}

/// An opened archive.
pub struct Squashfs {
    data: Vec<u8>,
    sup: Superblock,
    decomp: Compressor,
}

/// What an opened archive holds.
pub struct SquashfsView {
    pub data: Seq<u8>,
    pub sup: Superblock,
    pub decomp: Compressor,
}

impl View for Squashfs {
    type V = SquashfsView;

    closed spec fn view(&self) -> SquashfsView {
        SquashfsView { data: self.data@, sup: self.sup, decomp: self.decomp }
    }
}

impl Squashfs {
    /// An opened archive holds an image that opens to its superblock and compressor.
    #[verifier::type_invariant]
    spec fn opened(self) -> bool {
        spec_open_archive(self.data@) == Ok::<(Superblock, Compressor), SquashError>((self.sup, self.decomp))
    }

    /// Checks the archive image `data` as opening it does: decodes its superblock, checks
    /// the magic number, the block log and the version, and looks up the compressor the
    /// superblock names; reports the first check that fails.
    pub fn check(data: &[u8]) -> (r: Result<(), SquashError>)
        ensures
            match spec_open_archive(data@) {
                Ok(_) => r is Ok,
                Err(e) => r matches Err(e2) && e2 == e,
            },
    {
        let sup = Superblock::parse(data)?;
        if !sup.valid_magic() {
            return Err(SquashError::InvalidMagic);
        } else if !sup.valid_block_log() {
            return Err(SquashError::BadBlockLog);
        } else if !sup.valid_version() {
            return Err(SquashError::UnsupportedVersion);
        }
        match Compressor::for_id(sup.compressor) {
            Some(_) => Ok(()),
            None => Err(SquashError::UnsupportedCompressor),
        }
    }

    /// Opens the archive image `data`, which must pass `check`: keeps the image, its
    /// superblock and the compressor the superblock names.
    pub fn new(data: Vec<u8>) -> (fs: Squashfs)
        requires
            spec_open_archive(data@) is Ok,
        ensures
            fs@.data == data@,
            spec_open_archive(data@) == Ok::<(Superblock, Compressor), SquashError>((fs@.sup, fs@.decomp)),
    {
        let sup = Superblock::parse(data.as_slice()).unwrap();
        let decomp = Compressor::for_id(sup.compressor).unwrap();
        Squashfs { data, sup, decomp }
    }

    /// The archive's superblock.
    pub fn superblock(&self) -> (r: Superblock)
        ensures
            r == self@.sup,
            spec_open_archive(self@.data) == Ok::<(Superblock, Compressor), SquashError>((self@.sup, self@.decomp)),
    {
        proof {
            use_type_invariant(self);
        }
        self.sup
    }

    /// The compressor the archive's blocks use.
    pub fn compressor(&self) -> (r: Compressor)
        ensures
            r == self@.decomp,
            spec_open_archive(self@.data) == Ok::<(Superblock, Compressor), SquashError>((self@.sup, self@.decomp)),
    {
        proof {
            use_type_invariant(self);
        }
        self.decomp
    }

    /// The archive image.
    pub fn image(&self) -> (r: &[u8])
        ensures
            r@ == self@.data,
    {
        self.data.as_slice()
    }
}

} // verus!
