//! Reading squashfs archives: the superblock, metadata blocks, inodes and
//! directory listings, decoded from the bytes of an archive image.
pub mod bytes;
pub mod decompress;
pub mod directory;
pub mod error;
pub mod folder;
pub mod inode;
pub mod metadata;
pub mod squashfs;
pub mod superblock;

use vstd::prelude::*;

pub use crate::error::SquashError;
pub use crate::squashfs::Squashfs;
pub use crate::superblock::Superblock;

verus! {

/// An archive as far as it has been read: its superblock.
#[derive(Debug, Clone, Copy, PartialEq, Eq, Structural)]
pub struct Squash {
    pub supe: Superblock,
}

/// Reads the superblock at the start of `data`.
pub fn read(data: &[u8]) -> (r: Result<Squash, SquashError>)
    ensures
        match r {
            Ok(sq) => data@.len() >= superblock::SUPERBLOCK_SIZE
                && sq.supe == superblock::spec_superblock(data@),
            Err(e) => data@.len() < superblock::SUPERBLOCK_SIZE && e == SquashError::UnexpectedEof,
        },
{
    match Superblock::parse(data) {
        Ok(supe) => Ok(Squash { supe }),
        Err(e) => Err(e),
    }
}

} // verus!
