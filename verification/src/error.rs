use vstd::prelude::*;

verus! {

/// The ways in which decoding an archive can fail.
#[derive(Debug, Clone, Copy, PartialEq, Eq, Structural)]
pub enum SquashError {
    /// The input ended before a structure was complete.
    UnexpectedEof,
    /// The compressor rejected a block.
    DecompressFailed,
    /// The superblock does not start with the squashfs magic number.
    InvalidMagic,
    /// The superblock's block log does not match its block size.
    BadBlockLog,
    /// The superblock names a version other than 4.0.
    UnsupportedVersion,
    /// The superblock names a compressor id this library does not know.
    UnsupportedCompressor,
    /// An inode header names a type outside 1 to 14 (which `Inode::decode` rules out by
    /// its precondition).
    UnsupportedInodeType,
    /// A block size of zero was given for dividing a file into blocks.
    ZeroBlockSize,
    /// An arithmetic step went out of the range of its integer type.
    Overflow,
}

} // verus!
