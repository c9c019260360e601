//! Inodes: a 16-byte header whose type selects the layout of the payload after it.
use vstd::prelude::*;

use crate::bytes::{
    has_bytes, le16, le32, le64, lemma_extend_bytes, lemma_le16_of, lemma_le32_of, lemma_le64_of, lemma_prepend_items_empty,
    lemma_prepend_items_twice, lemma_words_of, prepend_items, read_u16, read_u32, read_u64, u16_bytes, u32_bytes, u64_bytes,
    words_bytes,
};
use crate::error::SquashError;

verus! {

pub const DIR_TYPE: u16 = 1;
pub const FILE_TYPE: u16 = 2;
pub const SYM_TYPE: u16 = 3;
pub const BLOCK_DEV_TYPE: u16 = 4;
pub const CHAR_DEV_TYPE: u16 = 5;
pub const FIFO_TYPE: u16 = 6;
pub const SOCKET_TYPE: u16 = 7;
pub const EXT_DIR_TYPE: u16 = 8;
pub const EXT_FILE_TYPE: u16 = 9;
pub const EXT_SYM_TYPE: u16 = 10;
pub const EXT_BLOCK_DEV_TYPE: u16 = 11;
pub const EXT_CHAR_DEV_TYPE: u16 = 12;
pub const EXT_FIFO_TYPE: u16 = 13;
pub const EXT_SOCKET_TYPE: u16 = 14;

/// The fields every inode starts with.
#[derive(Debug, Clone, Copy, PartialEq, Eq, Structural)]
pub struct InodeHeader {
    pub inode_type: u16,
    pub permissions: u16,
    pub uid_index: u16,
    pub gid_index: u16,
    pub mod_time: u32,
    pub number: u32,
}

#[derive(Debug, Clone, Copy, PartialEq, Eq, Structural)]
pub struct DirInode {
    pub block_start: u32,
    pub link_count: u16,
    pub size: u32,
    pub block_offset: u16,
    pub parent_inode: u32,
}

#[derive(Debug, Clone, Copy, PartialEq, Eq, Structural)]
pub struct DevInode {
    pub link_count: u32,
    pub dev_number: u32,
}

#[derive(Debug, Clone, Copy, PartialEq, Eq, Structural)]
pub struct ExtDevInode {
    pub link_count: u32,
    pub dev_number: u32,
    pub xattr_index: u32,
}

#[derive(Debug, Clone, Copy, PartialEq, Eq, Structural)]
pub struct IPCInode {
    pub link_count: u32,
}

#[derive(Debug, Clone, Copy, PartialEq, Eq, Structural)]
pub struct ExtIPCInode {
    pub link_count: u32,
    pub xattr_index: u32,
}

#[derive(Debug)]
pub struct DirIndex {
    pub index: u32,
    pub offset: u32,
    pub name_size: u32,
    pub name: Vec<u8>,
}

pub struct SpecDirIndex {
    pub index: u32,
    pub offset: u32,
    pub name_size: u32,
    pub name: Seq<u8>,
}

impl View for DirIndex {
    type V = SpecDirIndex;

    open spec fn view(&self) -> SpecDirIndex {
        SpecDirIndex { index: self.index, offset: self.offset, name_size: self.name_size, name: self.name@ }
    }
}

#[derive(Debug)]
pub struct ExtDirInode {
    pub link_count: u32,
    pub size: u32,
    pub block_start: u32,
    pub parent_inode: u32,
    pub index_count: u16,
    pub block_offset: u16,
    pub xattr_index: u32,
    pub dir_indexes: Vec<DirIndex>,
}

pub struct SpecExtDirInode {
    pub link_count: u32,
    pub size: u32,
    pub block_start: u32,
    pub parent_inode: u32,
    pub index_count: u16,
    pub block_offset: u16,
    pub xattr_index: u32,
    pub dir_indexes: Seq<SpecDirIndex>,
}

/// The views of a sequence of directory indexes.
pub open spec fn dir_index_views(v: Seq<DirIndex>) -> Seq<SpecDirIndex> {
    v.map_values(|d: DirIndex| d@)
}

impl View for ExtDirInode {
    type V = SpecExtDirInode;

    open spec fn view(&self) -> SpecExtDirInode {
        SpecExtDirInode {
            link_count: self.link_count,
            size: self.size,
            block_start: self.block_start,
            parent_inode: self.parent_inode,
            index_count: self.index_count,
            block_offset: self.block_offset,
            xattr_index: self.xattr_index,
            dir_indexes: dir_index_views(self.dir_indexes@),
        }
    }
}

#[derive(Debug)]
pub struct FileInode {
    pub block_start: u32,
    pub frag_index: u32,
    pub block_offset: u32,
    pub size: u32,
    pub block_sizes: Vec<u32>,
}

pub struct SpecFileInode {
    pub block_start: u32,
    pub frag_index: u32,
    pub block_offset: u32,
    pub size: u32,
    pub block_sizes: Seq<u32>,
}

impl View for FileInode {
    type V = SpecFileInode;

    open spec fn view(&self) -> SpecFileInode {
        SpecFileInode {
            block_start: self.block_start,
            frag_index: self.frag_index,
            block_offset: self.block_offset,
            size: self.size,
            block_sizes: self.block_sizes@,
        }
    }
}

#[derive(Debug)]
pub struct ExtFileInode {
    pub block_start: u64,
    pub size: u64,
    pub sparse: u64,
    pub link_count: u32,
    pub frag_index: u32,
    pub block_offset: u32,
    pub xattr_index: u32,
    pub block_sizes: Vec<u32>,
}

pub struct SpecExtFileInode {
    pub block_start: u64,
    pub size: u64,
    pub sparse: u64,
    pub link_count: u32,
    pub frag_index: u32,
    pub block_offset: u32,
    pub xattr_index: u32,
    pub block_sizes: Seq<u32>,
}

impl View for ExtFileInode {
    type V = SpecExtFileInode;

    open spec fn view(&self) -> SpecExtFileInode {
        SpecExtFileInode {
            block_start: self.block_start,
            size: self.size,
            sparse: self.sparse,
            link_count: self.link_count,
            frag_index: self.frag_index,
            block_offset: self.block_offset,
            xattr_index: self.xattr_index,
            block_sizes: self.block_sizes@,
        }
    }
}

#[derive(Debug)]
pub struct SymInode {
    pub link_count: u32,
    pub path_size: u32,
    pub path: Vec<u8>,
}

pub struct SpecSymInode {
    pub link_count: u32,
    pub path_size: u32,
    pub path: Seq<u8>,
}

impl View for SymInode {
    type V = SpecSymInode;

    open spec fn view(&self) -> SpecSymInode {
        SpecSymInode { link_count: self.link_count, path_size: self.path_size, path: self.path@ }
    }
}

#[derive(Debug)]
pub struct ExtSymInode {
    pub link_count: u32,
    pub path_size: u32,
    pub path: Vec<u8>,
    pub xattr_index: u32,
}

pub struct SpecExtSymInode {
    pub link_count: u32,
    pub path_size: u32,
    pub path: Seq<u8>,
    pub xattr_index: u32,
}

impl View for ExtSymInode {
    type V = SpecExtSymInode;

    open spec fn view(&self) -> SpecExtSymInode {
        SpecExtSymInode {
            link_count: self.link_count,
            path_size: self.path_size,
            path: self.path@,
            xattr_index: self.xattr_index,
        }
    }
}

/// The payload of an inode, by the type its header names.
#[derive(Debug)]
pub enum InodeData {
    Dir(DirInode),
    File(FileInode),
    Sym(SymInode),
    BlockDev(DevInode),
    CharDev(DevInode),
    Fifo(IPCInode),
    Socket(IPCInode),
    ExtDir(ExtDirInode),
    ExtFile(ExtFileInode),
    ExtSym(ExtSymInode),
    ExtBlockDev(ExtDevInode),
    ExtCharDev(ExtDevInode),
    ExtFifo(ExtIPCInode),
    ExtSocket(ExtIPCInode),
}

pub enum SpecInodeData {
    Dir(DirInode),
    File(SpecFileInode),
    Sym(SpecSymInode),
    BlockDev(DevInode),
    CharDev(DevInode),
    Fifo(IPCInode),
    Socket(IPCInode),
    ExtDir(SpecExtDirInode),
    ExtFile(SpecExtFileInode),
    ExtSym(SpecExtSymInode),
    ExtBlockDev(ExtDevInode),
    ExtCharDev(ExtDevInode),
    ExtFifo(ExtIPCInode),
    ExtSocket(ExtIPCInode),
}

impl View for InodeData {
    type V = SpecInodeData;

    open spec fn view(&self) -> SpecInodeData {
        match self {
            InodeData::Dir(d) => SpecInodeData::Dir(*d),
            InodeData::File(f) => SpecInodeData::File(f@),
            InodeData::Sym(s) => SpecInodeData::Sym(s@),
            InodeData::BlockDev(d) => SpecInodeData::BlockDev(*d),
            InodeData::CharDev(d) => SpecInodeData::CharDev(*d),
            InodeData::Fifo(d) => SpecInodeData::Fifo(*d),
            InodeData::Socket(d) => SpecInodeData::Socket(*d),
            InodeData::ExtDir(d) => SpecInodeData::ExtDir(d@),
            InodeData::ExtFile(f) => SpecInodeData::ExtFile(f@),
            InodeData::ExtSym(s) => SpecInodeData::ExtSym(s@),
            InodeData::ExtBlockDev(d) => SpecInodeData::ExtBlockDev(*d),
            InodeData::ExtCharDev(d) => SpecInodeData::ExtCharDev(*d),
            InodeData::ExtFifo(d) => SpecInodeData::ExtFifo(*d),
            InodeData::ExtSocket(d) => SpecInodeData::ExtSocket(*d),
        }
    }
}

/// An inode: its header and the payload its type selects.
#[derive(Debug)]
pub struct Inode {
    pub header: InodeHeader,
    pub data: InodeData,
}

pub struct SpecInode {
    pub header: InodeHeader,
    pub data: SpecInodeData,
}

impl View for Inode {
    type V = SpecInode;

    open spec fn view(&self) -> SpecInode {
        SpecInode { header: self.header, data: self.data@ }
    }
}

// ---------------------------------------------------------------------------------
// The layouts, as functions from the bytes and a start offset to the decoded value
// and the offset just past it.

pub open spec fn spec_inode_header(s: Seq<u8>, at: nat) -> Result<(InodeHeader, nat), SquashError> {
    if at + 16 > s.len() {
        Err(SquashError::UnexpectedEof)
    } else {
        Ok((InodeHeader {
            inode_type: le16(s, at as int),
            permissions: le16(s, (at + 2) as int),
            uid_index: le16(s, (at + 4) as int),
            gid_index: le16(s, (at + 6) as int),
            mod_time: le32(s, (at + 8) as int),
            number: le32(s, (at + 12) as int),
        }, at + 16))
    }
}

pub open spec fn spec_dir_inode(s: Seq<u8>, at: nat) -> Result<(DirInode, nat), SquashError> {
    if at + 16 > s.len() {
        Err(SquashError::UnexpectedEof)
    } else {
        Ok((DirInode {
            block_start: le32(s, at as int),
            link_count: le16(s, (at + 4) as int),
            size: le32(s, (at + 6) as int),
            block_offset: le16(s, (at + 10) as int),
            parent_inode: le32(s, (at + 12) as int),
        }, at + 16))
    }
}

pub open spec fn spec_dev_inode(s: Seq<u8>, at: nat) -> Result<(DevInode, nat), SquashError> {
    if at + 8 > s.len() {
        Err(SquashError::UnexpectedEof)
    } else {
        Ok((DevInode { link_count: le32(s, at as int), dev_number: le32(s, (at + 4) as int) }, at + 8))
    }
}

pub open spec fn spec_ext_dev_inode(s: Seq<u8>, at: nat) -> Result<(ExtDevInode, nat), SquashError> {
    if at + 12 > s.len() {
        Err(SquashError::UnexpectedEof)
    } else {
        Ok((ExtDevInode {
            link_count: le32(s, at as int),
            dev_number: le32(s, (at + 4) as int),
            xattr_index: le32(s, (at + 8) as int),
        }, at + 12))
    }
}

pub open spec fn spec_ipc_inode(s: Seq<u8>, at: nat) -> Result<(IPCInode, nat), SquashError> {
    if at + 4 > s.len() {
        Err(SquashError::UnexpectedEof)
    } else {
        Ok((IPCInode { link_count: le32(s, at as int) }, at + 4))
    }
}

pub open spec fn spec_ext_ipc_inode(s: Seq<u8>, at: nat) -> Result<(ExtIPCInode, nat), SquashError> {
    if at + 8 > s.len() {
        Err(SquashError::UnexpectedEof)
    } else {
        Ok((ExtIPCInode { link_count: le32(s, at as int), xattr_index: le32(s, (at + 4) as int) }, at + 8))
    }
}

/// The `len` bytes at `at`.
pub open spec fn spec_bytes_at(s: Seq<u8>, at: nat, len: nat) -> Result<(Seq<u8>, nat), SquashError> {
    if at + len > s.len() {
        Err(SquashError::UnexpectedEof)
    } else {
        Ok((s.subrange(at as int, (at + len) as int), at + len))
    }
}

/// The `len / 4` little-endian `u32`s in the `len` bytes at `at`.
pub open spec fn spec_words_at(s: Seq<u8>, at: nat, len: nat) -> Result<(Seq<u32>, nat), SquashError> {
    if at + len > s.len() {
        Err(SquashError::UnexpectedEof)
    } else {
        Ok((Seq::new(len / 4, |i: int| le32(s, at + 4 * i)), at + len))
    }
}

/// A directory index: three `u32`s (index, offset, name size), then the name in
/// `name size` bytes.
pub open spec fn spec_dir_index(s: Seq<u8>, at: nat) -> Result<(SpecDirIndex, nat), SquashError> {
    if at + 12 > s.len() {
        Err(SquashError::UnexpectedEof)
    } else {
        let name_size = le32(s, (at + 8) as int);
        match spec_bytes_at(s, at + 12, name_size as nat) {
            Ok((name, end)) => Ok((SpecDirIndex {
                index: le32(s, at as int),
                offset: le32(s, (at + 4) as int),
                name_size,
                name,
            }, end)),
            Err(e) => Err(e),
        }
    }
}

/// `k` directory indexes one after another.
pub open spec fn spec_dir_indexes(s: Seq<u8>, at: nat, k: nat) -> Result<(Seq<SpecDirIndex>, nat), SquashError>
    decreases k,
{
    if k == 0 {
        Ok((Seq::empty(), at))
    } else {
        match spec_dir_index(s, at) {
            Ok((d, end)) => prepend_items(seq![d], spec_dir_indexes(s, end, (k - 1) as nat)),
            Err(e) => Err(e),
        }
    }
}

/// An extended directory inode: a 24-byte fixed part, then `index_count` directory indexes.
pub open spec fn spec_ext_dir_inode(s: Seq<u8>, at: nat) -> Result<(SpecExtDirInode, nat), SquashError> {
    if at + 24 > s.len() {
        Err(SquashError::UnexpectedEof)
    } else {
        let index_count = le16(s, (at + 16) as int);
        match spec_dir_indexes(s, at + 24, index_count as nat) {
            Ok((dir_indexes, end)) => Ok((SpecExtDirInode {
                link_count: le32(s, at as int),
                size: le32(s, (at + 4) as int),
                block_start: le32(s, (at + 8) as int),
                parent_inode: le32(s, (at + 12) as int),
                index_count,
                block_offset: le16(s, (at + 18) as int),
                xattr_index: le32(s, (at + 20) as int),
                dir_indexes,
            }, end)),
            Err(e) => Err(e),
        }
    }
}

/// How many block sizes a file of `size` bytes lists: one per whole block, and one
/// more for a partial last block when the file has no fragment (`frag_index` all ones).
pub open spec fn block_count(size: nat, frag_index: u32, block_size: nat) -> nat {
    size / block_size + if frag_index == 0xFFFF_FFFF && size % block_size != 0 { 1nat } else { 0nat }
}

/// A file inode: a 16-byte fixed part, then `block_count` little-endian `u32` block sizes.
pub open spec fn spec_file_inode(s: Seq<u8>, at: nat, block_size: u32) -> Result<(SpecFileInode, nat), SquashError> {
    if at + 16 > s.len() {
        Err(SquashError::UnexpectedEof)
    } else if block_size == 0 {
        Err(SquashError::ZeroBlockSize)
    } else {
        let frag_index = le32(s, (at + 4) as int);
        let size = le32(s, (at + 12) as int);
        let n = block_count(size as nat, frag_index, block_size as nat);
        if n * 4 > u32::MAX {
            Err(SquashError::Overflow)
        } else {
            match spec_words_at(s, at + 16, n * 4) {
                Ok((block_sizes, end)) => Ok((SpecFileInode {
                    block_start: le32(s, at as int),
                    frag_index,
                    block_offset: le32(s, (at + 8) as int),
                    size,
                    block_sizes,
                }, end)),
                Err(e) => Err(e),
            }
        }
    }
}

/// An extended file inode: a 40-byte fixed part, then `block_count` little-endian `u32`
/// block sizes.
pub open spec fn spec_ext_file_inode(s: Seq<u8>, at: nat, block_size: u32) -> Result<(SpecExtFileInode, nat), SquashError> {
    if at + 40 > s.len() {
        Err(SquashError::UnexpectedEof)
    } else if block_size == 0 {
        Err(SquashError::ZeroBlockSize)
    } else {
        let size = le64(s, (at + 8) as int);
        let frag_index = le32(s, (at + 28) as int);
        let n = block_count(size as nat, frag_index, block_size as nat);
        if n * 4 > u64::MAX || n * 4 > usize::MAX {
            Err(SquashError::Overflow)
        } else {
            match spec_words_at(s, at + 40, n * 4) {
                Ok((block_sizes, end)) => Ok((SpecExtFileInode {
                    block_start: le64(s, at as int),
                    size,
                    sparse: le64(s, (at + 16) as int),
                    link_count: le32(s, (at + 24) as int),
                    frag_index,
                    block_offset: le32(s, (at + 32) as int),
                    xattr_index: le32(s, (at + 36) as int),
                    block_sizes,
                }, end)),
                Err(e) => Err(e),
            }
        }
    }
}

/// A symlink inode: link count and path size, then the path in `path size` bytes.
pub open spec fn spec_sym_inode(s: Seq<u8>, at: nat) -> Result<(SpecSymInode, nat), SquashError> {
    if at + 8 > s.len() {
        Err(SquashError::UnexpectedEof)
    } else {
        let path_size = le32(s, (at + 4) as int);
        match spec_bytes_at(s, at + 8, path_size as nat) {
            Ok((path, end)) => Ok((SpecSymInode { link_count: le32(s, at as int), path_size, path }, end)),
            Err(e) => Err(e),
        }
    }
}

/// An extended symlink inode: as a symlink inode, then a `u32` xattr index.
pub open spec fn spec_ext_sym_inode(s: Seq<u8>, at: nat) -> Result<(SpecExtSymInode, nat), SquashError> {
    match spec_sym_inode(s, at) {
        Ok((sym, end)) => if end + 4 > s.len() {
            Err(SquashError::UnexpectedEof)
        } else {
            Ok((SpecExtSymInode {
                link_count: sym.link_count,
                path_size: sym.path_size,
                path: sym.path,
                xattr_index: le32(s, end as int),
            }, end + 4))
        },
        Err(e) => Err(e),
    }
}

/// A decoded payload wrapped in the variant that names it.
pub open spec fn wrap<T>(r: Result<(T, nat), SquashError>, f: spec_fn(T) -> SpecInodeData) -> Result<(SpecInodeData, nat), SquashError> {
    match r {
        Ok((v, end)) => Ok((f(v), end)),
        Err(e) => Err(e),
    }
}

/// Whether `t` is one of the fourteen inode types (1 to 14).
pub open spec fn supported_inode_type(t: u16) -> bool {
    1 <= t <= 14
}

impl InodeHeader {
    /// Whether the header names one of the fourteen inode types, which `Inode::decode`
    /// requires.
    pub fn has_supported_type(&self) -> (r: bool)
        ensures
            r == supported_inode_type(self.inode_type),
    {
        1 <= self.inode_type && self.inode_type <= 14
    }
}

/// The payload of an inode of type `t` at `at`.
pub open spec fn spec_inode_data(s: Seq<u8>, at: nat, t: u16, block_size: u32) -> Result<(SpecInodeData, nat), SquashError> {
    if t == DIR_TYPE {
        wrap(spec_dir_inode(s, at), |v| SpecInodeData::Dir(v))
    } else if t == FILE_TYPE {
        wrap(spec_file_inode(s, at, block_size), |v| SpecInodeData::File(v))
    } else if t == SYM_TYPE {
        wrap(spec_sym_inode(s, at), |v| SpecInodeData::Sym(v))
    } else if t == BLOCK_DEV_TYPE {
        wrap(spec_dev_inode(s, at), |v| SpecInodeData::BlockDev(v))
    } else if t == CHAR_DEV_TYPE {
        wrap(spec_dev_inode(s, at), |v| SpecInodeData::CharDev(v))
    } else if t == FIFO_TYPE {
        wrap(spec_ipc_inode(s, at), |v| SpecInodeData::Fifo(v))
    } else if t == SOCKET_TYPE {
        wrap(spec_ipc_inode(s, at), |v| SpecInodeData::Socket(v))
    } else if t == EXT_DIR_TYPE {
        wrap(spec_ext_dir_inode(s, at), |v| SpecInodeData::ExtDir(v))
    } else if t == EXT_FILE_TYPE {
        wrap(spec_ext_file_inode(s, at, block_size), |v| SpecInodeData::ExtFile(v))
    } else if t == EXT_SYM_TYPE {
        wrap(spec_ext_sym_inode(s, at), |v| SpecInodeData::ExtSym(v))
    } else if t == EXT_BLOCK_DEV_TYPE {
        wrap(spec_ext_dev_inode(s, at), |v| SpecInodeData::ExtBlockDev(v))
    } else if t == EXT_CHAR_DEV_TYPE {
        wrap(spec_ext_dev_inode(s, at), |v| SpecInodeData::ExtCharDev(v))
    } else if t == EXT_FIFO_TYPE {
        wrap(spec_ext_ipc_inode(s, at), |v| SpecInodeData::ExtFifo(v))
    } else if t == EXT_SOCKET_TYPE {
        wrap(spec_ext_ipc_inode(s, at), |v| SpecInodeData::ExtSocket(v))
    } else {
        Err(SquashError::UnsupportedInodeType)
    }
}

/// An inode at `at`: its header, then the payload its type selects.
pub open spec fn spec_inode(s: Seq<u8>, at: nat, block_size: u32) -> Result<(SpecInode, nat), SquashError> {
    match spec_inode_header(s, at) {
        Ok((header, p)) => match spec_inode_data(s, p, header.inode_type, block_size) {
            Ok((data, end)) => Ok((SpecInode { header, data }, end)),
            Err(e) => Err(e),
        },
        Err(e) => Err(e),
    }
}


// ---------------------------------------------------------------------------------
// Decoders.

/// The `len` bytes at `at`.
fn read_bytes_at(data: &[u8], at: usize, len: usize) -> (r: Result<(Vec<u8>, usize), SquashError>)
    ensures
        match spec_bytes_at(data@, at as nat, len as nat) {
            Ok((v, end)) => r matches Ok((x, e)) && x@ == v && e == end,
            Err(err) => r matches Err(e2) && e2 == err,
        },
{
    if !has_bytes(data, at, len) {
        return Err(SquashError::UnexpectedEof);
    }
    Ok((vstd::slice::slice_to_vec(&data[at..at + len]), at + len))
}

/// The `len / 4` little-endian `u32`s in the `len` bytes at `at`.
fn read_words_at(data: &[u8], at: usize, len: usize) -> (r: Result<(Vec<u32>, usize), SquashError>)
    requires
        len % 4 == 0,
    ensures
        match spec_words_at(data@, at as nat, len as nat) {
            Ok((v, end)) => r matches Ok((x, e)) && x@ == v && e == end,
            Err(err) => r matches Err(e2) && e2 == err,
        },
{
    if !has_bytes(data, at, len) {
        return Err(SquashError::UnexpectedEof);
    }
    let count = len / 4;
    let mut words: Vec<u32> = Vec::new();
    let mut i: usize = 0;
    while i < count
        invariant
            i <= count,
            count == len / 4,
            len % 4 == 0,
            at + len <= data@.len(),
            at + len <= usize::MAX,
            words@ =~= Seq::new(i as nat, |j: int| le32(data@, at + 4 * j)),
        decreases count - i,
    {
        words.push(read_u32(data, at + 4 * i));
        i = i + 1;
    }
    Ok((words, at + len))
}

impl InodeHeader {
    /// Decodes an inode header at offset `at` of `data`.
    pub fn decode(data: &[u8], at: usize) -> (r: Result<(InodeHeader, usize), SquashError>)
        ensures
            match spec_inode_header(data@, at as nat) {
                Ok((v, end)) => r matches Ok((x, e)) && x == v && e == end,
                Err(err) => r matches Err(e2) && e2 == err,
            },
    {
        if !has_bytes(data, at, 16) {
            return Err(SquashError::UnexpectedEof);
        }
        Ok((InodeHeader {
            inode_type: read_u16(data, at),
            permissions: read_u16(data, at + 2),
            uid_index: read_u16(data, at + 4),
            gid_index: read_u16(data, at + 6),
            mod_time: read_u32(data, at + 8),
            number: read_u32(data, at + 12),
        }, at + 16))
    }
}

impl DirInode {
    /// Decodes a directory inode's payload at offset `at` of `data`.
    pub fn decode(data: &[u8], at: usize) -> (r: Result<(DirInode, usize), SquashError>)
        ensures
            match spec_dir_inode(data@, at as nat) {
                Ok((v, end)) => r matches Ok((x, e)) && x == v && e == end,
                Err(err) => r matches Err(e2) && e2 == err,
            },
    {
        if !has_bytes(data, at, 16) {
            return Err(SquashError::UnexpectedEof);
        }
        Ok((DirInode {
            block_start: read_u32(data, at),
            link_count: read_u16(data, at + 4),
            size: read_u32(data, at + 6),
            block_offset: read_u16(data, at + 10),
            parent_inode: read_u32(data, at + 12),
        }, at + 16))
    }
}

impl DevInode {
    /// Decodes a device inode's payload at offset `at` of `data`.
    pub fn decode(data: &[u8], at: usize) -> (r: Result<(DevInode, usize), SquashError>)
        ensures
            match spec_dev_inode(data@, at as nat) {
                Ok((v, end)) => r matches Ok((x, e)) && x == v && e == end,
                Err(err) => r matches Err(e2) && e2 == err,
            },
    {
        if !has_bytes(data, at, 8) {
            return Err(SquashError::UnexpectedEof);
        }
        Ok((DevInode { link_count: read_u32(data, at), dev_number: read_u32(data, at + 4) }, at + 8))
    }
}

impl ExtDevInode {
    /// Decodes an extended device inode's payload at offset `at` of `data`.
    pub fn decode(data: &[u8], at: usize) -> (r: Result<(ExtDevInode, usize), SquashError>)
        ensures
            match spec_ext_dev_inode(data@, at as nat) {
                Ok((v, end)) => r matches Ok((x, e)) && x == v && e == end,
                Err(err) => r matches Err(e2) && e2 == err,
            },
    {
        if !has_bytes(data, at, 12) {
            return Err(SquashError::UnexpectedEof);
        }
        Ok((ExtDevInode {
            link_count: read_u32(data, at),
            dev_number: read_u32(data, at + 4),
            xattr_index: read_u32(data, at + 8),
        }, at + 12))
    }
}

impl IPCInode {
    /// Decodes a fifo or socket inode's payload at offset `at` of `data`.
    pub fn decode(data: &[u8], at: usize) -> (r: Result<(IPCInode, usize), SquashError>)
        ensures
            match spec_ipc_inode(data@, at as nat) {
                Ok((v, end)) => r matches Ok((x, e)) && x == v && e == end,
                Err(err) => r matches Err(e2) && e2 == err,
            },
    {
        if !has_bytes(data, at, 4) {
            return Err(SquashError::UnexpectedEof);
        }
        Ok((IPCInode { link_count: read_u32(data, at) }, at + 4))
    }
}

impl ExtIPCInode {
    /// Decodes an extended fifo or socket inode's payload at offset `at` of `data`.
    pub fn decode(data: &[u8], at: usize) -> (r: Result<(ExtIPCInode, usize), SquashError>)
        ensures
            match spec_ext_ipc_inode(data@, at as nat) {
                Ok((v, end)) => r matches Ok((x, e)) && x == v && e == end,
                Err(err) => r matches Err(e2) && e2 == err,
            },
    {
        if !has_bytes(data, at, 8) {
            return Err(SquashError::UnexpectedEof);
        }
        Ok((ExtIPCInode { link_count: read_u32(data, at), xattr_index: read_u32(data, at + 4) }, at + 8))
    }
}

impl DirIndex {
    /// Decodes a directory index at offset `at` of `data`.
    pub fn decode(data: &[u8], at: usize) -> (r: Result<(DirIndex, usize), SquashError>)
        ensures
            match spec_dir_index(data@, at as nat) {
                Ok((v, end)) => r matches Ok((x, e)) && x@ == v && e == end,
                Err(err) => r matches Err(e2) && e2 == err,
            },
    {
        if !has_bytes(data, at, 12) {
            return Err(SquashError::UnexpectedEof);
        }
        let index = read_u32(data, at);
        let offset = read_u32(data, at + 4);
        let name_size = read_u32(data, at + 8);
        let (name, end) = read_bytes_at(data, at + 12, name_size as usize)?;
        Ok((DirIndex { index, offset, name_size, name }, end))
    }
}

impl ExtDirInode {
    /// Decodes an extended directory inode's payload at offset `at` of `data`.
    pub fn decode(data: &[u8], at: usize) -> (r: Result<(ExtDirInode, usize), SquashError>)
        ensures
            match spec_ext_dir_inode(data@, at as nat) {
                Ok((v, end)) => r matches Ok((x, e)) && x@ == v && e == end,
                Err(err) => r matches Err(e2) && e2 == err,
            },
    {
        if !has_bytes(data, at, 24) {
            return Err(SquashError::UnexpectedEof);
        }
        let link_count = read_u32(data, at);
        let size = read_u32(data, at + 4);
        let block_start = read_u32(data, at + 8);
        let parent_inode = read_u32(data, at + 12);
        let index_count = read_u16(data, at + 16);
        let block_offset = read_u16(data, at + 18);
        let xattr_index = read_u32(data, at + 20);
        let mut dir_indexes: Vec<DirIndex> = Vec::new();
        let mut pos = at + 24;
        let mut i: u16 = 0;
        proof {
            lemma_prepend_items_empty(spec_dir_indexes(data@, pos as nat, index_count as nat));
            assert(dir_index_views(dir_indexes@) =~= Seq::<SpecDirIndex>::empty());
        }
        while i < index_count
            invariant
                i <= index_count,
                index_count == le16(data@, at + 16),
                spec_dir_indexes(data@, (at + 24) as nat, index_count as nat) == prepend_items(
                    dir_index_views(dir_indexes@),
                    spec_dir_indexes(data@, pos as nat, (index_count - i) as nat),
                ),
            decreases index_count - i,
        {
            let ghost before = dir_index_views(dir_indexes@);
            let ghost rem = (index_count - i) as nat;
            match DirIndex::decode(data, pos) {
                Ok((d, end)) => {
                    proof {
                        lemma_prepend_items_twice(before, seq![d@], spec_dir_indexes(data@, end as nat, (rem - 1) as nat));
                    }
                    dir_indexes.push(d);
                    assert(dir_index_views(dir_indexes@) =~= before + seq![d@]);
                    pos = end;
                    i = i + 1;
                },
                Err(e) => {
                    return Err(e);
                },
            }
        }
        proof {
            lemma_prepend_items_empty(Ok::<(Seq<SpecDirIndex>, nat), SquashError>((Seq::empty(), pos as nat)));
            assert(dir_index_views(dir_indexes@) + Seq::<SpecDirIndex>::empty() =~= dir_index_views(dir_indexes@));
        }
        Ok((ExtDirInode {
            link_count,
            size,
            block_start,
            parent_inode,
            index_count,
            block_offset,
            xattr_index,
            dir_indexes,
        }, pos))
    }
}

impl FileInode {
    /// Decodes a file inode's payload at offset `at` of `data`, for an archive whose
    /// block size is `block_size`.
    pub fn decode(data: &[u8], at: usize, block_size: u32) -> (r: Result<(FileInode, usize), SquashError>)
        ensures
            match spec_file_inode(data@, at as nat, block_size) {
                Ok((v, end)) => r matches Ok((x, e)) && x@ == v && e == end,
                Err(err) => r matches Err(e2) && e2 == err,
            },
    {
        if !has_bytes(data, at, 16) {
            return Err(SquashError::UnexpectedEof);
        }
        let block_start = read_u32(data, at);
        let frag_index = read_u32(data, at + 4);
        let block_offset = read_u32(data, at + 8);
        let size = read_u32(data, at + 12);
        if block_size == 0 {
            return Err(SquashError::ZeroBlockSize);
        }
        let mut n: u32 = size / block_size;
        if frag_index == 0xFFFF_FFFF && size % block_size != 0 {
            proof {
                lemma_quotient_room(size as nat, block_size as nat);
            }
            n = n + 1;
        }
        if n > 0x3FFF_FFFF {
            return Err(SquashError::Overflow);
        }
        let (block_sizes, end) = read_words_at(data, at + 16, (n * 4) as usize)?;
        Ok((FileInode { block_start, frag_index, block_offset, size, block_sizes }, end))
    }
}

/// A quotient with a remainder leaves room for one more below the dividend's bound.
proof fn lemma_quotient_room(size: nat, bs: nat)
    requires
        bs >= 1,
        size % bs != 0,
        size <= u64::MAX,
    ensures
        size / bs < u64::MAX,
        size <= u32::MAX ==> size / bs < u32::MAX,
{
    if bs == 1 {
        assert(size % 1 == 0);
    }
    vstd::arithmetic::div_mod::lemma_div_is_ordered_by_denominator(size as int, 2, bs as int);
}

impl ExtFileInode {
    /// Decodes an extended file inode's payload at offset `at` of `data`, for an
    /// archive whose block size is `block_size`.
    pub fn decode(data: &[u8], at: usize, block_size: u32) -> (r: Result<(ExtFileInode, usize), SquashError>)
        ensures
            match spec_ext_file_inode(data@, at as nat, block_size) {
                Ok((v, end)) => r matches Ok((x, e)) && x@ == v && e == end,
                Err(err) => r matches Err(e2) && e2 == err,
            },
    {
        if !has_bytes(data, at, 40) {
            return Err(SquashError::UnexpectedEof);
        }
        let block_start = read_u64(data, at);
        let size = read_u64(data, at + 8);
        let sparse = read_u64(data, at + 16);
        let link_count = read_u32(data, at + 24);
        let frag_index = read_u32(data, at + 28);
        let block_offset = read_u32(data, at + 32);
        let xattr_index = read_u32(data, at + 36);
        if block_size == 0 {
            return Err(SquashError::ZeroBlockSize);
        }
        let bs = block_size as u64;
        let mut n: u64 = size / bs;
        if frag_index == 0xFFFF_FFFF && size % bs != 0 {
            proof {
                lemma_quotient_room(size as nat, bs as nat);
            }
            n = n + 1;
        }
        if n > 0x3FFF_FFFF_FFFF_FFFF {
            return Err(SquashError::Overflow);
        }
        let bytes = n * 4;
        if bytes > usize::MAX as u64 {
            return Err(SquashError::Overflow);
        }
        let (block_sizes, end) = read_words_at(data, at + 40, bytes as usize)?;
        Ok((ExtFileInode {
            block_start,
            size,
            sparse,
            link_count,
            frag_index,
            block_offset,
            xattr_index,
            block_sizes,
        }, end))
    }
}

impl SymInode {
    /// Decodes a symlink inode's payload at offset `at` of `data`.
    pub fn decode(data: &[u8], at: usize) -> (r: Result<(SymInode, usize), SquashError>)
        ensures
            match spec_sym_inode(data@, at as nat) {
                Ok((v, end)) => r matches Ok((x, e)) && x@ == v && e == end,
                Err(err) => r matches Err(e2) && e2 == err,
            },
    {
        if !has_bytes(data, at, 8) {
            return Err(SquashError::UnexpectedEof);
        }
        let link_count = read_u32(data, at);
        let path_size = read_u32(data, at + 4);
        let (path, end) = read_bytes_at(data, at + 8, path_size as usize)?;
        Ok((SymInode { link_count, path_size, path }, end))
    }
}

impl ExtSymInode {
    /// Decodes an extended symlink inode's payload at offset `at` of `data`.
    pub fn decode(data: &[u8], at: usize) -> (r: Result<(ExtSymInode, usize), SquashError>)
        ensures
            match spec_ext_sym_inode(data@, at as nat) {
                Ok((v, end)) => r matches Ok((x, e)) && x@ == v && e == end,
                Err(err) => r matches Err(e2) && e2 == err,
            },
    {
        let (sym, end) = SymInode::decode(data, at)?;
        if !has_bytes(data, end, 4) {
            return Err(SquashError::UnexpectedEof);
        }
        let xattr_index = read_u32(data, end);
        Ok((ExtSymInode {
            link_count: sym.link_count,
            path_size: sym.path_size,
            path: sym.path,
            xattr_index,
        }, end + 4))
    }
}

impl Inode {
    /// Decodes an inode at offset `at` of `data`, for an archive whose block size is
    /// `block_size`: the header, then the payload of the type the header names. A header
    /// that decodes must name a supported type (see `InodeHeader::has_supported_type`).
    pub fn decode(data: &[u8], at: usize, block_size: u32) -> (r: Result<(Inode, usize), SquashError>)
        requires
            spec_inode_header(data@, at as nat) matches Ok((h, _)) ==> supported_inode_type(h.inode_type),
        ensures
            match spec_inode(data@, at as nat, block_size) {
                Ok((v, end)) => r matches Ok((x, e)) && x@ == v && e == end,
                Err(err) => r matches Err(e2) && e2 == err,
            },
    {
        let (header, p) = InodeHeader::decode(data, at)?;
        let (payload, end) = match header.inode_type {
            DIR_TYPE => {
                let (v, e) = DirInode::decode(data, p)?;
                (InodeData::Dir(v), e)
            },
            FILE_TYPE => {
                let (v, e) = FileInode::decode(data, p, block_size)?;
                (InodeData::File(v), e)
            },
            SYM_TYPE => {
                let (v, e) = SymInode::decode(data, p)?;
                (InodeData::Sym(v), e)
            },
            BLOCK_DEV_TYPE => {
                let (v, e) = DevInode::decode(data, p)?;
                (InodeData::BlockDev(v), e)
            },
            CHAR_DEV_TYPE => {
                let (v, e) = DevInode::decode(data, p)?;
                (InodeData::CharDev(v), e)
            },
            FIFO_TYPE => {
                let (v, e) = IPCInode::decode(data, p)?;
                (InodeData::Fifo(v), e)
            },
            SOCKET_TYPE => {
                let (v, e) = IPCInode::decode(data, p)?;
                (InodeData::Socket(v), e)
            },
            EXT_DIR_TYPE => {
                let (v, e) = ExtDirInode::decode(data, p)?;
                (InodeData::ExtDir(v), e)
            },
            EXT_FILE_TYPE => {
                let (v, e) = ExtFileInode::decode(data, p, block_size)?;
                (InodeData::ExtFile(v), e)
            },
            EXT_SYM_TYPE => {
                let (v, e) = ExtSymInode::decode(data, p)?;
                (InodeData::ExtSym(v), e)
            },
            EXT_BLOCK_DEV_TYPE => {
                let (v, e) = ExtDevInode::decode(data, p)?;
                (InodeData::ExtBlockDev(v), e)
            },
            EXT_CHAR_DEV_TYPE => {
                let (v, e) = ExtDevInode::decode(data, p)?;
                (InodeData::ExtCharDev(v), e)
            },
            EXT_FIFO_TYPE => {
                let (v, e) = ExtIPCInode::decode(data, p)?;
                (InodeData::ExtFifo(v), e)
            },
            EXT_SOCKET_TYPE => {
                let (v, e) = ExtIPCInode::decode(data, p)?;
                (InodeData::ExtSocket(v), e)
            },
            _ => vstd::pervasive::unreached(),
        };
        Ok((Inode { header, data: payload }, end))
    }
}

// ---------------------------------------------------------------------------------
// Decoding reads nothing past the bytes it consumes.

proof fn lemma_bytes_at_extend(s: Seq<u8>, t: Seq<u8>, at: nat, len: nat)
    requires
        spec_bytes_at(s, at, len) is Ok,
    ensures
        spec_bytes_at(s + t, at, len) == spec_bytes_at(s, at, len),
{
    lemma_extend_bytes(s, t, at as int, len as int);
}

proof fn lemma_words_at_extend(s: Seq<u8>, t: Seq<u8>, at: nat, len: nat)
    requires
        spec_words_at(s, at, len) is Ok,
    ensures
        spec_words_at(s + t, at, len) == spec_words_at(s, at, len),
{
    lemma_extend_bytes(s, t, at as int, len as int);
    if at + len <= s.len() {
        assert(Seq::new(len / 4, |i: int| le32(s + t, at + 4 * i)) =~= Seq::new(len / 4, |i: int| le32(s, at + 4 * i))) by {
            assert forall|i: int| 0 <= i < len / 4 implies #[trigger] le32(s + t, at + 4 * i) == le32(s, at + 4 * i) by {
                assert(at + 4 * i + 4 <= at + len);
            }
        }
    }
}

proof fn lemma_dir_index_extend(s: Seq<u8>, t: Seq<u8>, at: nat)
    requires
        spec_dir_index(s, at) is Ok,
    ensures
        spec_dir_index(s + t, at) == spec_dir_index(s, at),
        at <= spec_dir_index(s, at)->Ok_0.1 <= s.len(),
{
    lemma_extend_bytes(s, t, at as int, 12);
    lemma_bytes_at_extend(s, t, at + 12, le32(s, (at + 8) as int) as nat);
}

proof fn lemma_dir_indexes_extend(s: Seq<u8>, t: Seq<u8>, at: nat, k: nat)
    requires
        spec_dir_indexes(s, at, k) is Ok,
        at <= s.len(),
    ensures
        spec_dir_indexes(s + t, at, k) == spec_dir_indexes(s, at, k),
        at <= spec_dir_indexes(s, at, k)->Ok_0.1 <= s.len(),
    decreases k,
{
    if k > 0 {
        lemma_dir_index_extend(s, t, at);
        let end = spec_dir_index(s, at)->Ok_0.1;
        lemma_dir_indexes_extend(s, t, end, (k - 1) as nat);
    }
}

proof fn lemma_inode_data_extend(s: Seq<u8>, t: Seq<u8>, at: nat, ty: u16, block_size: u32)
    requires
        spec_inode_data(s, at, ty, block_size) is Ok,
    ensures
        spec_inode_data(s + t, at, ty, block_size) == spec_inode_data(s, at, ty, block_size),
        at <= spec_inode_data(s, at, ty, block_size)->Ok_0.1 <= s.len(),
{
    if ty == DIR_TYPE {
        lemma_extend_bytes(s, t, at as int, 16);
    } else if ty == FILE_TYPE {
        lemma_extend_bytes(s, t, at as int, 16);
        let n = block_count(le32(s, (at + 12) as int) as nat, le32(s, (at + 4) as int), block_size as nat);
        lemma_words_at_extend(s, t, at + 16, n * 4);
    } else if ty == SYM_TYPE {
        lemma_extend_bytes(s, t, at as int, 8);
        lemma_bytes_at_extend(s, t, at + 8, le32(s, (at + 4) as int) as nat);
    } else if ty == BLOCK_DEV_TYPE || ty == CHAR_DEV_TYPE {
        lemma_extend_bytes(s, t, at as int, 8);
    } else if ty == FIFO_TYPE || ty == SOCKET_TYPE {
        lemma_extend_bytes(s, t, at as int, 4);
    } else if ty == EXT_DIR_TYPE {
        lemma_extend_bytes(s, t, at as int, 24);
        lemma_dir_indexes_extend(s, t, at + 24, le16(s, (at + 16) as int) as nat);
    } else if ty == EXT_FILE_TYPE {
        lemma_extend_bytes(s, t, at as int, 40);
        let n = block_count(le64(s, (at + 8) as int) as nat, le32(s, (at + 28) as int), block_size as nat);
        lemma_words_at_extend(s, t, at + 40, n * 4);
    } else if ty == EXT_SYM_TYPE {
        lemma_extend_bytes(s, t, at as int, 8);
        lemma_bytes_at_extend(s, t, at + 8, le32(s, (at + 4) as int) as nat);
        let end = spec_sym_inode(s, at)->Ok_0.1;
        lemma_extend_bytes(s, t, end as int, 4);
    } else if ty == EXT_BLOCK_DEV_TYPE || ty == EXT_CHAR_DEV_TYPE {
        lemma_extend_bytes(s, t, at as int, 12);
    } else {
        lemma_extend_bytes(s, t, at as int, 8);
    }
}

/// Decoding an inode reads nothing past the bytes it consumes: bytes appended after an
/// inode that decodes change neither the inode nor where it ends, and it ends within
/// the bytes given.
pub proof fn lemma_inode_extend(s: Seq<u8>, t: Seq<u8>, at: nat, block_size: u32)
    requires
        spec_inode(s, at, block_size) is Ok,
    ensures
        spec_inode(s + t, at, block_size) == spec_inode(s, at, block_size),
        at + 16 <= spec_inode(s, at, block_size)->Ok_0.1 <= s.len(),
{
    lemma_extend_bytes(s, t, at as int, 16);
    let header = spec_inode_header(s, at)->Ok_0.0;
    lemma_inode_data_extend(s, t, at + 16, header.inode_type, block_size);
}

// ---------------------------------------------------------------------------------
// Writing inodes, and reading back what was written.

/// The 16 bytes an inode header is written as, field by field.
pub open spec fn encode_inode_header(h: InodeHeader) -> Seq<u8> {
    u16_bytes(h.inode_type) + u16_bytes(h.permissions) + u16_bytes(h.uid_index) + u16_bytes(h.gid_index)
        + u32_bytes(h.mod_time) + u32_bytes(h.number)
}

/// A directory inode's payload, field by field.
pub open spec fn encode_dir_inode(d: DirInode) -> Seq<u8> {
    u32_bytes(d.block_start) + u16_bytes(d.link_count) + u32_bytes(d.size) + u16_bytes(d.block_offset)
        + u32_bytes(d.parent_inode)
}

/// A device inode's payload.
pub open spec fn encode_dev_inode(d: DevInode) -> Seq<u8> {
    u32_bytes(d.link_count) + u32_bytes(d.dev_number)
}

/// An extended device inode's payload.
pub open spec fn encode_ext_dev_inode(d: ExtDevInode) -> Seq<u8> {
    u32_bytes(d.link_count) + u32_bytes(d.dev_number) + u32_bytes(d.xattr_index)
}

/// A fifo or socket inode's payload.
pub open spec fn encode_ipc_inode(d: IPCInode) -> Seq<u8> {
    u32_bytes(d.link_count)
}

/// An extended fifo or socket inode's payload.
pub open spec fn encode_ext_ipc_inode(d: ExtIPCInode) -> Seq<u8> {
    u32_bytes(d.link_count) + u32_bytes(d.xattr_index)
}

/// A file inode's payload: its four fields, then its block sizes.
pub open spec fn encode_file_inode(f: SpecFileInode) -> Seq<u8> {
    u32_bytes(f.block_start) + u32_bytes(f.frag_index) + u32_bytes(f.block_offset) + u32_bytes(f.size)
        + words_bytes(f.block_sizes)
}

/// An extended file inode's payload: its seven fields, then its block sizes.
pub open spec fn encode_ext_file_inode(f: SpecExtFileInode) -> Seq<u8> {
    u64_bytes(f.block_start) + u64_bytes(f.size) + u64_bytes(f.sparse) + u32_bytes(f.link_count)
        + u32_bytes(f.frag_index) + u32_bytes(f.block_offset) + u32_bytes(f.xattr_index) + words_bytes(f.block_sizes)
}

/// A symlink inode's payload: link count, path size, then the path.
pub open spec fn encode_sym_inode(y: SpecSymInode) -> Seq<u8> {
    u32_bytes(y.link_count) + u32_bytes(y.path_size) + y.path
}

/// An extended symlink inode's payload: as a symlink's, then the xattr index.
pub open spec fn encode_ext_sym_inode(y: SpecExtSymInode) -> Seq<u8> {
    u32_bytes(y.link_count) + u32_bytes(y.path_size) + y.path + u32_bytes(y.xattr_index)
}

/// A directory index: index, offset, name size, then the name.
pub open spec fn encode_dir_index(d: SpecDirIndex) -> Seq<u8> {
    u32_bytes(d.index) + u32_bytes(d.offset) + u32_bytes(d.name_size) + d.name
}

/// Directory indexes one after another.
pub open spec fn encode_dir_indexes(ds: Seq<SpecDirIndex>) -> Seq<u8>
    decreases ds.len(),
{
    if ds.len() == 0 {
        Seq::empty()
    } else {
        encode_dir_index(ds[0]) + encode_dir_indexes(ds.drop_first())
    }
}

/// An extended directory inode's payload: its seven fields, then its indexes.
pub open spec fn encode_ext_dir_inode(d: SpecExtDirInode) -> Seq<u8> {
    u32_bytes(d.link_count) + u32_bytes(d.size) + u32_bytes(d.block_start) + u32_bytes(d.parent_inode)
        + u16_bytes(d.index_count) + u16_bytes(d.block_offset) + u32_bytes(d.xattr_index)
        + encode_dir_indexes(d.dir_indexes)
}

/// A directory index whose name is as long as its name size says.
pub open spec fn dir_index_fits(d: SpecDirIndex) -> bool {
    d.name.len() == d.name_size
}

/// How many blocks a file's data takes: every whole block, and when the file has no
/// fragment (`frag_index` all ones) its tail too, rounding up; with a fragment the tail
/// lives there and the count rounds down.
pub open spec fn blocks_of_file(size: nat, frag_index: u32, block_size: nat) -> nat {
    if frag_index == 0xFFFF_FFFF {
        ((size + block_size - 1) as nat) / block_size
    } else {
        size / block_size
    }
}

/// A file inode lists one block size per block its data takes: `size / block_size`
/// rounded up without a fragment, rounded down with one.
pub proof fn lemma_block_count(size: nat, frag_index: u32, block_size: nat)
    requires
        block_size > 0,
    ensures
        block_count(size, frag_index, block_size) == blocks_of_file(size, frag_index, block_size),
{
    let b = block_size as int;
    let q = size as int / b;
    let r = size as int % b;
    vstd::arithmetic::div_mod::lemma_fundamental_div_mod(size as int, b);
    if frag_index == 0xFFFF_FFFF {
        let c = (size + block_size - 1) as int;
        if r == 0 {
            assert(c == b * q + (b - 1));
            vstd::arithmetic::div_mod::lemma_fundamental_div_mod_converse(c, b, q, b - 1);
        } else {
            assert(b * (q + 1) == b * q + b) by (nonlinear_arith);
            assert(c == b * (q + 1) + (r - 1));
            vstd::arithmetic::div_mod::lemma_fundamental_div_mod_converse(c, b, q + 1, r - 1);
        }
    }
}

/// A written inode header reads back as itself, 16 bytes on.
pub proof fn lemma_inode_header_roundtrip(p: Seq<u8>, h: InodeHeader, q: Seq<u8>)
    ensures
        spec_inode_header(p + encode_inode_header(h) + q, p.len()) == Ok::<(InodeHeader, nat), SquashError>((h, p.len() + 16)),
{
    let s = p + encode_inode_header(h) + q;
    let a = p.len() as int;
    assert(s.subrange(a, a + 2) =~= u16_bytes(h.inode_type));
    lemma_le16_of(s, a, h.inode_type);
    assert(s.subrange(a + 2, a + 4) =~= u16_bytes(h.permissions));
    lemma_le16_of(s, a + 2, h.permissions);
    assert(s.subrange(a + 4, a + 6) =~= u16_bytes(h.uid_index));
    lemma_le16_of(s, a + 4, h.uid_index);
    assert(s.subrange(a + 6, a + 8) =~= u16_bytes(h.gid_index));
    lemma_le16_of(s, a + 6, h.gid_index);
    assert(s.subrange(a + 8, a + 12) =~= u32_bytes(h.mod_time));
    lemma_le32_of(s, a + 8, h.mod_time);
    assert(s.subrange(a + 12, a + 16) =~= u32_bytes(h.number));
    lemma_le32_of(s, a + 12, h.number);
}

/// A written directory inode payload reads back as itself, 16 bytes on.
pub proof fn lemma_dir_inode_roundtrip(p: Seq<u8>, d: DirInode, q: Seq<u8>)
    ensures
        spec_dir_inode(p + encode_dir_inode(d) + q, p.len()) == Ok::<(DirInode, nat), SquashError>((d, p.len() + 16)),
{
    let s = p + encode_dir_inode(d) + q;
    let a = p.len() as int;
    assert(s.subrange(a, a + 4) =~= u32_bytes(d.block_start));
    lemma_le32_of(s, a, d.block_start);
    assert(s.subrange(a + 4, a + 6) =~= u16_bytes(d.link_count));
    lemma_le16_of(s, a + 4, d.link_count);
    assert(s.subrange(a + 6, a + 10) =~= u32_bytes(d.size));
    lemma_le32_of(s, a + 6, d.size);
    assert(s.subrange(a + 10, a + 12) =~= u16_bytes(d.block_offset));
    lemma_le16_of(s, a + 10, d.block_offset);
    assert(s.subrange(a + 12, a + 16) =~= u32_bytes(d.parent_inode));
    lemma_le32_of(s, a + 12, d.parent_inode);
}

/// Written device, extended device, fifo/socket and extended fifo/socket payloads read
/// back as themselves, each ending where its bytes end.
pub proof fn lemma_small_inodes_roundtrip(p: Seq<u8>, d: DevInode, x: ExtDevInode, i: IPCInode, y: ExtIPCInode, q: Seq<u8>)
    ensures
        spec_dev_inode(p + encode_dev_inode(d) + q, p.len()) == Ok::<(DevInode, nat), SquashError>((d, p.len() + 8)),
        spec_ext_dev_inode(p + encode_ext_dev_inode(x) + q, p.len()) == Ok::<(ExtDevInode, nat), SquashError>((x, p.len() + 12)),
        spec_ipc_inode(p + encode_ipc_inode(i) + q, p.len()) == Ok::<(IPCInode, nat), SquashError>((i, p.len() + 4)),
        spec_ext_ipc_inode(p + encode_ext_ipc_inode(y) + q, p.len()) == Ok::<(ExtIPCInode, nat), SquashError>((y, p.len() + 8)),
{
    let a = p.len() as int;
    let s = p + encode_dev_inode(d) + q;
    assert(s.subrange(a, a + 4) =~= u32_bytes(d.link_count));
    lemma_le32_of(s, a, d.link_count);
    assert(s.subrange(a + 4, a + 8) =~= u32_bytes(d.dev_number));
    lemma_le32_of(s, a + 4, d.dev_number);
    let s = p + encode_ext_dev_inode(x) + q;
    assert(s.subrange(a, a + 4) =~= u32_bytes(x.link_count));
    lemma_le32_of(s, a, x.link_count);
    assert(s.subrange(a + 4, a + 8) =~= u32_bytes(x.dev_number));
    lemma_le32_of(s, a + 4, x.dev_number);
    assert(s.subrange(a + 8, a + 12) =~= u32_bytes(x.xattr_index));
    lemma_le32_of(s, a + 8, x.xattr_index);
    let s = p + encode_ipc_inode(i) + q;
    assert(s.subrange(a, a + 4) =~= u32_bytes(i.link_count));
    lemma_le32_of(s, a, i.link_count);
    let s = p + encode_ext_ipc_inode(y) + q;
    assert(s.subrange(a, a + 4) =~= u32_bytes(y.link_count));
    lemma_le32_of(s, a, y.link_count);
    assert(s.subrange(a + 4, a + 8) =~= u32_bytes(y.xattr_index));
    lemma_le32_of(s, a + 4, y.xattr_index);
}

/// A written file inode payload reads back as itself when it lists one block size per
/// block its data takes (rounding up without a fragment, down with one); it ends after
/// its 16 fixed bytes and 4 bytes per block size.
pub proof fn lemma_file_inode_roundtrip(p: Seq<u8>, f: SpecFileInode, q: Seq<u8>, block_size: u32)
    requires
        block_size > 0,
        f.block_sizes.len() == blocks_of_file(f.size as nat, f.frag_index, block_size as nat),
        4 * f.block_sizes.len() <= u32::MAX,
    ensures
        spec_file_inode(p + encode_file_inode(f) + q, p.len(), block_size)
            == Ok::<(SpecFileInode, nat), SquashError>((f, p.len() + 16 + 4 * f.block_sizes.len())),
{
    let s = p + encode_file_inode(f) + q;
    let a = p.len() as int;
    let n = f.block_sizes.len();
    assert(s.subrange(a, a + 4) =~= u32_bytes(f.block_start));
    lemma_le32_of(s, a, f.block_start);
    assert(s.subrange(a + 4, a + 8) =~= u32_bytes(f.frag_index));
    lemma_le32_of(s, a + 4, f.frag_index);
    assert(s.subrange(a + 8, a + 12) =~= u32_bytes(f.block_offset));
    lemma_le32_of(s, a + 8, f.block_offset);
    assert(s.subrange(a + 12, a + 16) =~= u32_bytes(f.size));
    lemma_le32_of(s, a + 12, f.size);
    lemma_block_count(f.size as nat, f.frag_index, block_size as nat);
    assert(s.subrange(a + 16, a + 16 + 4 * n) =~= words_bytes(f.block_sizes));
    lemma_words_of(s, a + 16, f.block_sizes);
    assert((n * 4) / 4 == n);
    let got = spec_words_at(s, (a + 16) as nat, n * 4)->Ok_0.0;
    assert(got =~= f.block_sizes);
}

/// A written extended file inode payload reads back as itself when it lists one block
/// size per block its data takes; it ends after its 40 fixed bytes and 4 bytes per
/// block size.
pub proof fn lemma_ext_file_inode_roundtrip(p: Seq<u8>, f: SpecExtFileInode, q: Seq<u8>, block_size: u32)
    requires
        block_size > 0,
        f.block_sizes.len() == blocks_of_file(f.size as nat, f.frag_index, block_size as nat),
        4 * f.block_sizes.len() <= usize::MAX,
    ensures
        spec_ext_file_inode(p + encode_ext_file_inode(f) + q, p.len(), block_size)
            == Ok::<(SpecExtFileInode, nat), SquashError>((f, p.len() + 40 + 4 * f.block_sizes.len())),
{
    let s = p + encode_ext_file_inode(f) + q;
    let a = p.len() as int;
    let n = f.block_sizes.len();
    assert(s.subrange(a, a + 8) =~= u64_bytes(f.block_start));
    lemma_le64_of(s, a, f.block_start);
    assert(s.subrange(a + 8, a + 16) =~= u64_bytes(f.size));
    lemma_le64_of(s, a + 8, f.size);
    assert(s.subrange(a + 16, a + 24) =~= u64_bytes(f.sparse));
    lemma_le64_of(s, a + 16, f.sparse);
    assert(s.subrange(a + 24, a + 28) =~= u32_bytes(f.link_count));
    lemma_le32_of(s, a + 24, f.link_count);
    assert(s.subrange(a + 28, a + 32) =~= u32_bytes(f.frag_index));
    lemma_le32_of(s, a + 28, f.frag_index);
    assert(s.subrange(a + 32, a + 36) =~= u32_bytes(f.block_offset));
    lemma_le32_of(s, a + 32, f.block_offset);
    assert(s.subrange(a + 36, a + 40) =~= u32_bytes(f.xattr_index));
    lemma_le32_of(s, a + 36, f.xattr_index);
    lemma_block_count(f.size as nat, f.frag_index, block_size as nat);
    assert(s.subrange(a + 40, a + 40 + 4 * n) =~= words_bytes(f.block_sizes));
    lemma_words_of(s, a + 40, f.block_sizes);
    assert((n * 4) / 4 == n);
    let got = spec_words_at(s, (a + 40) as nat, n * 4)->Ok_0.0;
    assert(got =~= f.block_sizes);
}

/// Written symlink and extended symlink payloads read back as themselves when the path
/// is as long as the path size says: the path is the raw bytes after the two fields.
pub proof fn lemma_sym_inodes_roundtrip(p: Seq<u8>, y: SpecSymInode, x: SpecExtSymInode, q: Seq<u8>)
    requires
        y.path.len() == y.path_size,
        x.path.len() == x.path_size,
    ensures
        spec_sym_inode(p + encode_sym_inode(y) + q, p.len())
            == Ok::<(SpecSymInode, nat), SquashError>((y, p.len() + 8 + y.path.len())),
        spec_ext_sym_inode(p + encode_ext_sym_inode(x) + q, p.len())
            == Ok::<(SpecExtSymInode, nat), SquashError>((x, p.len() + 12 + x.path.len())),
{
    let a = p.len() as int;
    let s = p + encode_sym_inode(y) + q;
    assert(s.subrange(a, a + 4) =~= u32_bytes(y.link_count));
    lemma_le32_of(s, a, y.link_count);
    assert(s.subrange(a + 4, a + 8) =~= u32_bytes(y.path_size));
    lemma_le32_of(s, a + 4, y.path_size);
    assert(s.subrange(a + 8, a + 8 + y.path.len()) =~= y.path);
    let s = p + encode_ext_sym_inode(x) + q;
    let l = x.path.len() as int;
    assert(s.subrange(a, a + 4) =~= u32_bytes(x.link_count));
    lemma_le32_of(s, a, x.link_count);
    assert(s.subrange(a + 4, a + 8) =~= u32_bytes(x.path_size));
    lemma_le32_of(s, a + 4, x.path_size);
    assert(s.subrange(a + 8, a + 8 + l) =~= x.path);
    assert(s.subrange(a + 8 + l, a + 12 + l) =~= u32_bytes(x.xattr_index));
    lemma_le32_of(s, a + 8 + l, x.xattr_index);
}

/// A written directory index reads back as itself when its name is as long as its name
/// size says: index, offset and name size are its first three words, in that order.
pub proof fn lemma_dir_index_roundtrip(p: Seq<u8>, d: SpecDirIndex, q: Seq<u8>)
    requires
        dir_index_fits(d),
    ensures
        spec_dir_index(p + encode_dir_index(d) + q, p.len())
            == Ok::<(SpecDirIndex, nat), SquashError>((d, p.len() + 12 + d.name.len())),
{
    let s = p + encode_dir_index(d) + q;
    let a = p.len() as int;
    assert(s.subrange(a, a + 4) =~= u32_bytes(d.index));
    lemma_le32_of(s, a, d.index);
    assert(s.subrange(a + 4, a + 8) =~= u32_bytes(d.offset));
    lemma_le32_of(s, a + 4, d.offset);
    assert(s.subrange(a + 8, a + 12) =~= u32_bytes(d.name_size));
    lemma_le32_of(s, a + 8, d.name_size);
    assert(s.subrange(a + 12, a + 12 + d.name.len()) =~= d.name);
}

/// `p + (a + b) + q` seen as `a` between `p` and `b + q`, or as `b` between `p + a` and `q`.
proof fn lemma_regroup(p: Seq<u8>, a: Seq<u8>, b: Seq<u8>, q: Seq<u8>)
    ensures
        p + (a + b) + q == p + a + (b + q),
        p + (a + b) + q == (p + a) + b + q,
{
    assert(p + (a + b) + q =~= p + a + (b + q));
    assert(p + (a + b) + q =~= (p + a) + b + q);
}

/// Written directory indexes read back as themselves, one after another.
pub proof fn lemma_dir_indexes_roundtrip(p: Seq<u8>, ds: Seq<SpecDirIndex>, q: Seq<u8>)
    requires
        forall|i: int| 0 <= i < ds.len() ==> dir_index_fits(#[trigger] ds[i]),
    ensures
        spec_dir_indexes(p + encode_dir_indexes(ds) + q, p.len(), ds.len())
            == Ok::<(Seq<SpecDirIndex>, nat), SquashError>((ds, p.len() + encode_dir_indexes(ds).len())),
    decreases ds.len(),
{
    if ds.len() == 0 {
        assert(ds =~= Seq::<SpecDirIndex>::empty());
    } else {
        let e0 = encode_dir_index(ds[0]);
        let rest = encode_dir_indexes(ds.drop_first());
        assert(dir_index_fits(ds[0]));
        assert forall|i: int| 0 <= i < ds.drop_first().len() implies dir_index_fits(#[trigger] ds.drop_first()[i]) by {
            assert(ds.drop_first()[i] == ds[i + 1]);
        }
        assert(encode_dir_indexes(ds) == e0 + rest);
        lemma_regroup(p, e0, rest, q);
        lemma_dir_index_roundtrip(p, ds[0], rest + q);
        lemma_dir_indexes_roundtrip(p + e0, ds.drop_first(), q);
        assert(e0.len() == 12 + ds[0].name.len());
        assert(seq![ds[0]] + ds.drop_first() =~= ds);
    }
}

/// A written extended directory inode payload reads back as itself when its index count
/// is the number of its indexes and each index's name fits its name size.
pub proof fn lemma_ext_dir_inode_roundtrip(p: Seq<u8>, d: SpecExtDirInode, q: Seq<u8>)
    requires
        d.index_count == d.dir_indexes.len(),
        forall|i: int| 0 <= i < d.dir_indexes.len() ==> dir_index_fits(#[trigger] d.dir_indexes[i]),
    ensures
        spec_ext_dir_inode(p + encode_ext_dir_inode(d) + q, p.len())
            == Ok::<(SpecExtDirInode, nat), SquashError>((d, p.len() + encode_ext_dir_inode(d).len())),
{
    let s = p + encode_ext_dir_inode(d) + q;
    let a = p.len() as int;
    assert(s.subrange(a, a + 4) =~= u32_bytes(d.link_count));
    lemma_le32_of(s, a, d.link_count);
    assert(s.subrange(a + 4, a + 8) =~= u32_bytes(d.size));
    lemma_le32_of(s, a + 4, d.size);
    assert(s.subrange(a + 8, a + 12) =~= u32_bytes(d.block_start));
    lemma_le32_of(s, a + 8, d.block_start);
    assert(s.subrange(a + 12, a + 16) =~= u32_bytes(d.parent_inode));
    lemma_le32_of(s, a + 12, d.parent_inode);
    assert(s.subrange(a + 16, a + 18) =~= u16_bytes(d.index_count));
    lemma_le16_of(s, a + 16, d.index_count);
    assert(s.subrange(a + 18, a + 20) =~= u16_bytes(d.block_offset));
    lemma_le16_of(s, a + 18, d.block_offset);
    assert(s.subrange(a + 20, a + 24) =~= u32_bytes(d.xattr_index));
    lemma_le32_of(s, a + 20, d.xattr_index);
    let fixed = s.subrange(a, a + 24);
    assert(s =~= (p + fixed) + encode_dir_indexes(d.dir_indexes) + q);
    lemma_dir_indexes_roundtrip(p + fixed, d.dir_indexes, q);
}

/// The type number an inode header carries for each kind of payload: 1 to 7 for the
/// basic directory, file, symlink, block device, character device, fifo and socket, 8
/// to 14 for their extended forms in the same order.
pub open spec fn type_number(d: SpecInodeData) -> u16 {
    match d {
        SpecInodeData::Dir(_) => 1,
        SpecInodeData::File(_) => 2,
        SpecInodeData::Sym(_) => 3,
        SpecInodeData::BlockDev(_) => 4,
        SpecInodeData::CharDev(_) => 5,
        SpecInodeData::Fifo(_) => 6,
        SpecInodeData::Socket(_) => 7,
        SpecInodeData::ExtDir(_) => 8,
        SpecInodeData::ExtFile(_) => 9,
        SpecInodeData::ExtSym(_) => 10,
        SpecInodeData::ExtBlockDev(_) => 11,
        SpecInodeData::ExtCharDev(_) => 12,
        SpecInodeData::ExtFifo(_) => 13,
        SpecInodeData::ExtSocket(_) => 14,
    }
}

/// The bytes a payload is written as.
pub open spec fn encode_inode_data(d: SpecInodeData) -> Seq<u8> {
    match d {
        SpecInodeData::Dir(x) => encode_dir_inode(x),
        SpecInodeData::File(x) => encode_file_inode(x),
        SpecInodeData::Sym(x) => encode_sym_inode(x),
        SpecInodeData::BlockDev(x) => encode_dev_inode(x),
        SpecInodeData::CharDev(x) => encode_dev_inode(x),
        SpecInodeData::Fifo(x) => encode_ipc_inode(x),
        SpecInodeData::Socket(x) => encode_ipc_inode(x),
        SpecInodeData::ExtDir(x) => encode_ext_dir_inode(x),
        SpecInodeData::ExtFile(x) => encode_ext_file_inode(x),
        SpecInodeData::ExtSym(x) => encode_ext_sym_inode(x),
        SpecInodeData::ExtBlockDev(x) => encode_ext_dev_inode(x),
        SpecInodeData::ExtCharDev(x) => encode_ext_dev_inode(x),
        SpecInodeData::ExtFifo(x) => encode_ext_ipc_inode(x),
        SpecInodeData::ExtSocket(x) => encode_ext_ipc_inode(x),
    }
}

/// A payload whose size fields agree with what it holds: paths and names as long as
/// their sizes, an index count equal to the number of indexes, and files listing one
/// block size per block of their data (at most `u32::MAX / 4` of them for a basic file).
pub open spec fn data_fits(d: SpecInodeData, block_size: u32) -> bool {
    match d {
        SpecInodeData::File(f) => f.block_sizes.len() == blocks_of_file(f.size as nat, f.frag_index, block_size as nat)
            && 4 * f.block_sizes.len() <= u32::MAX,
        SpecInodeData::ExtFile(f) => f.block_sizes.len() == blocks_of_file(f.size as nat, f.frag_index, block_size as nat)
            && 4 * f.block_sizes.len() <= usize::MAX,
        SpecInodeData::Sym(y) => y.path.len() == y.path_size,
        SpecInodeData::ExtSym(y) => y.path.len() == y.path_size,
        SpecInodeData::ExtDir(x) => x.index_count == x.dir_indexes.len()
            && forall|i: int| 0 <= i < x.dir_indexes.len() ==> dir_index_fits(#[trigger] x.dir_indexes[i]),
        _ => true,
    }
}

/// The bytes an inode is written as: its header, then its payload.
pub open spec fn encode_inode(i: SpecInode) -> Seq<u8> {
    encode_inode_header(i.header) + encode_inode_data(i.data)
}

/// A payload written after a header carrying its type number reads back as itself.
/// Type number `t` selects the payload layout that `type_number` gives it.
proof fn lemma_type_selects(s: Seq<u8>, a: nat, t: u16, block_size: u32)
    ensures
        t == 1 ==> spec_inode_data(s, a, t, block_size) == wrap(spec_dir_inode(s, a), |v| SpecInodeData::Dir(v)),
        t == 2 ==> spec_inode_data(s, a, t, block_size) == wrap(spec_file_inode(s, a, block_size), |v| SpecInodeData::File(v)),
        t == 3 ==> spec_inode_data(s, a, t, block_size) == wrap(spec_sym_inode(s, a), |v| SpecInodeData::Sym(v)),
        t == 4 ==> spec_inode_data(s, a, t, block_size) == wrap(spec_dev_inode(s, a), |v| SpecInodeData::BlockDev(v)),
        t == 5 ==> spec_inode_data(s, a, t, block_size) == wrap(spec_dev_inode(s, a), |v| SpecInodeData::CharDev(v)),
        t == 6 ==> spec_inode_data(s, a, t, block_size) == wrap(spec_ipc_inode(s, a), |v| SpecInodeData::Fifo(v)),
        t == 7 ==> spec_inode_data(s, a, t, block_size) == wrap(spec_ipc_inode(s, a), |v| SpecInodeData::Socket(v)),
        t == 8 ==> spec_inode_data(s, a, t, block_size) == wrap(spec_ext_dir_inode(s, a), |v| SpecInodeData::ExtDir(v)),
        t == 9 ==> spec_inode_data(s, a, t, block_size) == wrap(spec_ext_file_inode(s, a, block_size), |v| SpecInodeData::ExtFile(v)),
        t == 10 ==> spec_inode_data(s, a, t, block_size) == wrap(spec_ext_sym_inode(s, a), |v| SpecInodeData::ExtSym(v)),
        t == 11 ==> spec_inode_data(s, a, t, block_size) == wrap(spec_ext_dev_inode(s, a), |v| SpecInodeData::ExtBlockDev(v)),
        t == 12 ==> spec_inode_data(s, a, t, block_size) == wrap(spec_ext_dev_inode(s, a), |v| SpecInodeData::ExtCharDev(v)),
        t == 13 ==> spec_inode_data(s, a, t, block_size) == wrap(spec_ext_ipc_inode(s, a), |v| SpecInodeData::ExtFifo(v)),
        t == 14 ==> spec_inode_data(s, a, t, block_size) == wrap(spec_ext_ipc_inode(s, a), |v| SpecInodeData::ExtSocket(v)),
{
}

/// A payload of kind `dir`, read with its own type number, gives itself back.
proof fn lemma_dir_data_roundtrip(p: Seq<u8>, x: DirInode, q: Seq<u8>, block_size: u32)
    requires
        block_size > 0,
        data_fits(SpecInodeData::Dir(x), block_size),
    ensures
        spec_inode_data(p + encode_dir_inode(x) + q, p.len(), 1, block_size)
            == Ok::<(SpecInodeData, nat), SquashError>((SpecInodeData::Dir(x), p.len() + encode_dir_inode(x).len())),
{
    let s = p + encode_dir_inode(x) + q;
    let a = p.len();
    lemma_dir_inode_roundtrip(p, x, q);
    lemma_type_selects(s, a, 1, block_size);
}

/// A payload of kind `file`, read with its own type number, gives itself back.
proof fn lemma_file_data_roundtrip(p: Seq<u8>, x: SpecFileInode, q: Seq<u8>, block_size: u32)
    requires
        block_size > 0,
        data_fits(SpecInodeData::File(x), block_size),
    ensures
        spec_inode_data(p + encode_file_inode(x) + q, p.len(), 2, block_size)
            == Ok::<(SpecInodeData, nat), SquashError>((SpecInodeData::File(x), p.len() + encode_file_inode(x).len())),
{
    let s = p + encode_file_inode(x) + q;
    let a = p.len();
    lemma_file_inode_roundtrip(p, x, q, block_size);
    lemma_type_selects(s, a, 2, block_size);
}

/// A payload of kind `sym`, read with its own type number, gives itself back.
proof fn lemma_sym_data_roundtrip(p: Seq<u8>, x: SpecSymInode, q: Seq<u8>, block_size: u32)
    requires
        block_size > 0,
        data_fits(SpecInodeData::Sym(x), block_size),
    ensures
        spec_inode_data(p + encode_sym_inode(x) + q, p.len(), 3, block_size)
            == Ok::<(SpecInodeData, nat), SquashError>((SpecInodeData::Sym(x), p.len() + encode_sym_inode(x).len())),
{
    let s = p + encode_sym_inode(x) + q;
    let a = p.len();
    let nz = SpecExtSymInode { link_count: 0, path_size: 0, path: Seq::empty(), xattr_index: 0 };
    lemma_sym_inodes_roundtrip(p, x, nz, q);
    lemma_type_selects(s, a, 3, block_size);
}

/// A payload of kind `block_dev`, read with its own type number, gives itself back.
proof fn lemma_block_dev_data_roundtrip(p: Seq<u8>, x: DevInode, q: Seq<u8>, block_size: u32)
    requires
        block_size > 0,
        data_fits(SpecInodeData::BlockDev(x), block_size),
    ensures
        spec_inode_data(p + encode_dev_inode(x) + q, p.len(), 4, block_size)
            == Ok::<(SpecInodeData, nat), SquashError>((SpecInodeData::BlockDev(x), p.len() + encode_dev_inode(x).len())),
{
    let s = p + encode_dev_inode(x) + q;
    let a = p.len();
    let nx = ExtDevInode { link_count: 0, dev_number: 0, xattr_index: 0 };
    let ni = IPCInode { link_count: 0 };
    let ny = ExtIPCInode { link_count: 0, xattr_index: 0 };
    lemma_small_inodes_roundtrip(p, x, nx, ni, ny, q);
    lemma_type_selects(s, a, 4, block_size);
}

/// A payload of kind `char_dev`, read with its own type number, gives itself back.
proof fn lemma_char_dev_data_roundtrip(p: Seq<u8>, x: DevInode, q: Seq<u8>, block_size: u32)
    requires
        block_size > 0,
        data_fits(SpecInodeData::CharDev(x), block_size),
    ensures
        spec_inode_data(p + encode_dev_inode(x) + q, p.len(), 5, block_size)
            == Ok::<(SpecInodeData, nat), SquashError>((SpecInodeData::CharDev(x), p.len() + encode_dev_inode(x).len())),
{
    let s = p + encode_dev_inode(x) + q;
    let a = p.len();
    let nx = ExtDevInode { link_count: 0, dev_number: 0, xattr_index: 0 };
    let ni = IPCInode { link_count: 0 };
    let ny = ExtIPCInode { link_count: 0, xattr_index: 0 };
    lemma_small_inodes_roundtrip(p, x, nx, ni, ny, q);
    lemma_type_selects(s, a, 5, block_size);
}

/// A payload of kind `fifo`, read with its own type number, gives itself back.
proof fn lemma_fifo_data_roundtrip(p: Seq<u8>, x: IPCInode, q: Seq<u8>, block_size: u32)
    requires
        block_size > 0,
        data_fits(SpecInodeData::Fifo(x), block_size),
    ensures
        spec_inode_data(p + encode_ipc_inode(x) + q, p.len(), 6, block_size)
            == Ok::<(SpecInodeData, nat), SquashError>((SpecInodeData::Fifo(x), p.len() + encode_ipc_inode(x).len())),
{
    let s = p + encode_ipc_inode(x) + q;
    let a = p.len();
    let nd = DevInode { link_count: 0, dev_number: 0 };
    let nx = ExtDevInode { link_count: 0, dev_number: 0, xattr_index: 0 };
    let ny = ExtIPCInode { link_count: 0, xattr_index: 0 };
    lemma_small_inodes_roundtrip(p, nd, nx, x, ny, q);
    lemma_type_selects(s, a, 6, block_size);
}

/// A payload of kind `socket`, read with its own type number, gives itself back.
proof fn lemma_socket_data_roundtrip(p: Seq<u8>, x: IPCInode, q: Seq<u8>, block_size: u32)
    requires
        block_size > 0,
        data_fits(SpecInodeData::Socket(x), block_size),
    ensures
        spec_inode_data(p + encode_ipc_inode(x) + q, p.len(), 7, block_size)
            == Ok::<(SpecInodeData, nat), SquashError>((SpecInodeData::Socket(x), p.len() + encode_ipc_inode(x).len())),
{
    let s = p + encode_ipc_inode(x) + q;
    let a = p.len();
    let nd = DevInode { link_count: 0, dev_number: 0 };
    let nx = ExtDevInode { link_count: 0, dev_number: 0, xattr_index: 0 };
    let ny = ExtIPCInode { link_count: 0, xattr_index: 0 };
    lemma_small_inodes_roundtrip(p, nd, nx, x, ny, q);
    lemma_type_selects(s, a, 7, block_size);
}

/// A payload of kind `ext_dir`, read with its own type number, gives itself back.
proof fn lemma_ext_dir_data_roundtrip(p: Seq<u8>, x: SpecExtDirInode, q: Seq<u8>, block_size: u32)
    requires
        block_size > 0,
        data_fits(SpecInodeData::ExtDir(x), block_size),
    ensures
        spec_inode_data(p + encode_ext_dir_inode(x) + q, p.len(), 8, block_size)
            == Ok::<(SpecInodeData, nat), SquashError>((SpecInodeData::ExtDir(x), p.len() + encode_ext_dir_inode(x).len())),
{
    let s = p + encode_ext_dir_inode(x) + q;
    let a = p.len();
    lemma_ext_dir_inode_roundtrip(p, x, q);
    lemma_type_selects(s, a, 8, block_size);
}

/// A payload of kind `ext_file`, read with its own type number, gives itself back.
proof fn lemma_ext_file_data_roundtrip(p: Seq<u8>, x: SpecExtFileInode, q: Seq<u8>, block_size: u32)
    requires
        block_size > 0,
        data_fits(SpecInodeData::ExtFile(x), block_size),
    ensures
        spec_inode_data(p + encode_ext_file_inode(x) + q, p.len(), 9, block_size)
            == Ok::<(SpecInodeData, nat), SquashError>((SpecInodeData::ExtFile(x), p.len() + encode_ext_file_inode(x).len())),
{
    let s = p + encode_ext_file_inode(x) + q;
    let a = p.len();
    lemma_ext_file_inode_roundtrip(p, x, q, block_size);
    lemma_type_selects(s, a, 9, block_size);
}

/// A payload of kind `ext_sym`, read with its own type number, gives itself back.
proof fn lemma_ext_sym_data_roundtrip(p: Seq<u8>, x: SpecExtSymInode, q: Seq<u8>, block_size: u32)
    requires
        block_size > 0,
        data_fits(SpecInodeData::ExtSym(x), block_size),
    ensures
        spec_inode_data(p + encode_ext_sym_inode(x) + q, p.len(), 10, block_size)
            == Ok::<(SpecInodeData, nat), SquashError>((SpecInodeData::ExtSym(x), p.len() + encode_ext_sym_inode(x).len())),
{
    let s = p + encode_ext_sym_inode(x) + q;
    let a = p.len();
    let ns = SpecSymInode { link_count: 0, path_size: 0, path: Seq::empty() };
    lemma_sym_inodes_roundtrip(p, ns, x, q);
    lemma_type_selects(s, a, 10, block_size);
}

/// A payload of kind `ext_block_dev`, read with its own type number, gives itself back.
proof fn lemma_ext_block_dev_data_roundtrip(p: Seq<u8>, x: ExtDevInode, q: Seq<u8>, block_size: u32)
    requires
        block_size > 0,
        data_fits(SpecInodeData::ExtBlockDev(x), block_size),
    ensures
        spec_inode_data(p + encode_ext_dev_inode(x) + q, p.len(), 11, block_size)
            == Ok::<(SpecInodeData, nat), SquashError>((SpecInodeData::ExtBlockDev(x), p.len() + encode_ext_dev_inode(x).len())),
{
    let s = p + encode_ext_dev_inode(x) + q;
    let a = p.len();
    let nd = DevInode { link_count: 0, dev_number: 0 };
    let ni = IPCInode { link_count: 0 };
    let ny = ExtIPCInode { link_count: 0, xattr_index: 0 };
    lemma_small_inodes_roundtrip(p, nd, x, ni, ny, q);
    lemma_type_selects(s, a, 11, block_size);
}

/// A payload of kind `ext_char_dev`, read with its own type number, gives itself back.
proof fn lemma_ext_char_dev_data_roundtrip(p: Seq<u8>, x: ExtDevInode, q: Seq<u8>, block_size: u32)
    requires
        block_size > 0,
        data_fits(SpecInodeData::ExtCharDev(x), block_size),
    ensures
        spec_inode_data(p + encode_ext_dev_inode(x) + q, p.len(), 12, block_size)
            == Ok::<(SpecInodeData, nat), SquashError>((SpecInodeData::ExtCharDev(x), p.len() + encode_ext_dev_inode(x).len())),
{
    let s = p + encode_ext_dev_inode(x) + q;
    let a = p.len();
    let nd = DevInode { link_count: 0, dev_number: 0 };
    let ni = IPCInode { link_count: 0 };
    let ny = ExtIPCInode { link_count: 0, xattr_index: 0 };
    lemma_small_inodes_roundtrip(p, nd, x, ni, ny, q);
    lemma_type_selects(s, a, 12, block_size);
}

/// A payload of kind `ext_fifo`, read with its own type number, gives itself back.
proof fn lemma_ext_fifo_data_roundtrip(p: Seq<u8>, x: ExtIPCInode, q: Seq<u8>, block_size: u32)
    requires
        block_size > 0,
        data_fits(SpecInodeData::ExtFifo(x), block_size),
    ensures
        spec_inode_data(p + encode_ext_ipc_inode(x) + q, p.len(), 13, block_size)
            == Ok::<(SpecInodeData, nat), SquashError>((SpecInodeData::ExtFifo(x), p.len() + encode_ext_ipc_inode(x).len())),
{
    let s = p + encode_ext_ipc_inode(x) + q;
    let a = p.len();
    let nd = DevInode { link_count: 0, dev_number: 0 };
    let nx = ExtDevInode { link_count: 0, dev_number: 0, xattr_index: 0 };
    let ni = IPCInode { link_count: 0 };
    lemma_small_inodes_roundtrip(p, nd, nx, ni, x, q);
    lemma_type_selects(s, a, 13, block_size);
}

/// A payload of kind `ext_socket`, read with its own type number, gives itself back.
proof fn lemma_ext_socket_data_roundtrip(p: Seq<u8>, x: ExtIPCInode, q: Seq<u8>, block_size: u32)
    requires
        block_size > 0,
        data_fits(SpecInodeData::ExtSocket(x), block_size),
    ensures
        spec_inode_data(p + encode_ext_ipc_inode(x) + q, p.len(), 14, block_size)
            == Ok::<(SpecInodeData, nat), SquashError>((SpecInodeData::ExtSocket(x), p.len() + encode_ext_ipc_inode(x).len())),
{
    let s = p + encode_ext_ipc_inode(x) + q;
    let a = p.len();
    let nd = DevInode { link_count: 0, dev_number: 0 };
    let nx = ExtDevInode { link_count: 0, dev_number: 0, xattr_index: 0 };
    let ni = IPCInode { link_count: 0 };
    lemma_small_inodes_roundtrip(p, nd, nx, ni, x, q);
    lemma_type_selects(s, a, 14, block_size);
}

/// A payload written after a header carrying its type number reads back as itself.
proof fn lemma_inode_data_roundtrip(p: Seq<u8>, data: SpecInodeData, q: Seq<u8>, block_size: u32)
    requires
        block_size > 0,
        data_fits(data, block_size),
    ensures
        spec_inode_data(p + encode_inode_data(data) + q, p.len(), type_number(data), block_size)
            == Ok::<(SpecInodeData, nat), SquashError>((data, p.len() + encode_inode_data(data).len())),
{
    match data {
        SpecInodeData::Dir(x) => lemma_dir_data_roundtrip(p, x, q, block_size),
        SpecInodeData::File(x) => lemma_file_data_roundtrip(p, x, q, block_size),
        SpecInodeData::Sym(x) => lemma_sym_data_roundtrip(p, x, q, block_size),
        SpecInodeData::BlockDev(x) => lemma_block_dev_data_roundtrip(p, x, q, block_size),
        SpecInodeData::CharDev(x) => lemma_char_dev_data_roundtrip(p, x, q, block_size),
        SpecInodeData::Fifo(x) => lemma_fifo_data_roundtrip(p, x, q, block_size),
        SpecInodeData::Socket(x) => lemma_socket_data_roundtrip(p, x, q, block_size),
        SpecInodeData::ExtDir(x) => lemma_ext_dir_data_roundtrip(p, x, q, block_size),
        SpecInodeData::ExtFile(x) => lemma_ext_file_data_roundtrip(p, x, q, block_size),
        SpecInodeData::ExtSym(x) => lemma_ext_sym_data_roundtrip(p, x, q, block_size),
        SpecInodeData::ExtBlockDev(x) => lemma_ext_block_dev_data_roundtrip(p, x, q, block_size),
        SpecInodeData::ExtCharDev(x) => lemma_ext_char_dev_data_roundtrip(p, x, q, block_size),
        SpecInodeData::ExtFifo(x) => lemma_ext_fifo_data_roundtrip(p, x, q, block_size),
        SpecInodeData::ExtSocket(x) => lemma_ext_socket_data_roundtrip(p, x, q, block_size),
    }
}

/// Decoding inverts writing: an inode whose header carries its payload's type number,
/// and whose payload's size fields agree with what it holds, reads back as itself and
/// ends where its bytes end, whatever surrounds it.
pub proof fn lemma_inode_roundtrip(p: Seq<u8>, i: SpecInode, q: Seq<u8>, block_size: u32)
    requires
        block_size > 0,
        i.header.inode_type == type_number(i.data),
        data_fits(i.data, block_size),
    ensures
        spec_inode(p + encode_inode(i) + q, p.len(), block_size)
            == Ok::<(SpecInode, nat), SquashError>((i, p.len() + encode_inode(i).len())),
{
    let h = encode_inode_header(i.header);
    let d = encode_inode_data(i.data);
    lemma_regroup(p, h, d, q);
    lemma_inode_header_roundtrip(p, i.header, d + q);
    lemma_inode_data_roundtrip(p + h, i.data, q, block_size);
}

} // verus!
