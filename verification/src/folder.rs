//! A directory: its inode and its entries.
use vstd::prelude::*;

use crate::directory::Entry;
use crate::inode::Inode;

verus! {

/// A directory: its inode and the entries of its listing.
#[derive(Debug)]
pub struct Folder {
    pub inode: Inode,
    pub entries: Vec<Entry>,
}

} // verus!
