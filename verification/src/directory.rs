//! Directory listings: runs of entries, each run led by a header that the entries'
//! inode numbers are relative to.
use vstd::prelude::*;

use crate::bytes::{
    has_bytes, le16, le32, le_i16, lemma_extend_bytes, lemma_le16_of, lemma_le32_of, lemma_prepend_items_empty, lemma_split_at,
    lemma_prepend_items_twice, prepend_items, read_u16, read_u32, u16_bytes, u32_bytes,
};
use crate::error::SquashError;

verus! {

/// The header of a run of directory entries.
#[derive(Debug, Clone, Copy, PartialEq, Eq, Structural)]
pub struct DirHeader {
    /// One less than the number of entries in the run.
    pub count: u32,
    /// The start of the metadata block that holds the entries' inodes.
    pub start: u32,
    /// The inode number the entries' offsets are relative to.
    pub inode_number: u32,
}

/// A directory entry.
#[derive(Debug)]
pub struct Entry {
    pub inode_number: u32,
    pub inode_type: u16,
    pub inode_start: u32,
    pub inode_offset: u16,
    pub name: Vec<u8>,
}

pub struct SpecEntry {
    pub inode_number: u32,
    pub inode_type: u16,
    pub inode_start: u32,
    pub inode_offset: u16,
    pub name: Seq<u8>,
}

impl View for Entry {
    type V = SpecEntry;

    open spec fn view(&self) -> SpecEntry {
        SpecEntry {
            inode_number: self.inode_number,
            inode_type: self.inode_type,
            inode_start: self.inode_start,
            inode_offset: self.inode_offset,
            name: self.name@,
        }
    }
}

/// The views of a sequence of entries.
pub open spec fn entry_views(v: Seq<Entry>) -> Seq<SpecEntry> {
    v.map_values(|e: Entry| e@)
}

/// A run header at `at`: count, start and inode number, three little-endian `u32`s.
pub open spec fn spec_dir_header(s: Seq<u8>, at: nat) -> Result<(DirHeader, nat), SquashError> {
    if at + 12 > s.len() {
        Err(SquashError::UnexpectedEof)
    } else {
        Ok((DirHeader {
            count: le32(s, at as int),
            start: le32(s, (at + 4) as int),
            inode_number: le32(s, (at + 8) as int),
        }, at + 12))
    }
}

/// `x` read as a two's-complement `i32`.
pub open spec fn as_i32(x: u32) -> int {
    if x < 0x8000_0000 {
        x as int
    } else {
        x - 0x1_0000_0000
    }
}

/// The inode number of an entry whose run starts at inode number `base` and whose
/// signed offset is `offset`: their sum in `i32` arithmetic, read back as a `u32`;
/// `None` when the sum leaves the range of `i32`.
pub open spec fn entry_inode_number(base: u32, offset: int) -> Option<u32> {
    let sum = as_i32(base) + offset;
    if sum < -0x8000_0000 || sum > 0x7FFF_FFFF {
        None
    } else if sum < 0 {
        Some((sum + 0x1_0000_0000) as u32)
    } else {
        Some(sum as u32)
    }
}

/// An entry at `at` of a run led by `hdr`: offset (`u16`), inode offset (`i16`), inode
/// type and name size (`u16`s), then the name in `name size` bytes.
pub open spec fn spec_entry(s: Seq<u8>, at: nat, hdr: DirHeader) -> Result<(SpecEntry, nat), SquashError> {
    if at + 8 > s.len() {
        Err(SquashError::UnexpectedEof)
    } else {
        let name_size = le16(s, (at + 6) as int);
        let end = at + 8 + name_size;
        if end > s.len() {
            Err(SquashError::UnexpectedEof)
        } else {
            match entry_inode_number(hdr.inode_number, le_i16(s, (at + 2) as int)) {
                None => Err(SquashError::Overflow),
                Some(inode_number) => Ok((SpecEntry {
                    inode_number,
                    inode_type: le16(s, (at + 4) as int),
                    inode_start: hdr.start,
                    inode_offset: le16(s, at as int),
                    name: s.subrange((at + 8) as int, end as int),
                }, end as nat)),
            }
        }
    }
}

/// The rest of a listing at `at`, with `to_read` bytes of it left by the count and
/// `pending` entries of the run led by `hdr` still to come. Each entry counts for 8
/// bytes plus its name, each header for 12; a count that would go below zero, or a
/// run of more than `u32::MAX` entries, is an overflow.
pub open spec fn spec_listing(s: Seq<u8>, at: nat, to_read: nat, pending: nat, hdr: DirHeader) -> Result<(Seq<SpecEntry>, nat), SquashError>
    decreases to_read,
{
    if pending > 0 {
        match spec_entry(s, at, hdr) {
            Ok((e, end)) => {
                let used = 8 + e.name.len();
                if used > to_read {
                    Err(SquashError::Overflow)
                } else {
                    prepend_items(seq![e], spec_listing(s, end, (to_read - used) as nat, (pending - 1) as nat, hdr))
                }
            },
            Err(err) => Err(err),
        }
    } else if to_read == 0 {
        Ok((Seq::empty(), at))
    } else {
        match spec_dir_header(s, at) {
            Ok((h, end)) => if to_read < 12 {
                Err(SquashError::Overflow)
            } else if h.count == u32::MAX {
                Err(SquashError::Overflow)
            } else {
                spec_listing(s, end, (to_read - 12) as nat, (h.count + 1) as nat, h)
            },
            Err(err) => Err(err),
        }
    }
}

/// A directory listing at `at` whose recorded size is `size`: the listing proper takes
/// `size - 3` bytes (a size below 3 is an overflow).
pub open spec fn spec_directory(s: Seq<u8>, at: nat, size: u32) -> Result<(Seq<SpecEntry>, nat), SquashError> {
    if size < 3 {
        Err(SquashError::Overflow)
    } else {
        spec_listing(s, at, (size - 3) as nat, 0, DirHeader { count: 0, start: 0, inode_number: 0 })
    }
}

/// An entry's inode number is its run's inode number plus its offset, modulo 2^32.
pub proof fn lemma_entry_inode_number(base: u32, offset: int)
    requires
        -0x8000 <= offset < 0x8000,
        entry_inode_number(base, offset) is Some,
    ensures
        entry_inode_number(base, offset)->0 as int == (base + offset) % 0x1_0000_0000,
{
    let sum = as_i32(base) + offset;
    let n = entry_inode_number(base, offset)->0;
    if base < 0x8000_0000 {
        if sum < 0 {
            assert(n == sum + 0x1_0000_0000);
            assert((base + offset) % 0x1_0000_0000 == sum + 0x1_0000_0000);
        } else {
            assert((base + offset) % 0x1_0000_0000 == sum);
        }
    } else {
        if sum < 0 {
            assert(n == sum + 0x1_0000_0000);
            assert((base + offset) % 0x1_0000_0000 == sum + 0x1_0000_0000);
        } else {
            assert((base + offset) == sum + 0x1_0000_0000);
            assert((base + offset) % 0x1_0000_0000 == sum);
        }
    }
}

proof fn lemma_entry_extend(s: Seq<u8>, t: Seq<u8>, at: nat, hdr: DirHeader)
    requires
        spec_entry(s, at, hdr) is Ok,
    ensures
        spec_entry(s + t, at, hdr) == spec_entry(s, at, hdr),
        at <= spec_entry(s, at, hdr)->Ok_0.1 <= s.len(),
{
    lemma_extend_bytes(s, t, at as int, 8);
    lemma_extend_bytes(s, t, (at + 8) as int, le16(s, (at + 6) as int) as int);
}

proof fn lemma_listing_extend(s: Seq<u8>, t: Seq<u8>, at: nat, to_read: nat, pending: nat, hdr: DirHeader)
    requires
        spec_listing(s, at, to_read, pending, hdr) is Ok,
        at <= s.len(),
    ensures
        spec_listing(s + t, at, to_read, pending, hdr) == spec_listing(s, at, to_read, pending, hdr),
        at <= spec_listing(s, at, to_read, pending, hdr)->Ok_0.1 <= s.len(),
    decreases to_read,
{
    if pending > 0 {
        lemma_entry_extend(s, t, at, hdr);
        let (e, end) = spec_entry(s, at, hdr)->Ok_0;
        let used = 8 + e.name.len();
        lemma_listing_extend(s, t, end, (to_read - used) as nat, (pending - 1) as nat, hdr);
    } else if to_read > 0 {
        lemma_extend_bytes(s, t, at as int, 12);
        let (h, end) = spec_dir_header(s, at)->Ok_0;
        lemma_listing_extend(s, t, end, (to_read - 12) as nat, (h.count + 1) as nat, h);
    }
}

/// Decoding a directory listing reads nothing past the bytes it consumes: bytes
/// appended after a listing that decodes change neither its entries nor where it ends,
/// and it ends within the bytes given.
pub proof fn lemma_directory_extend(s: Seq<u8>, t: Seq<u8>, at: nat, size: u32)
    requires
        spec_directory(s, at, size) is Ok,
        at <= s.len(),
    ensures
        spec_directory(s + t, at, size) == spec_directory(s, at, size),
        at <= spec_directory(s, at, size)->Ok_0.1 <= s.len(),
{
    lemma_listing_extend(s, t, at, (size - 3) as nat, 0, DirHeader { count: 0, start: 0, inode_number: 0 });
}

// ---------------------------------------------------------------------------------
// Writing listings, and reading back what was written.

/// What an entry is written with: the offset of its inode in its metadata block, the
/// signed difference of its inode number from its run's, its inode type and its name.
pub struct EntryFields {
    pub offset: u16,
    pub inode_offset: i16,
    pub inode_type: u16,
    pub name: Seq<u8>,
}

/// The 16 bits of `x` in two's complement.
pub open spec fn i16_bits(x: i16) -> u16 {
    (if x < 0 { x + 0x1_0000 } else { x as int }) as u16
}

/// The 12 bytes a run header is written as: count, start, inode number.
pub open spec fn encode_dir_header(h: DirHeader) -> Seq<u8> {
    u32_bytes(h.count) + u32_bytes(h.start) + u32_bytes(h.inode_number)
}

/// The bytes an entry is written as: offset, inode offset, inode type, name size, name.
pub open spec fn encode_entry(e: EntryFields) -> Seq<u8> {
    u16_bytes(e.offset) + u16_bytes(i16_bits(e.inode_offset)) + u16_bytes(e.inode_type) + u16_bytes(e.name.len() as u16)
        + e.name
}

/// Entries one after another.
pub open spec fn encode_entries(es: Seq<EntryFields>) -> Seq<u8>
    decreases es.len(),
{
    if es.len() == 0 {
        Seq::empty()
    } else {
        encode_entry(es[0]) + encode_entries(es.drop_first())
    }
}

/// Runs one after another, each a header followed by its entries.
pub open spec fn encode_runs(runs: Seq<(DirHeader, Seq<EntryFields>)>) -> Seq<u8>
    decreases runs.len(),
{
    if runs.len() == 0 {
        Seq::empty()
    } else {
        encode_dir_header(runs[0].0) + encode_entries(runs[0].1) + encode_runs(runs.drop_first())
    }
}

/// The entry that `e`, written in a run led by `h`, stands for: its inode number is the
/// run's plus its inode offset, and its inode lies in the block the run names.
pub open spec fn entry_of(h: DirHeader, e: EntryFields) -> SpecEntry {
    SpecEntry {
        inode_number: (h.inode_number + e.inode_offset) as u32,
        inode_type: e.inode_type,
        inode_start: h.start,
        inode_offset: e.offset,
        name: e.name,
    }
}

/// The entries a run led by `h` stands for, in order.
pub open spec fn entries_of(h: DirHeader, es: Seq<EntryFields>) -> Seq<SpecEntry> {
    es.map_values(|e: EntryFields| entry_of(h, e))
}

/// The entries of runs one after another.
pub open spec fn entries_of_runs(runs: Seq<(DirHeader, Seq<EntryFields>)>) -> Seq<SpecEntry>
    decreases runs.len(),
{
    if runs.len() == 0 {
        Seq::empty()
    } else {
        entries_of(runs[0].0, runs[0].1) + entries_of_runs(runs.drop_first())
    }
}

/// An entry that can be written in a run led by `h`: a name of at most `u16::MAX`
/// bytes, and an inode number that stays within `0..=i32::MAX` from a run inode number
/// in that range.
pub open spec fn entry_fits(h: DirHeader, e: EntryFields) -> bool {
    &&& e.name.len() <= 0xFFFF
    &&& h.inode_number <= 0x7FFF_FFFF
    &&& 0 <= h.inode_number + e.inode_offset <= 0x7FFF_FFFF
}

/// A run whose header counts one less than its entries (so fewer than `u32::MAX`
/// counted), all of which fit.
pub open spec fn run_fits(h: DirHeader, es: Seq<EntryFields>) -> bool {
    &&& h.count < 0xFFFF_FFFF
    &&& es.len() == h.count + 1
    &&& forall|i: int| 0 <= i < es.len() ==> entry_fits(h, #[trigger] es[i])
}

/// The bytes of the entries `es` that a listing's size counts.
pub open spec fn entries_size(es: Seq<EntryFields>) -> nat {
    encode_entries(es).len()
}

/// The bytes a listing's size counts for `runs`: all of their headers and entries.
pub open spec fn runs_size(runs: Seq<(DirHeader, Seq<EntryFields>)>) -> nat {
    encode_runs(runs).len()
}

/// A written run header reads back as itself, 12 bytes on.
pub proof fn lemma_dir_header_roundtrip(p: Seq<u8>, h: DirHeader, q: Seq<u8>)
    ensures
        spec_dir_header(p + encode_dir_header(h) + q, p.len()) == Ok::<(DirHeader, nat), SquashError>((h, p.len() + 12)),
{
    let s = p + encode_dir_header(h) + q;
    let a = p.len() as int;
    assert(s.subrange(a, a + 4) =~= u32_bytes(h.count));
    lemma_le32_of(s, a, h.count);
    assert(s.subrange(a + 4, a + 8) =~= u32_bytes(h.start));
    lemma_le32_of(s, a + 4, h.start);
    assert(s.subrange(a + 8, a + 12) =~= u32_bytes(h.inode_number));
    lemma_le32_of(s, a + 8, h.inode_number);
}

/// A written entry reads back as the entry it stands for in its run: its inode number is
/// the run's plus its signed inode offset whenever that sum stays within `0..=i32::MAX`,
/// its name is the raw bytes after the four fields, and it ends after them.
pub proof fn lemma_entry_roundtrip(p: Seq<u8>, h: DirHeader, e: EntryFields, q: Seq<u8>)
    requires
        entry_fits(h, e),
    ensures
        spec_entry(p + encode_entry(e) + q, p.len(), h)
            == Ok::<(SpecEntry, nat), SquashError>((entry_of(h, e), p.len() + 8 + e.name.len())),
{
    let s = p + encode_entry(e) + q;
    let a = p.len() as int;
    assert(s.subrange(a, a + 2) =~= u16_bytes(e.offset));
    lemma_le16_of(s, a, e.offset);
    assert(s.subrange(a + 2, a + 4) =~= u16_bytes(i16_bits(e.inode_offset)));
    lemma_le16_of(s, a + 2, i16_bits(e.inode_offset));
    assert(s.subrange(a + 4, a + 6) =~= u16_bytes(e.inode_type));
    lemma_le16_of(s, a + 4, e.inode_type);
    assert(s.subrange(a + 6, a + 8) =~= u16_bytes(e.name.len() as u16));
    lemma_le16_of(s, a + 6, e.name.len() as u16);
    assert(s.subrange(a + 8, a + 8 + e.name.len()) =~= e.name);
    assert(le_i16(s, a + 2) == e.inode_offset);
}

/// An entry whose bytes lie at `at` reads back as the entry it stands for.
proof fn lemma_entry_at(s: Seq<u8>, at: nat, h: DirHeader, e: EntryFields)
    requires
        entry_fits(h, e),
        at + encode_entry(e).len() <= s.len(),
        s.subrange(at as int, (at + encode_entry(e).len()) as int) == encode_entry(e),
    ensures
        spec_entry(s, at, h) == Ok::<(SpecEntry, nat), SquashError>((entry_of(h, e), at + encode_entry(e).len())),
{
    let enc = encode_entry(e);
    let p = s.subrange(0, at as int);
    let r = s.subrange((at + enc.len()) as int, s.len() as int);
    assert(s =~= p + enc + r);
    lemma_entry_roundtrip(p, h, e, r);
}

/// A run header whose bytes lie at `at` reads back as itself.
proof fn lemma_dir_header_at(s: Seq<u8>, at: nat, h: DirHeader)
    requires
        at + 12 <= s.len(),
        s.subrange(at as int, (at + 12) as int) == encode_dir_header(h),
    ensures
        spec_dir_header(s, at) == Ok::<(DirHeader, nat), SquashError>((h, at + 12)),
{
    let p = s.subrange(0, at as int);
    let r = s.subrange((at + 12) as int, s.len() as int);
    assert(s =~= p + encode_dir_header(h) + r);
    lemma_dir_header_roundtrip(p, h, r);
}

/// Written entries of a run read back, in order, as the entries they stand for; the
/// listing then goes on after them with their bytes taken off what is left to read.
proof fn lemma_entries_at(s: Seq<u8>, at: nat, h: DirHeader, es: Seq<EntryFields>, to_read: nat)
    requires
        forall|i: int| 0 <= i < es.len() ==> entry_fits(h, #[trigger] es[i]),
        at + entries_size(es) <= s.len(),
        s.subrange(at as int, (at + entries_size(es)) as int) == encode_entries(es),
        entries_size(es) <= to_read,
    ensures
        spec_listing(s, at, to_read, es.len(), h) == prepend_items(
            entries_of(h, es),
            spec_listing(s, at + entries_size(es), (to_read - entries_size(es)) as nat, 0, h),
        ),
    decreases es.len(),
{
    if es.len() == 0 {
        assert(entries_of(h, es) =~= Seq::<SpecEntry>::empty());
        lemma_prepend_items_empty(spec_listing(s, at, to_read, 0, h));
    } else {
        let e0 = encode_entry(es[0]);
        let rest = encode_entries(es.drop_first());
        assert(entry_fits(h, es[0]));
        assert forall|i: int| 0 <= i < es.drop_first().len() implies entry_fits(h, #[trigger] es.drop_first()[i]) by {
            assert(es.drop_first()[i] == es[i + 1]);
        }
        assert(encode_entries(es) == e0 + rest);
        lemma_split_at(s, at as int, e0, rest);
        lemma_entry_at(s, at, h, es[0]);
        assert(e0.len() == 8 + es[0].name.len());
        lemma_entries_at(s, at + e0.len(), h, es.drop_first(), (to_read - e0.len()) as nat);
        assert(entries_of(h, es) =~= seq![entry_of(h, es[0])] + entries_of(h, es.drop_first()));
        lemma_prepend_items_twice(
            seq![entry_of(h, es[0])],
            entries_of(h, es.drop_first()),
            spec_listing(s, at + entries_size(es), (to_read - entries_size(es)) as nat, 0, h),
        );
    }
}

/// Written runs read back as their entries, in order, when the bytes left to read are
/// exactly theirs; `hdr`, the header of a run already read to its end, plays no part.
proof fn lemma_runs_at(s: Seq<u8>, at: nat, runs: Seq<(DirHeader, Seq<EntryFields>)>, hdr: DirHeader)
    requires
        forall|i: int| 0 <= i < runs.len() ==> run_fits(#[trigger] runs[i].0, runs[i].1),
        at + runs_size(runs) <= s.len(),
        s.subrange(at as int, (at + runs_size(runs)) as int) == encode_runs(runs),
    ensures
        spec_listing(s, at, runs_size(runs), 0, hdr)
            == Ok::<(Seq<SpecEntry>, nat), SquashError>((entries_of_runs(runs), at + runs_size(runs))),
    decreases runs.len(),
{
    if runs.len() == 0 {
        assert(entries_of_runs(runs) =~= Seq::<SpecEntry>::empty());
    } else {
        let h = runs[0].0;
        let es = runs[0].1;
        let eh = encode_dir_header(h);
        let ee = encode_entries(es);
        let rest = encode_runs(runs.drop_first());
        assert(run_fits(h, es));
        assert forall|i: int| 0 <= i < runs.drop_first().len() implies run_fits(#[trigger] runs.drop_first()[i].0, runs.drop_first()[i].1) by {
            assert(runs.drop_first()[i] == runs[i + 1]);
        }
        assert(encode_runs(runs) == (eh + ee) + rest);
        lemma_split_at(s, at as int, eh + ee, rest);
        lemma_split_at(s, at as int, eh, ee);
        lemma_dir_header_at(s, at, h);
        let left = (runs_size(runs) - 12) as nat;
        lemma_entries_at(s, at + 12, h, es, left);
        lemma_runs_at(s, at + 12 + entries_size(es), runs.drop_first(), h);
        assert(runs_size(runs) == 12 + entries_size(es) + runs_size(runs.drop_first()));
        assert((h.count + 1) as nat == es.len());
        assert(spec_listing(s, at, runs_size(runs), 0, hdr) == spec_listing(s, at + 12, left, es.len(), h));
        lemma_prepend_items_twice(
            entries_of(h, es),
            Seq::<SpecEntry>::empty(),
            Ok::<(Seq<SpecEntry>, nat), SquashError>((entries_of_runs(runs.drop_first()), at + runs_size(runs))),
        );
        assert(entries_of(h, es) + entries_of_runs(runs.drop_first()) == entries_of_runs(runs));
    }
}

/// Decoding a listing inverts writing it: runs written one after another, each a
/// header counting one less than its entries and then the entries, with the listing's
/// size 3 more than their bytes, decode to their entries in order (each with its run's
/// inode number plus its offset, and its run's start), and end where their bytes end.
pub proof fn lemma_directory_roundtrip(p: Seq<u8>, runs: Seq<(DirHeader, Seq<EntryFields>)>, q: Seq<u8>)
    requires
        forall|i: int| 0 <= i < runs.len() ==> run_fits(#[trigger] runs[i].0, runs[i].1),
        3 + runs_size(runs) <= u32::MAX,
    ensures
        spec_directory(p + encode_runs(runs) + q, p.len(), (3 + runs_size(runs)) as u32)
            == Ok::<(Seq<SpecEntry>, nat), SquashError>((entries_of_runs(runs), p.len() + runs_size(runs))),
{
    let s = p + encode_runs(runs) + q;
    assert(s.subrange(p.len() as int, (p.len() + runs_size(runs)) as int) =~= encode_runs(runs));
    lemma_runs_at(s, p.len(), runs, DirHeader { count: 0, start: 0, inode_number: 0 });
}

impl DirHeader {
    /// Decodes a run header at offset `at` of `data`.
    pub fn decode(data: &[u8], at: usize) -> (r: Result<(DirHeader, usize), SquashError>)
        ensures
            match spec_dir_header(data@, at as nat) {
                Ok((v, end)) => r matches Ok((x, e)) && x == v && e == end,
                Err(err) => r matches Err(e2) && e2 == err,
            },
    {
        if !has_bytes(data, at, 12) {
            return Err(SquashError::UnexpectedEof);
        }
        Ok((DirHeader {
            count: read_u32(data, at),
            start: read_u32(data, at + 4),
            inode_number: read_u32(data, at + 8),
        }, at + 12))
    }
}

impl Entry {
    /// Decodes an entry at offset `at` of `data`, of a run led by `header`.
    pub fn decode(data: &[u8], at: usize, header: &DirHeader) -> (r: Result<(Entry, usize), SquashError>)
        ensures
            match spec_entry(data@, at as nat, *header) {
                Ok((v, end)) => r matches Ok((x, e)) && x@ == v && e == end,
                Err(err) => r matches Err(e2) && e2 == err,
            },
    {
        if !has_bytes(data, at, 8) {
            return Err(SquashError::UnexpectedEof);
        }
        let inode_offset = read_u16(data, at);
        let offset_raw = read_u16(data, at + 2);
        let inode_type = read_u16(data, at + 4);
        let name_size = read_u16(data, at + 6);
        if !has_bytes(data, at + 8, name_size as usize) {
            return Err(SquashError::UnexpectedEof);
        }
        let end = at + 8 + name_size as usize;
        let base: i64 = if header.inode_number < 0x8000_0000 {
            header.inode_number as i64
        } else {
            header.inode_number as i64 - 0x1_0000_0000
        };
        let offset: i64 = if offset_raw < 0x8000 {
            offset_raw as i64
        } else {
            offset_raw as i64 - 0x1_0000
        };
        let sum = base + offset;
        if sum < -0x8000_0000 || sum > 0x7FFF_FFFF {
            return Err(SquashError::Overflow);
        }
        let inode_number: u32 = if sum < 0 {
            (sum + 0x1_0000_0000) as u32
        } else {
            sum as u32
        };
        let name = vstd::slice::slice_to_vec(&data[at + 8..end]);
        Ok((Entry { inode_number, inode_type, inode_start: header.start, inode_offset, name }, end))
    }
}

/// Decodes the directory listing at offset `at` of `data` whose recorded size is
/// `size`, giving its entries in order and the offset just past it.
pub fn decode_directory(data: &[u8], at: usize, size: u32) -> (r: Result<(Vec<Entry>, usize), SquashError>)
    ensures
        match spec_directory(data@, at as nat, size) {
            Ok((v, end)) => r matches Ok((x, e)) && entry_views(x@) == v && e == end,
            Err(err) => r matches Err(e2) && e2 == err,
        },
{
    if size < 3 {
        return Err(SquashError::Overflow);
    }
    let mut to_read: u32 = size - 3;
    let mut pending: u32 = 0;
    let mut hdr = DirHeader { count: 0, start: 0, inode_number: 0 };
    let mut pos = at;
    let mut entries: Vec<Entry> = Vec::new();
    proof {
        lemma_prepend_items_empty(spec_directory(data@, at as nat, size));
        assert(entry_views(entries@) =~= Seq::<SpecEntry>::empty());
    }
    while pending > 0 || to_read > 0
        invariant
            size >= 3,
            spec_directory(data@, at as nat, size) == prepend_items(
                entry_views(entries@),
                spec_listing(data@, pos as nat, to_read as nat, pending as nat, hdr),
            ),
        decreases to_read,
    {
        let ghost before = entry_views(entries@);
        if pending > 0 {
            match Entry::decode(data, pos, &hdr) {
                Ok((e, end)) => {
                    let used: u32 = 8 + e.name.len() as u32;
                    if used > to_read {
                        return Err(SquashError::Overflow);
                    }
                    proof {
                        lemma_prepend_items_twice(
                            before,
                            seq![e@],
                            spec_listing(data@, end as nat, (to_read - used) as nat, (pending - 1) as nat, hdr),
                        );
                    }
                    entries.push(e);
                    assert(entry_views(entries@) =~= before + seq![entries@.last()@]);
                    to_read = to_read - used;
                    pending = pending - 1;
                    pos = end;
                },
                Err(err) => {
                    return Err(err);
                },
            }
        } else {
            match DirHeader::decode(data, pos) {
                Ok((h, end)) => {
                    if to_read < 12 {
                        return Err(SquashError::Overflow);
                    }
                    if h.count == u32::MAX {
                        return Err(SquashError::Overflow);
                    }
                    to_read = to_read - 12;
                    pending = h.count + 1;
                    hdr = h;
                    pos = end;
                },
                Err(err) => {
                    return Err(err);
                },
            }
        }
    }
    proof {
        assert(entry_views(entries@) + Seq::<SpecEntry>::empty() =~= entry_views(entries@));
    }
    Ok((entries, pos))
}

} // verus!
