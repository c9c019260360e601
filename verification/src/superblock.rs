//! The superblock: the fixed 96-byte header at the start of an archive.
use vstd::prelude::*;

use crate::bytes::{
    le16, le32, le64, lemma_extend_bytes, lemma_le16_of, lemma_le32_of, lemma_le64_of, read_u16, read_u32, read_u64, u16_bytes,
    u32_bytes, u64_bytes,
};
use crate::error::SquashError;

verus! {

/// The number of bytes the superblock occupies.
pub const SUPERBLOCK_SIZE: usize = 96;

/// The magic number a squashfs archive starts with ("hsqs").
pub const SQUASHFS_MAGIC: u32 = 0x73717368;

/// The superblock of an archive, field by field in on-disk order.
#[derive(Debug, Clone, Copy, PartialEq, Eq, Structural)]
pub struct Superblock {
    pub magic: u32,
    pub inode_count: u32,
    pub mod_time: u32,
    pub block_size: u32,
    pub frag_count: u32,
    pub compressor: u16,
    pub block_log: u16,
    pub flags: u16,
    pub id_count: u16,
    pub ver_maj: u16,
    pub ver_min: u16,
    pub root_inode: u64,
    pub bytes_used: u64,
    pub id_table_start: u64,
    pub xattr_table_start: u64,
    pub inode_table_start: u64,
    pub dir_table_start: u64,
    pub frag_table_start: u64,
    pub export_table_start: u64,
}

/// The superblock that the first 96 bytes of `s` encode (little-endian fields, no padding).
pub open spec fn spec_superblock(s: Seq<u8>) -> Superblock {
    Superblock {
        magic: le32(s, 0),
        inode_count: le32(s, 4),
        mod_time: le32(s, 8),
        block_size: le32(s, 12),
        frag_count: le32(s, 16),
        compressor: le16(s, 20),
        block_log: le16(s, 22),
        flags: le16(s, 24),
        id_count: le16(s, 26),
        ver_maj: le16(s, 28),
        ver_min: le16(s, 30),
        root_inode: le64(s, 32),
        bytes_used: le64(s, 40),
        id_table_start: le64(s, 48),
        xattr_table_start: le64(s, 56),
        inode_table_start: le64(s, 64),
        dir_table_start: le64(s, 72),
        frag_table_start: le64(s, 80),
        export_table_start: le64(s, 88),
    }
}

/// The exponent of the largest power of two not above `x` (0 for 0 and 1).
pub open spec fn floor_log2(x: nat) -> nat
    decreases x,
{
    if x <= 1 {
        0
    } else {
        1 + floor_log2(x / 2)
    }
}

/// The value of `x` rounded to single precision: exact below `2^24`, otherwise rounded
/// to 24 significant bits, to nearest with ties to even.
pub open spec fn f32_of(x: nat) -> nat {
    if x < 0x100_0000 {
        x
    } else {
        let e = (floor_log2(x) - 23) as nat;
        let p = pow2(e);
        let q = x / p;
        let r = x % p;
        let up = 2 * r > p || (2 * r == p && q % 2 == 1);
        (if up { q + 1 } else { q }) * p
    }
}

/// Two to the power `k`.
pub open spec fn pow2(k: nat) -> nat
    decreases k,
{
    if k == 0 {
        1
    } else {
        2 * pow2((k - 1) as nat)
    }
}

impl Superblock {
    /// Decodes the superblock at the start of `data`.
    pub fn parse(data: &[u8]) -> (r: Result<Superblock, SquashError>)
        ensures
            match r {
                Ok(sb) => data@.len() >= SUPERBLOCK_SIZE && sb == spec_superblock(data@),
                Err(e) => data@.len() < SUPERBLOCK_SIZE && e == SquashError::UnexpectedEof,
            },
    {
        if data.len() < SUPERBLOCK_SIZE {
            return Err(SquashError::UnexpectedEof);
        }
        Ok(Superblock {
            magic: read_u32(data, 0),
            inode_count: read_u32(data, 4),
            mod_time: read_u32(data, 8),
            block_size: read_u32(data, 12),
            frag_count: read_u32(data, 16),
            compressor: read_u16(data, 20),
            block_log: read_u16(data, 22),
            flags: read_u16(data, 24),
            id_count: read_u16(data, 26),
            ver_maj: read_u16(data, 28),
            ver_min: read_u16(data, 30),
            root_inode: read_u64(data, 32),
            bytes_used: read_u64(data, 40),
            id_table_start: read_u64(data, 48),
            xattr_table_start: read_u64(data, 56),
            inode_table_start: read_u64(data, 64),
            dir_table_start: read_u64(data, 72),
            frag_table_start: read_u64(data, 80),
            export_table_start: read_u64(data, 88),
        })
    }

    /// Whether the superblock carries the squashfs magic number.
    pub fn valid_magic(&self) -> (r: bool)
        ensures
            r == (self.magic == SQUASHFS_MAGIC),
    {
        self.magic == SQUASHFS_MAGIC
    }

    /// Whether `block_log` is `floor(log2(block_size as f32))`: the block size is first
    /// rounded to single precision (`f32_of`), then the base-two logarithm of that value
    /// is rounded down (0 standing for a block size of 0). On the block sizes squashfs
    /// uses, powers of two, this is the exponent itself.
    ///
    /// The logarithm is taken exactly here. Rust leaves the precision of `f32::log2`
    /// unspecified, and a platform's `log2` may round the logarithm of a size a few units
    /// below a power of two from `2^21` up (such as `2^24 - 1`, which a correctly rounded
    /// `log2` gives as 24) up to the next integer, where this check keeps the exact floor.
    pub fn valid_block_log(&self) -> (r: bool)
        ensures
            r == (self.block_log == floor_log2(f32_of(self.block_size as nat))),
    {
        let x = self.block_size;
        let k = floor_log2_u64(x as u64);
        let v: u64 = if x < 0x100_0000 {
            x as u64
        } else {
            proof {
                lemma_floor_log2_bounds(x as nat);
                if k < 24 {
                    lemma_pow2_le((k + 1) as nat, 24);
                    reveal_with_fuel(pow2, 25);
                }
                if k >= 32 {
                    lemma_pow2_32_bound(k as nat);
                }
            }
            let e = k - 23;
            let mut p: u32 = 1;
            let mut i: u64 = 0;
            assert(pow2(0) == 1);
            while i < e
                invariant
                    i <= e,
                    e <= 9,
                    p == pow2(i as nat),
                    p <= 512,
                    pow2(e as nat) <= 512,
                decreases e - i,
            {
                proof {
                    lemma_pow2_le((i + 1) as nat, e as nat);
                }
                p = p * 2;
                i = i + 1;
            }
            proof {
                lemma_pow2_positive(e as nat);
            }
            let q = x / p;
            let rem = x % p;
            let up = 2 * rem > p || (2 * rem == p && q % 2 == 1);
            let q2: u64 = if up {
                q as u64 + 1
            } else {
                q as u64
            };
            assert(q2 * (p as u64) <= 0x1_0000_0000 * 512) by (nonlinear_arith)
                requires
                    q2 <= 0x1_0000_0000,
                    p <= 512,
            ;
            q2 * (p as u64)
        };
        let k2 = floor_log2_u64(v);
        self.block_log as u64 == k2
    }

    /// Whether the superblock names squashfs version 4.0.
    pub fn valid_version(&self) -> (r: bool)
        ensures
            r == (self.ver_maj == 4 && self.ver_min == 0),
    {
        self.ver_maj == 4 && self.ver_min == 0
    }
}

/// `floor_log2` of `x`, computed by halving.
fn floor_log2_u64(x: u64) -> (k: u64)
    ensures
        k == floor_log2(x as nat),
{
    let mut n: u64 = x;
    let mut k: u64 = 0;
    assert(pow2(0) == 1);
    while n > 1
        invariant
            k + floor_log2(n as nat) == floor_log2(x as nat),
            n as nat * pow2(k as nat) <= x,
        decreases n,
    {
        proof {
            lemma_pow2_positive(k as nat);
            lemma_pow2_above(k as nat);
            assert((n / 2) as nat * pow2((k + 1) as nat) <= n as nat * pow2(k as nat))
                by (nonlinear_arith)
                requires
                    pow2((k + 1) as nat) == 2 * pow2(k as nat),
                    pow2(k as nat) >= 1,
            ;
            assert(n as nat * pow2(k as nat) >= 2 * pow2(k as nat)) by (nonlinear_arith)
                requires
                    n >= 2,
            ;
        }
        n = n / 2;
        k = k + 1;
    }
    k
}

proof fn lemma_pow2_above(k: nat)
    ensures
        pow2(k) > k,
    decreases k,
{
    if k > 0 {
        lemma_pow2_above((k - 1) as nat);
    }
}

proof fn lemma_pow2_le(a: nat, b: nat)
    requires
        a <= b,
    ensures
        pow2(a) <= pow2(b),
    decreases b,
{
    if a < b {
        lemma_pow2_le(a, (b - 1) as nat);
        lemma_pow2_positive((b - 1) as nat);
    }
}

proof fn lemma_pow2_positive(k: nat)
    ensures
        pow2(k) >= 1,
    decreases k,
{
    if k > 0 {
        lemma_pow2_positive((k - 1) as nat);
    }
}

proof fn lemma_pow2_32_bound(k: nat)
    requires
        k >= 32,
    ensures
        pow2(k) >= 0x1_0000_0000,
    decreases k,
{
    if k > 32 {
        lemma_pow2_32_bound((k - 1) as nat);
    } else {
        reveal_with_fuel(pow2, 33);
    }
}

proof fn lemma_pow2_add(a: nat, b: nat)
    ensures
        pow2(a + b) == pow2(a) * pow2(b),
    decreases b,
{
    if b > 0 {
        lemma_pow2_add(a, (b - 1) as nat);
        assert(pow2(a + b) == 2 * pow2((a + b - 1) as nat));
        assert(pow2(a) * pow2(b) == pow2(a) * (2 * pow2((b - 1) as nat)));
        assert(pow2(a) * (2 * pow2((b - 1) as nat)) == 2 * (pow2(a) * pow2((b - 1) as nat))) by (nonlinear_arith);
        assert((a + b - 1) as nat == a + (b - 1) as nat);
    } else {
        assert(pow2(0) == 1);
        assert(a + b == a);
        assert(pow2(a) * 1 == pow2(a));
    }
}

/// A block size that is a power of two has its exponent as block log: the superblock
/// of an archive with block size 2^k and block log k passes the block-log check (powers
/// of two are exact in single precision).
pub proof fn lemma_block_log_of_pow2(k: nat)
    ensures
        floor_log2(f32_of(pow2(k))) == k,
{
    lemma_floor_log2_of_pow2(k);
    if pow2(k) >= 0x100_0000 {
        let e = (k - 23) as nat;
        if k < 24 {
            lemma_pow2_le(k, 23);
            reveal_with_fuel(pow2, 24);
        }
        lemma_pow2_add(23, e);
        assert(23 + e == k);
        lemma_pow2_positive(e);
        let p = pow2(e);
        let q = pow2(23);
        vstd::arithmetic::div_mod::lemma_div_multiples_vanish(q as int, p as int);
        vstd::arithmetic::div_mod::lemma_mod_multiples_basic(q as int, p as int);
        assert(q * p == p * q) by (nonlinear_arith);
        assert(pow2(k) / p == q);
        assert(pow2(k) % p == 0);
    }
}

/// The exponent of a power of two is its floor logarithm.
pub proof fn lemma_floor_log2_of_pow2(k: nat)
    ensures
        floor_log2(pow2(k)) == k,
    decreases k,
{
    if k > 0 {
        lemma_floor_log2_of_pow2((k - 1) as nat);
        lemma_pow2_positive((k - 1) as nat);
        assert(pow2(k) / 2 == pow2((k - 1) as nat));
    }
}

/// The floor logarithm `k` of any `x` of at least one is the exponent with
/// `2^k <= x < 2^(k+1)`.
pub proof fn lemma_floor_log2_bounds(x: nat)
    requires
        x >= 1,
    ensures
        pow2(floor_log2(x)) <= x < pow2(floor_log2(x) + 1),
    decreases x,
{
    if x > 1 {
        lemma_floor_log2_bounds(x / 2);
        let k = floor_log2(x / 2);
        assert(pow2(k + 1) == 2 * pow2(k));
        assert(pow2(k + 2) == 2 * pow2(k + 1));
        assert(floor_log2(x) == k + 1);
    } else {
        assert(pow2(1) == 2 * pow2(0));
    }
}

/// The superblock is read from the first 96 bytes alone: what follows them does not
/// change it.
pub proof fn lemma_superblock_extend(s: Seq<u8>, t: Seq<u8>)
    requires
        s.len() >= SUPERBLOCK_SIZE,
    ensures
        spec_superblock(s + t) == spec_superblock(s),
{
    lemma_extend_bytes(s, t, 0, 96);
}

/// The 96 bytes a superblock is written as: each field little-endian, in on-disk order,
/// with nothing between them.
pub open spec fn encode_superblock(sb: Superblock) -> Seq<u8> {
    u32_bytes(sb.magic) + u32_bytes(sb.inode_count) + u32_bytes(sb.mod_time) + u32_bytes(sb.block_size)
        + u32_bytes(sb.frag_count) + u16_bytes(sb.compressor) + u16_bytes(sb.block_log) + u16_bytes(sb.flags)
        + u16_bytes(sb.id_count) + u16_bytes(sb.ver_maj) + u16_bytes(sb.ver_min) + u64_bytes(sb.root_inode)
        + u64_bytes(sb.bytes_used) + u64_bytes(sb.id_table_start) + u64_bytes(sb.xattr_table_start)
        + u64_bytes(sb.inode_table_start) + u64_bytes(sb.dir_table_start) + u64_bytes(sb.frag_table_start)
        + u64_bytes(sb.export_table_start)
}

/// Parsing inverts writing: a superblock written field by field, followed by anything,
/// parses back to itself, so each field is read from its own bytes and no other's.
pub proof fn lemma_superblock_roundtrip(sb: Superblock, t: Seq<u8>)
    ensures
        encode_superblock(sb).len() == SUPERBLOCK_SIZE,
        spec_superblock(encode_superblock(sb) + t) == sb,
{
    let e = encode_superblock(sb);
    let s = e + t;
    assert(e.len() == 96);
    assert(s.subrange(0, 4) =~= u32_bytes(sb.magic));
    lemma_le32_of(s, 0, sb.magic);
    assert(s.subrange(4, 8) =~= u32_bytes(sb.inode_count));
    lemma_le32_of(s, 4, sb.inode_count);
    assert(s.subrange(8, 12) =~= u32_bytes(sb.mod_time));
    lemma_le32_of(s, 8, sb.mod_time);
    assert(s.subrange(12, 16) =~= u32_bytes(sb.block_size));
    lemma_le32_of(s, 12, sb.block_size);
    assert(s.subrange(16, 20) =~= u32_bytes(sb.frag_count));
    lemma_le32_of(s, 16, sb.frag_count);
    assert(s.subrange(20, 22) =~= u16_bytes(sb.compressor));
    lemma_le16_of(s, 20, sb.compressor);
    assert(s.subrange(22, 24) =~= u16_bytes(sb.block_log));
    lemma_le16_of(s, 22, sb.block_log);
    assert(s.subrange(24, 26) =~= u16_bytes(sb.flags));
    lemma_le16_of(s, 24, sb.flags);
    assert(s.subrange(26, 28) =~= u16_bytes(sb.id_count));
    lemma_le16_of(s, 26, sb.id_count);
    assert(s.subrange(28, 30) =~= u16_bytes(sb.ver_maj));
    lemma_le16_of(s, 28, sb.ver_maj);
    assert(s.subrange(30, 32) =~= u16_bytes(sb.ver_min));
    lemma_le16_of(s, 30, sb.ver_min);
    assert(s.subrange(32, 40) =~= u64_bytes(sb.root_inode));
    lemma_le64_of(s, 32, sb.root_inode);
    assert(s.subrange(40, 48) =~= u64_bytes(sb.bytes_used));
    lemma_le64_of(s, 40, sb.bytes_used);
    assert(s.subrange(48, 56) =~= u64_bytes(sb.id_table_start));
    lemma_le64_of(s, 48, sb.id_table_start);
    assert(s.subrange(56, 64) =~= u64_bytes(sb.xattr_table_start));
    lemma_le64_of(s, 56, sb.xattr_table_start);
    assert(s.subrange(64, 72) =~= u64_bytes(sb.inode_table_start));
    lemma_le64_of(s, 64, sb.inode_table_start);
    assert(s.subrange(72, 80) =~= u64_bytes(sb.dir_table_start));
    lemma_le64_of(s, 72, sb.dir_table_start);
    assert(s.subrange(80, 88) =~= u64_bytes(sb.frag_table_start));
    lemma_le64_of(s, 80, sb.frag_table_start);
    assert(s.subrange(88, 96) =~= u64_bytes(sb.export_table_start));
    lemma_le64_of(s, 88, sb.export_table_start);
}

} // verus!
