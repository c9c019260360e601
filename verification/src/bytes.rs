//! Little-endian integers at given offsets of a byte sequence.
use vstd::prelude::*;

verus! {

/// The little-endian `u16` at offset `i` of `s`.
pub open spec fn le16(s: Seq<u8>, i: int) -> u16 {
    (s[i] + 256 * s[i + 1]) as u16
}

/// The little-endian `u32` at offset `i` of `s`.
pub open spec fn le32(s: Seq<u8>, i: int) -> u32 {
    (le16(s, i) + 65536 * le16(s, i + 2)) as u32
}

/// The little-endian `u64` at offset `i` of `s`.
pub open spec fn le64(s: Seq<u8>, i: int) -> u64 {
    (le32(s, i) + 0x1_0000_0000 * le32(s, i + 4)) as u64
}

/// The two's-complement `i16` at offset `i` of `s`, as an integer.
pub open spec fn le_i16(s: Seq<u8>, i: int) -> int {
    if le16(s, i) < 0x8000 {
        le16(s, i) as int
    } else {
        le16(s, i) - 0x1_0000
    }
}

pub fn read_u16(d: &[u8], i: usize) -> (r: u16)
    requires
        i + 2 <= d.len(),
    ensures
        r == le16(d@, i as int),
{
    (d[i] as u16) + (d[i + 1] as u16) * 256
}

pub fn read_u32(d: &[u8], i: usize) -> (r: u32)
    requires
        i + 4 <= d.len(),
    ensures
        r == le32(d@, i as int),
{
    let lo = read_u16(d, i);
    let hi = read_u16(d, i + 2);
    (lo as u32) + (hi as u32) * 65536
}

pub fn read_u64(d: &[u8], i: usize) -> (r: u64)
    requires
        i + 8 <= d.len(),
    ensures
        r == le64(d@, i as int),
{
    let lo = read_u32(d, i);
    let hi = read_u32(d, i + 4);
    (lo as u64) + (hi as u64) * 0x1_0000_0000
}

/// Byte `k` (from the lowest) of the little-endian encoding of `x`.
pub open spec fn byte_of(x: nat, k: int) -> u8 {
    if k == 0 {
        (x % 256) as u8
    } else if k == 1 {
        ((x / 256) % 256) as u8
    } else if k == 2 {
        ((x / 0x1_0000) % 256) as u8
    } else {
        ((x / 0x100_0000) % 256) as u8
    }
}

/// The two little-endian bytes of `x`.
pub open spec fn u16_bytes(x: u16) -> Seq<u8> {
    Seq::new(2, |k: int| byte_of(x as nat, k))
}

/// The four little-endian bytes of `x`.
pub open spec fn u32_bytes(x: u32) -> Seq<u8> {
    Seq::new(4, |k: int| byte_of(x as nat, k))
}

/// The eight little-endian bytes of `x`: its low half, then its high half.
pub open spec fn u64_bytes(x: u64) -> Seq<u8> {
    u32_bytes((x % 0x1_0000_0000) as u32) + u32_bytes((x / 0x1_0000_0000) as u32)
}

/// Reading a `u16` where its little-endian bytes lie gives it back.
pub proof fn lemma_le16_of(s: Seq<u8>, at: int, x: u16)
    requires
        0 <= at,
        at + 2 <= s.len(),
        s.subrange(at, at + 2) == u16_bytes(x),
    ensures
        le16(s, at) == x,
{
    assert(s[at] == s.subrange(at, at + 2)[0]);
    assert(s[at + 1] == s.subrange(at, at + 2)[1]);
    let b0 = s[at];
    let b1 = s[at + 1];
    assert(b0 == (x % 256) as u8 && b1 == ((x / 256) % 256) as u8 ==> (b0 + 256 * b1) as u16 == x) by (bit_vector);
}

/// Reading a `u32` where its little-endian bytes lie gives it back.
pub proof fn lemma_le32_of(s: Seq<u8>, at: int, x: u32)
    requires
        0 <= at,
        at + 4 <= s.len(),
        s.subrange(at, at + 4) == u32_bytes(x),
    ensures
        le32(s, at) == x,
{
    let w = s.subrange(at, at + 4);
    assert(s[at] == w[0] && s[at + 1] == w[1] && s[at + 2] == w[2] && s[at + 3] == w[3]);
    let b0 = s[at];
    let b1 = s[at + 1];
    let b2 = s[at + 2];
    let b3 = s[at + 3];
    assert(b0 == (x % 256) as u8 && b1 == ((x / 256) % 256) as u8 && b2 == ((x / 0x1_0000) % 256) as u8
        && b3 == ((x / 0x100_0000) % 256) as u8 ==> ((b0 + 256 * b1) as u16 + 65536 * ((b2 + 256 * b3) as u16)) as u32 == x)
        by (bit_vector);
}

/// Reading a `u64` where its little-endian bytes lie gives it back.
pub proof fn lemma_le64_of(s: Seq<u8>, at: int, x: u64)
    requires
        0 <= at,
        at + 8 <= s.len(),
        s.subrange(at, at + 8) == u64_bytes(x),
    ensures
        le64(s, at) == x,
{
    let lo = (x % 0x1_0000_0000) as u32;
    let hi = (x / 0x1_0000_0000) as u32;
    assert(s.subrange(at, at + 4) =~= s.subrange(at, at + 8).subrange(0, 4));
    assert(s.subrange(at + 4, at + 8) =~= s.subrange(at, at + 8).subrange(4, 8));
    assert(u64_bytes(x).subrange(0, 4) =~= u32_bytes(lo));
    assert(u64_bytes(x).subrange(4, 8) =~= u32_bytes(hi));
    lemma_le32_of(s, at, lo);
    lemma_le32_of(s, at + 4, hi);
    assert((lo + 0x1_0000_0000 * hi) as u64 == x) by (bit_vector)
        requires lo == (x % 0x1_0000_0000) as u32 && hi == (x / 0x1_0000_0000) as u32;
}

/// The little-endian bytes of the words `ws`, one word after another.
pub open spec fn words_bytes(ws: Seq<u32>) -> Seq<u8> {
    Seq::new(4 * ws.len(), |j: int| byte_of(ws[j / 4] as nat, j % 4))
}

/// Where the bytes of the words `ws` lie, word `i` is read back at `4 * i` past them.
pub proof fn lemma_words_of(s: Seq<u8>, at: int, ws: Seq<u32>)
    requires
        0 <= at,
        at + 4 * ws.len() <= s.len(),
        s.subrange(at, at + 4 * ws.len()) == words_bytes(ws),
    ensures
        forall|i: int| 0 <= i < ws.len() ==> le32(s, at + 4 * i) == #[trigger] ws[i],
{
    assert forall|i: int| 0 <= i < ws.len() implies le32(s, at + 4 * i) == #[trigger] ws[i] by {
        assert forall|k: int| 0 <= k < 4 implies #[trigger] s.subrange(at + 4 * i, at + 4 * i + 4)[k] == u32_bytes(ws[i])[k] by {
            assert(s[at + (4 * i + k)] == s.subrange(at, at + 4 * ws.len())[4 * i + k]);
            assert((4 * i + k) / 4 == i && (4 * i + k) % 4 == k) by (nonlinear_arith)
                requires 0 <= k < 4;
        }
        assert(s.subrange(at + 4 * i, at + 4 * i + 4) =~= u32_bytes(ws[i]));
        lemma_le32_of(s, at + 4 * i, ws[i]);
    }
}

/// Where the bytes of `x + y` lie at `at`, those of `x` lie at `at` and those of `y` right after.
pub proof fn lemma_split_at(s: Seq<u8>, at: int, x: Seq<u8>, y: Seq<u8>)
    requires
        0 <= at,
        at + x.len() + y.len() <= s.len(),
        s.subrange(at, at + x.len() + y.len()) == x + y,
    ensures
        s.subrange(at, at + x.len()) == x,
        s.subrange(at + x.len(), at + x.len() + y.len()) == y,
{
    let w = s.subrange(at, at + x.len() + y.len());
    assert forall|k: int| 0 <= k < x.len() implies #[trigger] s.subrange(at, at + x.len())[k] == x[k] by {
        assert(w[k] == (x + y)[k]);
    }
    assert forall|k: int| 0 <= k < y.len() implies #[trigger] s.subrange(at + x.len(), at + x.len() + y.len())[k] == y[k] by {
        assert(w[x.len() + k] == (x + y)[x.len() + k]);
    }
    assert(s.subrange(at, at + x.len()) =~= x);
    assert(s.subrange(at + x.len(), at + x.len() + y.len()) =~= y);
}

/// Appending bytes to `s` leaves its bytes, and any range of them, as they were.
pub proof fn lemma_extend_bytes(s: Seq<u8>, t: Seq<u8>, i: int, k: int)
    requires
        0 <= i,
        0 <= k,
        i + k <= s.len(),
    ensures
        (s + t).subrange(i, i + k) == s.subrange(i, i + k),
        forall|j: int| i <= j < i + k ==> #[trigger] (s + t)[j] == s[j],
{
    assert((s + t).subrange(i, i + k) =~= s.subrange(i, i + k));
}

/// Whether `n` bytes starting at offset `at` lie within `d`.
pub fn has_bytes(d: &[u8], at: usize, n: usize) -> (r: bool)
    ensures
        r == (at + n <= d@.len()),
        r ==> at + n <= usize::MAX,
{
    d.len() >= n && at <= d.len() - n
}

/// The outcome `r` of decoding the rest of a sequence, with `x` put in front of its items.
pub open spec fn prepend_items<T>(x: Seq<T>, r: Result<(Seq<T>, nat), crate::error::SquashError>) -> Result<(Seq<T>, nat), crate::error::SquashError> {
    match r {
        Ok((ys, end)) => Ok((x + ys, end)),
        Err(e) => Err(e),
    }
}

/// Putting `x` and then `y` in front is putting `x + y` in front.
pub proof fn lemma_prepend_items_twice<T>(x: Seq<T>, y: Seq<T>, r: Result<(Seq<T>, nat), crate::error::SquashError>)
    ensures
        prepend_items(x, prepend_items(y, r)) == prepend_items(x + y, r),
{
    match r {
        Ok((zs, end)) => assert(x + (y + zs) =~= (x + y) + zs),
        Err(_) => {},
    }
}

/// Putting nothing in front changes nothing.
pub proof fn lemma_prepend_items_empty<T>(r: Result<(Seq<T>, nat), crate::error::SquashError>)
    ensures
        prepend_items(Seq::<T>::empty(), r) == r,
{
    match r {
        Ok((zs, end)) => assert(Seq::<T>::empty() + zs =~= zs),
        Err(_) => {},
    }
}

} // verus!
