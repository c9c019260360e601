//! Metadata blocks: a `u16` header (bit 15 set: stored uncompressed; the low 15 bits:
//! the stored length) followed by the stored bytes; and a reader that streams the
//! decoded contents of consecutive blocks.
use vstd::prelude::*;

use crate::bytes::{le16, lemma_extend_bytes, lemma_le16_of, lemma_split_at, read_u16, u16_bytes};
use crate::decompress::{spec_decode_block, Compressor};
use crate::error::SquashError;

verus! {

/// The decoded contents of the metadata block whose header is at offset `at` of
/// `data`, and the offset just past its stored bytes.
pub open spec fn spec_block(data: Seq<u8>, decomp: Compressor, at: nat) -> Result<(Seq<u8>, nat), SquashError> {
    if at + 2 > data.len() {
        Err(SquashError::UnexpectedEof)
    } else {
        let size = le16(data, at as int);
        let stored = size & 0x7fff;
        let end = at + 2 + stored;
        if end > data.len() {
            Err(SquashError::UnexpectedEof)
        } else {
            let raw = data.subrange(at + 2 as int, end as int);
            if stored == size {
                match spec_decode_block(decomp, raw) {
                    Some(b) => Ok((b, end as nat)),
                    None => Err(SquashError::DecompressFailed),
                }
            } else {
                Ok((raw, end as nat))
            }
        }
    }
}

/// Loading a block reads nothing past its stored bytes.
pub proof fn lemma_block_extend(data: Seq<u8>, t: Seq<u8>, decomp: Compressor, at: nat)
    requires
        spec_block(data, decomp, at) is Ok,
    ensures
        spec_block(data + t, decomp, at) == spec_block(data, decomp, at),
        at + 2 <= spec_block(data, decomp, at)->Ok_0.1 <= data.len(),
{
    lemma_extend_bytes(data, t, at as int, 2);
    lemma_extend_bytes(data, t, (at + 2) as int, (le16(data, at as int) & 0x7fff) as int);
}

/// The state of a metadata reader: the archive bytes, the compressor, the offset of the
/// next block's header, the position in the current block, and the current block.
pub struct MetaState {
    pub data: Seq<u8>,
    pub decomp: Compressor,
    pub next: nat,
    pub cur_pos: nat,
    pub buf: Seq<u8>,
}

/// A reader positioned on the block whose header is at `start`, at its first byte.
pub open spec fn spec_open(data: Seq<u8>, start: nat, decomp: Compressor) -> Result<MetaState, SquashError> {
    match spec_block(data, decomp, start) {
        Ok((b, end)) => Ok(MetaState { data, decomp, next: end, cur_pos: 0, buf: b }),
        Err(e) => Err(e),
    }
}

/// Loading the next block: the current block is replaced, and reading starts at its front.
pub open spec fn spec_advance(st: MetaState) -> Result<MetaState, SquashError> {
    match spec_block(st.data, st.decomp, st.next) {
        Ok((b, end)) => Ok(MetaState { next: end, cur_pos: 0, buf: b, ..st }),
        Err(e) => Err(e),
    }
}

/// `x` put in front of the bytes of a read's outcome.
pub open spec fn prepend(x: Seq<u8>, r: Result<(MetaState, Seq<u8>), SquashError>) -> Result<(MetaState, Seq<u8>), SquashError> {
    match r {
        Ok((s, y)) => Ok((s, x + y)),
        Err(e) => Err(e),
    }
}

/// Reading `n` bytes: take what the current block still holds, up to `n`; when the
/// block is used up, load the next one and go on with what is left to read. (A
/// position past the end of its block, which no reader reaches, is an overflow.)
pub open spec fn spec_read(st: MetaState, n: nat) -> Result<(MetaState, Seq<u8>), SquashError>
    decreases n, st.data.len() - st.next,
{
    if n == 0 {
        Ok((st, Seq::empty()))
    } else if st.cur_pos > st.buf.len() {
        Err(SquashError::Overflow)
    } else {
        let avail = (st.buf.len() - st.cur_pos) as nat;
        let t = if n < avail { n } else { avail };
        let chunk = st.buf.subrange(st.cur_pos as int, (st.cur_pos + t) as int);
        let st1 = MetaState { cur_pos: st.cur_pos + t, ..st };
        if st1.cur_pos == st.buf.len() {
            match spec_advance(st1) {
                Ok(st2) => prepend(chunk, spec_read(st2, (n - t) as nat)),
                Err(e) => Err(e),
            }
        } else {
            Ok((st1, chunk))
        }
    }
}

/// The outcome `r` of a read followed by reading `b` more bytes from where it left off.
pub open spec fn then_read(r: Result<(MetaState, Seq<u8>), SquashError>, b: nat) -> Result<(MetaState, Seq<u8>), SquashError> {
    match r {
        Ok((s, x)) => prepend(x, spec_read(s, b)),
        Err(e) => Err(e),
    }
}

proof fn lemma_prepend_prepend(x: Seq<u8>, y: Seq<u8>, r: Result<(MetaState, Seq<u8>), SquashError>)
    ensures
        prepend(x, prepend(y, r)) == prepend(x + y, r),
{
    match r {
        Ok((s, z)) => assert(x + (y + z) =~= (x + y) + z),
        Err(_) => {},
    }
}

proof fn lemma_prepend_empty(r: Result<(MetaState, Seq<u8>), SquashError>)
    ensures
        prepend(Seq::empty(), r) == r,
{
    match r {
        Ok((s, z)) => assert(Seq::<u8>::empty() + z =~= z),
        Err(_) => {},
    }
}

proof fn lemma_prepend_then(x: Seq<u8>, r: Result<(MetaState, Seq<u8>), SquashError>, b: nat)
    ensures
        prepend(x, then_read(r, b)) == then_read(prepend(x, r), b),
{
    match r {
        Ok((s, y)) => lemma_prepend_prepend(x, y, spec_read(s, b)),
        Err(_) => {},
    }
}

/// Reads compose: reading `a` bytes and then `b` more gives the same bytes and the same
/// final reader state as reading `a + b` bytes at once, and fails exactly when that does.
pub proof fn lemma_read_split(st: MetaState, a: nat, b: nat)
    ensures
        spec_read(st, a + b) == then_read(spec_read(st, a), b),
    decreases a, st.data.len() - st.next,
{
    if a == 0 {
        lemma_prepend_empty(spec_read(st, b));
        assert(a + b == b);
    } else if st.cur_pos > st.buf.len() {
    } else {
        let avail = (st.buf.len() - st.cur_pos) as nat;
        let len = st.buf.len();
        let cur = st.cur_pos;
        if a < avail {
            let st1 = MetaState { cur_pos: cur + a, ..st };
            let x = st.buf.subrange(cur as int, (cur + a) as int);
            assert(spec_read(st, a) == Ok::<(MetaState, Seq<u8>), SquashError>((st1, x)));
            if b == 0 {
                assert(x + Seq::<u8>::empty() =~= x);
                assert(a + b == a);
            } else if a + b < avail {
                let y = st.buf.subrange((cur + a) as int, (cur + a + b) as int);
                assert(spec_read(st1, b) == Ok::<(MetaState, Seq<u8>), SquashError>((MetaState { cur_pos: cur + a + b, ..st }, y)));
                assert(x + y =~= st.buf.subrange(cur as int, (cur + a + b) as int));
            } else {
                let whole = st.buf.subrange(cur as int, len as int);
                let y = st.buf.subrange((cur + a) as int, len as int);
                let stend = MetaState { cur_pos: len, ..st };
                assert(MetaState { cur_pos: len, ..st1 } == stend);
                assert(x + y =~= whole);
                match spec_advance(stend) {
                    Ok(st2) => {
                        assert(spec_read(st1, b) == prepend(y, spec_read(st2, (b - (avail - a)) as nat)));
                        assert(spec_read(st, a + b) == prepend(whole, spec_read(st2, (a + b - avail) as nat)));
                        assert((b - (avail - a)) as nat == (a + b - avail) as nat);
                        lemma_prepend_prepend(x, y, spec_read(st2, (a + b - avail) as nat));
                    },
                    Err(e) => {},
                }
            }
        } else {
            let chunk = st.buf.subrange(cur as int, len as int);
            let stend = MetaState { cur_pos: len, ..st };
            match spec_advance(stend) {
                Ok(st2) => {
                    assert(st2.next <= st2.data.len());
                    lemma_read_split(st2, (a - avail) as nat, b);
                    assert(spec_read(st, a) == prepend(chunk, spec_read(st2, (a - avail) as nat)));
                    assert(spec_read(st, a + b) == prepend(chunk, spec_read(st2, (a + b - avail) as nat)));
                    assert(((a - avail) + b) as nat == (a + b - avail) as nat);
                    lemma_prepend_then(chunk, spec_read(st2, (a - avail) as nat), b);
                },
                Err(e) => {},
            }
        }
    }
}

/// A block whose header has bit 15 set holds its bytes as stored, whatever the
/// compressor; with no compression configured, a block without that bit also reads
/// back as stored.
pub proof fn lemma_stored_block(data: Seq<u8>, decomp: Compressor, at: nat)
    requires
        at + 2 <= data.len(),
        at + 2 + (le16(data, at as int) & 0x7fff) <= data.len(),
        le16(data, at as int) & 0x8000 != 0 || decomp == Compressor::Passthrough,
    ensures
        spec_block(data, decomp, at) == Ok::<(Seq<u8>, nat), SquashError>((
            data.subrange(at + 2 as int, (at + 2 + (le16(data, at as int) & 0x7fff)) as int),
            (at + 2 + (le16(data, at as int) & 0x7fff)) as nat,
        )),
{
    let size = le16(data, at as int);
    if size & 0x8000 != 0 {
        assert(size & 0x8000 != 0 ==> size & 0x7fff != size) by (bit_vector);
    }
}

/// A read that the current block can serve without being used up gives the block's
/// next bytes and moves the position past them.
pub proof fn lemma_read_within_block(st: MetaState, n: nat)
    requires
        st.cur_pos + n < st.buf.len(),
    ensures
        spec_read(st, n) == Ok::<(MetaState, Seq<u8>), SquashError>((
            MetaState { cur_pos: st.cur_pos + n, ..st },
            st.buf.subrange(st.cur_pos as int, (st.cur_pos + n) as int),
        )),
{
    if n == 0 {
        assert(st.buf.subrange(st.cur_pos as int, st.cur_pos as int) =~= Seq::<u8>::empty());
        assert(MetaState { cur_pos: st.cur_pos + n, ..st } == st);
    }
}

/// A read that succeeds gives exactly as many bytes as were asked for.
pub proof fn lemma_read_length(st: MetaState, n: nat)
    ensures
        spec_read(st, n) matches Ok((_, out)) ==> out.len() == n,
    decreases n, st.data.len() - st.next,
{
    if n > 0 && st.cur_pos <= st.buf.len() {
        let avail = (st.buf.len() - st.cur_pos) as nat;
        let t = if n < avail { n } else { avail };
        let st1 = MetaState { cur_pos: st.cur_pos + t, ..st };
        if st1.cur_pos == st.buf.len() {
            match spec_advance(st1) {
                Ok(st2) => lemma_read_length(st2, (n - t) as nat),
                Err(_) => {},
            }
        }
    }
}

/// The decoded contents of `k` consecutive metadata blocks whose first header is at
/// `at`, one after another, and the offset just past the last of them.
pub open spec fn spec_blocks(data: Seq<u8>, decomp: Compressor, at: nat, k: nat) -> Result<(Seq<u8>, nat), SquashError>
    decreases k,
{
    if k == 0 {
        Ok((Seq::empty(), at))
    } else {
        match spec_block(data, decomp, at) {
            Ok((b, end)) => match spec_blocks(data, decomp, end, (k - 1) as nat) {
                Ok((rest, last)) => Ok((b + rest, last)),
                Err(e) => Err(e),
            },
            Err(e) => Err(e),
        }
    }
}

/// What a reader in state `st` still has to give from its current block, followed by
/// the next `k` blocks.
pub open spec fn spec_ahead(st: MetaState, k: nat) -> Seq<u8> {
    st.buf.subrange(st.cur_pos as int, st.buf.len() as int) + spec_blocks(st.data, st.decomp, st.next, k)->Ok_0.0
}

/// Reads stream the blocks: when the rest of the current block and the next `k` blocks
/// decode, and hold more than `n` bytes, reading `n` bytes succeeds and gives their first
/// `n` bytes.
pub proof fn lemma_read_blocks(st: MetaState, k: nat, n: nat)
    requires
        st.cur_pos <= st.buf.len(),
        spec_blocks(st.data, st.decomp, st.next, k) is Ok,
        n < spec_ahead(st, k).len(),
    ensures
        spec_read(st, n) matches Ok((_, out)) && out == spec_ahead(st, k).take(n as int),
    decreases k,
{
    let ahead = spec_ahead(st, k);
    let avail = (st.buf.len() - st.cur_pos) as nat;
    let rest = st.buf.subrange(st.cur_pos as int, st.buf.len() as int);
    if n == 0 {
        assert(ahead.take(0) =~= Seq::<u8>::empty());
    } else if n < avail {
        lemma_read_within_block(st, n);
        assert(ahead.take(n as int) =~= st.buf.subrange(st.cur_pos as int, (st.cur_pos + n) as int));
    } else {
        let stend = MetaState { cur_pos: st.buf.len(), ..st };
        if k == 0 {
            assert(ahead.len() == avail);
        } else {
            let (b, end) = spec_block(st.data, st.decomp, st.next)->Ok_0;
            let st2 = MetaState { next: end, cur_pos: 0, buf: b, ..st };
            assert(spec_advance(stend) == Ok::<MetaState, SquashError>(st2));
            let later = spec_blocks(st.data, st.decomp, end, (k - 1) as nat)->Ok_0.0;
            assert(spec_ahead(st2, (k - 1) as nat) =~= b + later);
            assert(ahead =~= rest + (b + later));
            lemma_read_blocks(st2, (k - 1) as nat, (n - avail) as nat);
            let out2 = spec_read(st2, (n - avail) as nat)->Ok_0.1;
            assert(rest + out2 =~= ahead.take(n as int));
        }
    }
}

/// Successive reads continue where the last one stopped: when the rest of the current
/// block and the next `k` blocks hold more than `a + b` bytes, reading `a` bytes and
/// then `b` bytes gives the first `a` of them and then the `b` after those.
pub proof fn lemma_successive_reads(st: MetaState, k: nat, a: nat, b: nat)
    requires
        st.cur_pos <= st.buf.len(),
        spec_blocks(st.data, st.decomp, st.next, k) is Ok,
        a + b < spec_ahead(st, k).len(),
    ensures
        spec_read(st, a) matches Ok((st1, x)) && {
            &&& x == spec_ahead(st, k).take(a as int)
            &&& spec_read(st1, b) matches Ok((_, y)) && y == spec_ahead(st, k).subrange(a as int, (a + b) as int)
        },
{
    let ahead = spec_ahead(st, k);
    lemma_read_blocks(st, k, a);
    lemma_read_blocks(st, k, a + b);
    lemma_read_split(st, a, b);
    let (st1, x) = spec_read(st, a)->Ok_0;
    lemma_read_length(st1, b);
    let y = spec_read(st1, b)->Ok_0.1;
    assert(x + y == ahead.take((a + b) as int));
    assert(y =~= (x + y).subrange(a as int, (a + b) as int));
    assert(ahead.take((a + b) as int).subrange(a as int, (a + b) as int) =~= ahead.subrange(a as int, (a + b) as int));
}

/// A reader opened on a block streams it and the blocks after it: when the first `k`
/// blocks from `start` decode and hold more than `n` bytes, its first read of `n` bytes
/// gives their first `n` bytes.
pub proof fn lemma_open_read_blocks(data: Seq<u8>, decomp: Compressor, start: nat, k: nat, n: nat)
    requires
        spec_blocks(data, decomp, start, k) is Ok,
        n < spec_blocks(data, decomp, start, k)->Ok_0.0.len(),
    ensures
        spec_open(data, start, decomp) matches Ok(st) && (spec_read(st, n) matches Ok((_, out))
            && out == spec_blocks(data, decomp, start, k)->Ok_0.0.take(n as int)),
{
    let (b, end) = spec_block(data, decomp, start)->Ok_0;
    let st = MetaState { data, decomp, next: end, cur_pos: 0, buf: b };
    assert(spec_ahead(st, (k - 1) as nat) =~= spec_blocks(data, decomp, start, k)->Ok_0.0);
    lemma_read_blocks(st, (k - 1) as nat, n);
}

/// The bytes a metadata block holding `raw` is written as: a header with the length of
/// `raw`, and bit 15 set when `raw` is stored as it is (`stored`), then `raw`.
pub open spec fn encode_block(raw: Seq<u8>, stored: bool) -> Seq<u8> {
    u16_bytes((if stored { raw.len() + 0x8000 } else { raw.len() }) as u16) + raw
}

/// What a written block holds once decoded: `raw` itself when stored, else whatever the
/// compressor gives for it.
pub open spec fn block_contents(c: Compressor, raw: Seq<u8>, stored: bool) -> Option<Seq<u8>> {
    if stored {
        Some(raw)
    } else {
        spec_decode_block(c, raw)
    }
}

/// Loading a written block gives what it holds: a stored block its bytes as written, a
/// compressed one the compressor's whole output on its bytes (however long that is), or
/// `DecompressFailed` when the compressor fails; the next block starts right after it.
pub proof fn lemma_block_roundtrip(p: Seq<u8>, raw: Seq<u8>, stored: bool, q: Seq<u8>, c: Compressor)
    requires
        raw.len() < 0x8000,
    ensures
        spec_block(p + encode_block(raw, stored) + q, c, p.len()) == match block_contents(c, raw, stored) {
            Some(b) => Ok::<(Seq<u8>, nat), SquashError>((b, p.len() + 2 + raw.len())),
            None => Err(SquashError::DecompressFailed),
        },
{
    let s = p + encode_block(raw, stored) + q;
    let a = p.len() as int;
    let l = raw.len() as u16;
    let hv = (if stored { raw.len() + 0x8000 } else { raw.len() }) as u16;
    assert(s.subrange(a, a + 2) =~= u16_bytes(hv));
    lemma_le16_of(s, a, hv);
    if stored {
        assert(hv == l + 0x8000);
        assert(l < 0x8000 ==> (l + 0x8000) as u16 & 0x7fff == l && (l + 0x8000) as u16 != l) by (bit_vector);
    } else {
        assert(hv == l);
        assert(l < 0x8000 ==> l & 0x7fff == l) by (bit_vector);
    }
    assert(s.subrange(a + 2, a + 2 + raw.len()) =~= raw);
}

/// Blocks written one after another.
pub open spec fn encode_blocks(blocks: Seq<(Seq<u8>, bool)>) -> Seq<u8>
    decreases blocks.len(),
{
    if blocks.len() == 0 {
        Seq::empty()
    } else {
        encode_block(blocks[0].0, blocks[0].1) + encode_blocks(blocks.drop_first())
    }
}

/// What written blocks hold once decoded, one after another (each assumed to decode).
pub open spec fn blocks_contents(c: Compressor, blocks: Seq<(Seq<u8>, bool)>) -> Seq<u8>
    decreases blocks.len(),
{
    if blocks.len() == 0 {
        Seq::empty()
    } else {
        block_contents(c, blocks[0].0, blocks[0].1)->0 + blocks_contents(c, blocks.drop_first())
    }
}

/// Blocks that can be written and that decode: each shorter than `0x8000` bytes as
/// written, and each compressed one accepted by the compressor.
pub open spec fn blocks_decode(c: Compressor, blocks: Seq<(Seq<u8>, bool)>) -> bool {
    forall|i: int| 0 <= i < blocks.len() ==> {
        &&& (#[trigger] blocks[i]).0.len() < 0x8000
        &&& block_contents(c, blocks[i].0, blocks[i].1) is Some
    }
}

/// Written blocks whose bytes lie at `at` decode, one after another, to what they hold.
proof fn lemma_blocks_at(s: Seq<u8>, at: nat, c: Compressor, blocks: Seq<(Seq<u8>, bool)>)
    requires
        blocks_decode(c, blocks),
        at + encode_blocks(blocks).len() <= s.len(),
        s.subrange(at as int, (at + encode_blocks(blocks).len()) as int) == encode_blocks(blocks),
    ensures
        spec_blocks(s, c, at, blocks.len())
            == Ok::<(Seq<u8>, nat), SquashError>((blocks_contents(c, blocks), at + encode_blocks(blocks).len())),
    decreases blocks.len(),
{
    if blocks.len() > 0 {
        let e0 = encode_block(blocks[0].0, blocks[0].1);
        let rest = encode_blocks(blocks.drop_first());
        assert(encode_blocks(blocks) == e0 + rest);
        lemma_split_at(s, at as int, e0, rest);
        let pre = s.subrange(0, at as int);
        let post = s.subrange((at + e0.len()) as int, s.len() as int);
        assert(s =~= pre + e0 + post);
        assert(blocks[0].0.len() < 0x8000 && block_contents(c, blocks[0].0, blocks[0].1) is Some);
        lemma_block_roundtrip(pre, blocks[0].0, blocks[0].1, post, c);
        assert(blocks_decode(c, blocks.drop_first())) by {
            assert forall|i: int| 0 <= i < blocks.drop_first().len() implies {
                &&& (#[trigger] blocks.drop_first()[i]).0.len() < 0x8000
                &&& block_contents(c, blocks.drop_first()[i].0, blocks.drop_first()[i].1) is Some
            } by {
                assert(blocks.drop_first()[i] == blocks[i + 1]);
            }
        }
        lemma_blocks_at(s, at + e0.len(), c, blocks.drop_first());
    }
}

/// A reader streams written blocks: opened on the first of blocks written one after
/// another, which all decode and hold more than `n` bytes in all, its first read of `n`
/// bytes gives the first `n` bytes of their contents, decompressed blocks at their full
/// decoded length.
pub proof fn lemma_read_written_blocks(p: Seq<u8>, blocks: Seq<(Seq<u8>, bool)>, q: Seq<u8>, c: Compressor, n: nat)
    requires
        blocks_decode(c, blocks),
        n < blocks_contents(c, blocks).len(),
    ensures
        spec_open(p + encode_blocks(blocks) + q, p.len(), c) matches Ok(st) && (spec_read(st, n) matches Ok((_, out))
            && out == blocks_contents(c, blocks).take(n as int)),
{
    let s = p + encode_blocks(blocks) + q;
    assert(s.subrange(p.len() as int, (p.len() + encode_blocks(blocks).len()) as int) =~= encode_blocks(blocks));
    lemma_blocks_at(s, p.len(), c, blocks);
    lemma_open_read_blocks(s, c, p.len(), blocks.len(), n);
}

/// Reads the decoded contents of consecutive metadata blocks of an archive image.
pub struct MetadataReader<'a> {
    data: &'a [u8],
    decomp: Compressor,
    next: usize,
    cur_pos: usize,
    buf: Vec<u8>,
}

impl<'a> View for MetadataReader<'a> {
    type V = MetaState;

    closed spec fn view(&self) -> MetaState {
        MetaState {
            data: self.data@,
            decomp: self.decomp,
            next: self.next as nat,
            cur_pos: self.cur_pos as nat,
            buf: self.buf@,
        }
    }
}

/// Loads the metadata block whose header is at `at`.
fn load_block(data: &[u8], decomp: Compressor, at: usize) -> (r: Result<(Vec<u8>, usize), SquashError>)
    ensures
        match spec_block(data@, decomp, at as nat) {
            Ok((b, end)) => r matches Ok((v, e)) && v@ == b && e == end,
            Err(err) => r == Err::<(Vec<u8>, usize), SquashError>(err),
        },
{
    if data.len() < 2 || at > data.len() - 2 {
        return Err(SquashError::UnexpectedEof);
    }
    let size = read_u16(data, at);
    let stored = size & 0x7fff;
    assert(size & 0x7fff <= 0x7fff) by (bit_vector);
    if stored as usize > data.len() - (at + 2) {
        return Err(SquashError::UnexpectedEof);
    }
    let end = at + 2 + stored as usize;
    let raw = &data[at + 2..end];
    if stored == size {
        let b = decomp.decode_block(raw)?;
        Ok((b, end))
    } else {
        Ok((vstd::slice::slice_to_vec(raw), end))
    }
}

impl<'a> MetadataReader<'a> {
    /// Opens a reader on the metadata block whose header is at offset `start` of `data`.
    pub fn new(data: &'a [u8], start: usize, decomp: Compressor) -> (r: Result<Self, SquashError>)
        ensures
            match spec_open(data@, start as nat, decomp) {
                Ok(st) => r matches Ok(m) && m@ == st && m@.cur_pos <= m@.buf.len(),
                Err(e) => r matches Err(e2) && e2 == e,
            },
    {
        let (buf, next) = load_block(data, decomp, start)?;
        Ok(MetadataReader { data, decomp, next, cur_pos: 0, buf })
    }

    /// Reads the next `n` bytes of the stream. A read that fails leaves the reader as it was.
    pub fn read(&mut self, n: usize) -> (r: Result<Vec<u8>, SquashError>)
        requires
            old(self)@.cur_pos <= old(self)@.buf.len(),
        ensures
            final(self)@.cur_pos <= final(self)@.buf.len(),
            match spec_read(old(self)@, n as nat) {
                Ok((st, out)) => r matches Ok(v) && v@ == out && final(self)@ == st,
                Err(e) => r matches Err(e2) && e2 == e && final(self)@ == old(self)@,
            },
    {
        let ghost st0 = self@;
        let mut orig: Vec<u8> = Vec::new();
        std::mem::swap(&mut orig, &mut self.buf);
        let mut loaded: Option<Vec<u8>> = None;
        let mut cur_pos = self.cur_pos;
        let mut next = self.next;
        let mut out: Vec<u8> = Vec::new();
        proof {
            let st = MetaState { data: st0.data, decomp: st0.decomp, next: next as nat, cur_pos: cur_pos as nat, buf: orig@ };
            assert(st == st0);
            match spec_read(st, n as nat) {
                Ok((s1, y)) => assert(out@ + y =~= y),
                Err(e) => {},
            }
        }
        while out.len() < n
            invariant
                out.len() <= n,
                self.data@ == st0.data,
                self.decomp == st0.decomp,
                self.next == st0.next,
                self.cur_pos == st0.cur_pos,
                orig@ == st0.buf,
                st0 == old(self)@,
                cur_pos <= current_block(&loaded, &orig)@.len(),
                prepend(
                    out@,
                    spec_read(
                        MetaState {
                            data: st0.data,
                            decomp: st0.decomp,
                            next: next as nat,
                            cur_pos: cur_pos as nat,
                            buf: current_block(&loaded, &orig)@,
                        },
                        (n - out.len()) as nat,
                    ),
                ) == spec_read(st0, n as nat),
            decreases n - out.len(), self.data@.len() - next,
        {
            let buf: &Vec<u8> = match &loaded {
                Some(b) => b,
                None => &orig,
            };
            let ghost before = MetaState {
                data: st0.data,
                decomp: st0.decomp,
                next: next as nat,
                cur_pos: cur_pos as nat,
                buf: buf@,
            };
            let ghost out_before = out@;
            let ghost rem = (n - out.len()) as nat;
            let avail = buf.len() - cur_pos;
            let mut t = n - out.len();
            if t > avail {
                t = avail;
            }
            let start = cur_pos;
            let mut i = start;
            while i < start + t
                invariant
                    start <= i <= start + t,
                    start + t <= buf.len(),
                    out@ == out_before + buf@.subrange(start as int, i as int),
                decreases start + t - i,
            {
                out.push(buf[i]);
                i = i + 1;
                assert(out@ =~= out_before + buf@.subrange(start as int, i as int));
            }
            let ghost chunk = buf@.subrange(start as int, start + t);
            cur_pos = cur_pos + t;
            if cur_pos == buf.len() {
                let ghost st1 = MetaState { cur_pos: cur_pos as nat, ..before };
                match load_block(self.data, self.decomp, next) {
                    Ok((b, e)) => {
                        loaded = Some(b);
                        next = e;
                        cur_pos = 0;
                        proof {
                            let st2 = MetaState { cur_pos: 0, next: e as nat, buf: current_block(&loaded, &orig)@, ..before };
                            assert(spec_advance(st1) == Ok::<MetaState, SquashError>(st2));
                            match spec_read(st2, (rem - t) as nat) {
                                Ok((s, y)) => assert(out_before + (chunk + y) =~= out@ + y),
                                Err(e) => {},
                            }
                        }
                    },
                    Err(e) => {
                        assert(spec_read(before, rem) == Err::<(MetaState, Seq<u8>), SquashError>(e));
                        self.buf = orig;
                        return Err(e);
                    },
                }
            } else {
                proof {
                    assert(t == rem);
                    assert(out_before + chunk =~= out@ + Seq::<u8>::empty());
                }
            }
        }
        proof {
            assert(out@ + Seq::<u8>::empty() =~= out@);
        }
        self.buf = match loaded {
            Some(b) => b,
            None => orig,
        };
        self.cur_pos = cur_pos;
        self.next = next;
        Ok(out)
    }
}

/// The block a read is working in: the one it loaded last, or the reader's own.
spec fn current_block<'b>(loaded: &'b Option<Vec<u8>>, orig: &'b Vec<u8>) -> &'b Vec<u8> {
    match loaded {
        Some(b) => b,
        None => orig,
    }
}

} // verus!
