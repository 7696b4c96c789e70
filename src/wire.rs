use vstd::prelude::*;
use crate::delta::{
    block_count, sig_wf, BlockSig, BlockSigView, Chunk, ChunkView, Delta, Signature, SignatureView,
    chunks_view, MIN_BLOCK_SIZE, MAX_BLOCK_SIZE,
};

verus! {

/// Why a signature or delta file could not be read.
#[derive(PartialEq, Eq, Structural, Clone, Copy, Debug)]
pub enum WireError {
    /// The file does not start with the expected magic.
    BadMagic,
    /// The file ends inside a field, or its blocks do not fill it exactly.
    Truncated,
    /// The block size lies outside the accepted range.
    BlockSizeOutOfRange,
    /// The block count does not fit the baseline length and block size.
    BlockCountMismatch,
    /// A chunk starts with a tag that is neither copy nor literal.
    UnknownChunkTag,
}

pub open spec fn u32_le(x: u32) -> Seq<u8> {
    seq![(x & 0xff) as u8, ((x >> 8) & 0xff) as u8, ((x >> 16) & 0xff) as u8, ((x >> 24) & 0xff) as u8]
}

pub open spec fn u64_le(x: u64) -> Seq<u8> {
    seq![
        (x & 0xff) as u8, ((x >> 8) & 0xff) as u8, ((x >> 16) & 0xff) as u8, ((x >> 24) & 0xff) as u8,
        ((x >> 32) & 0xff) as u8, ((x >> 40) & 0xff) as u8, ((x >> 48) & 0xff) as u8, ((x >> 56) & 0xff) as u8,
    ]
}

pub open spec fn sig_magic() -> Seq<u8> {
    seq![0x53u8, 0x49u8, 0x47u8, 0x31u8]
}

pub open spec fn delta_magic() -> Seq<u8> {
    seq![0x44u8, 0x4cu8, 0x54u8, 0x31u8]
}

pub open spec fn records_bytes(rs: Seq<BlockSigView>) -> Seq<u8>
    decreases rs.len(),
{
    if rs.len() == 0 {
        Seq::empty()
    } else {
        records_bytes(rs.drop_last()) + u32_le(rs.last().weak) + rs.last().strong
    }
}

/// The signature file: magic, block size, baseline length, block count, then
/// each block's weak checksum and strong digest.
pub open spec fn sig_file_bytes(sig: SignatureView) -> Seq<u8> {
    sig_magic() + u32_le(sig.block_size as u32) + u64_le(sig.baseline_len as u64) + u64_le(
        sig.blocks.len() as u64,
    ) + records_bytes(sig.blocks)
}

pub open spec fn chunk_bytes(c: ChunkView) -> Seq<u8> {
    match c {
        ChunkView::Copy(j, n) => seq![1u8] + u64_le(j as u64) + u64_le(n as u64),
        ChunkView::Literal(b) => seq![2u8] + u32_le(b.len() as u32) + b,
    }
}

pub open spec fn chunks_bytes(cs: Seq<ChunkView>) -> Seq<u8>
    decreases cs.len(),
{
    if cs.len() == 0 {
        Seq::empty()
    } else {
        chunks_bytes(cs.drop_last()) + chunk_bytes(cs.last())
    }
}

/// The delta file: magic, new length, then the chunks up to the end.
pub open spec fn delta_file_bytes(new_len: u64, cs: Seq<ChunkView>) -> Seq<u8> {
    delta_magic() + u64_le(new_len) + chunks_bytes(cs)
}

fn push_u32(out: &mut Vec<u8>, x: u32)
    ensures
        final(out)@ == old(out)@ + u32_le(x),
{
    out.push((x & 0xff) as u8);
    out.push(((x >> 8) & 0xff) as u8);
    out.push(((x >> 16) & 0xff) as u8);
    out.push(((x >> 24) & 0xff) as u8);
    assert(final(out)@ =~= old(out)@ + u32_le(x));
}

fn push_u64(out: &mut Vec<u8>, x: u64)
    ensures
        final(out)@ == old(out)@ + u64_le(x),
{
    out.push((x & 0xff) as u8);
    out.push(((x >> 8) & 0xff) as u8);
    out.push(((x >> 16) & 0xff) as u8);
    out.push(((x >> 24) & 0xff) as u8);
    out.push(((x >> 32) & 0xff) as u8);
    out.push(((x >> 40) & 0xff) as u8);
    out.push(((x >> 48) & 0xff) as u8);
    out.push(((x >> 56) & 0xff) as u8);
    assert(final(out)@ =~= old(out)@ + u64_le(x));
}

fn read_u32(b: &[u8], i: usize) -> (r: u32)
    requires
        i + 4 <= b@.len(),
    ensures
        u32_le(r) == b@.subrange(i as int, i + 4),
{
    let b0 = b[i];
    let b1 = b[i + 1];
    let b2 = b[i + 2];
    let b3 = b[i + 3];
    let r = (b0 as u32) | ((b1 as u32) << 8) | ((b2 as u32) << 16) | ((b3 as u32) << 24);
    assert(((r & 0xff) as u8) == b0 && (((r >> 8) & 0xff) as u8) == b1 && (((r >> 16) & 0xff) as u8) == b2
        && (((r >> 24) & 0xff) as u8) == b3) by (bit_vector)
        requires
            r == (b0 as u32) | ((b1 as u32) << 8) | ((b2 as u32) << 16) | ((b3 as u32) << 24);
    assert(u32_le(r) =~= b@.subrange(i as int, i + 4));
    r
}

fn read_u64(b: &[u8], i: usize) -> (r: u64)
    requires
        i + 8 <= b@.len(),
    ensures
        u64_le(r) == b@.subrange(i as int, i + 8),
{
    let n = b.len();
    let lo = read_u32(b, i) as u64;
    let hi = read_u32(b, i + 4) as u64;
    let r = lo | (hi << 32);
    let l32 = lo as u32;
    let h32 = hi as u32;
    assert(lo == l32 as u64 && hi == h32 as u64);
    assert(((r & 0xff) as u8) == ((l32 & 0xff) as u8)
        && (((r >> 8) & 0xff) as u8) == (((l32 >> 8) & 0xff) as u8)
        && (((r >> 16) & 0xff) as u8) == (((l32 >> 16) & 0xff) as u8)
        && (((r >> 24) & 0xff) as u8) == (((l32 >> 24) & 0xff) as u8)
        && (((r >> 32) & 0xff) as u8) == ((h32 & 0xff) as u8)
        && (((r >> 40) & 0xff) as u8) == (((h32 >> 8) & 0xff) as u8)
        && (((r >> 48) & 0xff) as u8) == (((h32 >> 16) & 0xff) as u8)
        && (((r >> 56) & 0xff) as u8) == (((h32 >> 24) & 0xff) as u8)) by (bit_vector)
        requires
            r == (l32 as u64) | ((h32 as u64) << 32);
    assert(u64_le(r) =~= u32_le(l32) + u32_le(h32));
    assert(b@.subrange(i as int, i + 8) =~= b@.subrange(i as int, i + 4) + b@.subrange(i + 4, i + 8));
    r
}

} // verus!

verus! {

fn push_bytes(out: &mut Vec<u8>, b: &[u8])
    ensures
        final(out)@ == old(out)@ + b@,
{
    let mut i: usize = 0;
    while i < b.len()
        invariant
            i <= b@.len(),
            out@ == old(out)@ + b@.subrange(0, i as int),
        decreases b@.len() - i,
    {
        out.push(b[i]);
        i = i + 1;
        assert(out@ =~= old(out)@ + b@.subrange(0, i as int));
    }
    assert(b@.subrange(0, b@.len() as int) =~= b@);
}

fn magic_sig() -> (r: [u8; 4])
    ensures
        r@ == sig_magic(),
{
    let r: [u8; 4] = [0x53, 0x49, 0x47, 0x31];
    assert(r@ =~= sig_magic());
    r
}

fn magic_delta() -> (r: [u8; 4])
    ensures
        r@ == delta_magic(),
{
    let r: [u8; 4] = [0x44, 0x4c, 0x54, 0x31];
    assert(r@ =~= delta_magic());
    r
}

/// The bytes of the signature file of `sig`.
pub fn encode_signature(sig: &Signature) -> (r: Vec<u8>)
    ensures
        r@ == sig_file_bytes(sig@),
{
    let mut out: Vec<u8> = Vec::new();
    let m = magic_sig();
    push_bytes(&mut out, &m);
    push_u32(&mut out, sig.block_size);
    push_u64(&mut out, sig.baseline_len);
    push_u64(&mut out, sig.blocks.len() as u64);
    let ghost head = out@;
    let ghost rs = sig@.blocks;
    let mut k: usize = 0;
    while k < sig.blocks.len()
        invariant
            rs == sig@.blocks,
            k <= rs.len(),
            out@ == head + records_bytes(rs.take(k as int)),
        decreases rs.len() - k,
    {
        push_u32(&mut out, sig.blocks[k].weak);
        push_bytes(&mut out, sig.blocks[k].strong.as_slice());
        proof {
            assert(rs.take(k as int + 1).drop_last() =~= rs.take(k as int));
            assert(rs.take(k as int + 1).last() == sig.blocks@[k as int]@);
        }
        k = k + 1;
    }
    assert(rs.take(rs.len() as int) =~= rs);
    assert(sig@.block_size as u32 == sig.block_size);
    out
}

fn is_magic(b: &[u8], m: &[u8; 4]) -> (r: bool)
    requires
        b@.len() >= 4,
    ensures
        r == (b@.subrange(0, 4) == m@),
{
    let r = b[0] == m[0] && b[1] == m[1] && b[2] == m[2] && b[3] == m[3];
    proof {
        if r {
            assert(b@.subrange(0, 4) =~= m@);
        } else if b@.subrange(0, 4) == m@ {
            assert(b@.subrange(0, 4)[0] == b@[0]);
            assert(b@.subrange(0, 4)[1] == b@[1]);
            assert(b@.subrange(0, 4)[2] == b@[2]);
            assert(b@.subrange(0, 4)[3] == b@[3]);
        }
    }
    r
}

/// Reads a signature file. What is read is well formed and is exactly what
/// `encode_signature` writes for it.
pub fn parse_signature(b: &[u8]) -> (r: Result<Signature, WireError>)
    ensures
        r matches Ok(sig) ==> sig_wf(sig@) && sig_file_bytes(sig@) == b@
            && forall|t: int| 0 <= t < sig@.blocks.len() ==> (#[trigger] sig@.blocks[t]).strong.len() == 20,
        b@.len() < 24 ==> r == Err::<Signature, WireError>(WireError::Truncated),
        b@.len() >= 24 && b@.subrange(0, 4) != sig_magic() ==> r == Err::<Signature, WireError>(WireError::BadMagic),
        is_sig_file(b@) ==> r is Ok,
        r == Err::<Signature, WireError>(WireError::BlockSizeOutOfRange) ==> b@.len() >= 24 && {
            let bs = b@.subrange(4, 8);
            forall|x: u32| u32_le(x) == bs ==> x < MIN_BLOCK_SIZE || x > MAX_BLOCK_SIZE
        },
{
    proof {
        lemma_sig_file_header(b@);
    }
    let n = b.len();
    if n < 24 {
        return Err(WireError::Truncated);
    }
    let m = magic_sig();
    if !is_magic(b, &m) {
        return Err(WireError::BadMagic);
    }
    let bs = read_u32(b, 4);
    if bs < MIN_BLOCK_SIZE || bs > MAX_BLOCK_SIZE {
        proof {
            if is_sig_file(b@) {
                let l = choose|l: u64| u64_le(l) == b@.subrange(8, 16);
                let c = choose|c: u64| u64_le(c) == b@.subrange(16, 24);
                lemma_u64_read_exists(b@.subrange(8, 16));
                lemma_u64_read_exists(b@.subrange(16, 24));
                assert(u32_le(bs) == b@.subrange(4, 8) && u64_le(l) == b@.subrange(8, 16) && u64_le(c) == b@.subrange(16, 24));
            }
            assert forall|x: u32| u32_le(x) == b@.subrange(4, 8) implies x < MIN_BLOCK_SIZE || x > MAX_BLOCK_SIZE by {
                lemma_u32_le_injective(x, bs);
            }
        }
        return Err(WireError::BlockSizeOutOfRange);
    }
    let len = read_u64(b, 8);
    let count = read_u64(b, 16);
    proof {
        if is_sig_file(b@) {
            assert(u32_le(bs) == b@.subrange(4, 8) && u64_le(len) == b@.subrange(8, 16) && u64_le(count) == b@.subrange(16, 24));
        }
    }
    let bs64 = bs as u64;
    let expect: u64 = if len < bs64 { 0 } else { (len - 1) / bs64 + 1 };
    proof {
        if len >= bs64 {
            vstd::arithmetic::div_mod::lemma_div_plus_one(((len - 1) as int), bs64 as int);
        }
    }
    assert(expect == block_count(len as nat, bs as nat));
    if count != expect {
        return Err(WireError::BlockCountMismatch);
    }
    if count > ((n - 24) / 24) as u64 || (n - 24) as u64 != count * 24 {
        return Err(WireError::Truncated);
    }
    let ghost head = b@.subrange(0, 24);
    assert(head =~= sig_magic() + u32_le(bs) + u64_le(len) + u64_le(count)) by {
        assert(b@.subrange(0, 4) == sig_magic());
        assert(b@.subrange(0, 24) =~= b@.subrange(0, 4) + b@.subrange(4, 8) + b@.subrange(8, 16) + b@.subrange(16, 24));
    }
    let mut blocks: Vec<BlockSig> = Vec::new();
    let mut k: usize = 0;
    let cnt = count as usize;
    while k < cnt
        invariant
            n == b@.len(),
            cnt as int * 24 == n - 24,
            k <= cnt,
            blocks@.len() == k,
            head == b@.subrange(0, 24),
            head + records_bytes(blocks@.map_values(|x: BlockSig| x@)) == b@.subrange(0, 24 + k * 24),
            forall|t: int| 0 <= t < k ==> (#[trigger] blocks@[t])@.strong.len() == 20,
        decreases cnt - k,
    {
        let p = 24 + k * 24;
        let weak = read_u32(b, p);
        let strong = vstd::slice::slice_to_vec(vstd::slice::slice_subrange(b, p + 4, p + 24));
        let ghost prev = blocks@.map_values(|x: BlockSig| x@);
        blocks.push(BlockSig { weak, strong });
        proof {
            let cur = blocks@.map_values(|x: BlockSig| x@);
            assert(cur.drop_last() =~= prev);
            assert(cur.last() == BlockSigView { weak, strong: b@.subrange(p + 4, p + 24) });
            assert(b@.subrange(0, p + 24) =~= b@.subrange(0, p as int) + b@.subrange(p as int, p + 4) + b@.subrange(p + 4, p + 24));
        }
        k = k + 1;
    }
    let sig = Signature { block_size: bs, baseline_len: len, blocks };
    proof {
        assert(b@.subrange(0, n as int) =~= b@);
        assert(sig@.blocks =~= sig.blocks@.map_values(|x: BlockSig| x@));
        assert(sig@.block_size as u32 == bs);
        assert forall|t: int| 0 <= t < sig@.blocks.len() implies (#[trigger] sig@.blocks[t]).strong.len() == 20 by {
            assert(sig@.blocks[t] == sig.blocks@[t]@);
        }
    }
    Ok(sig)
}

proof fn lemma_u32_le_injective(x: u32, y: u32)
    requires
        u32_le(x) == u32_le(y),
    ensures
        x == y,
{
    assert(u32_le(x)[0] == u32_le(y)[0]);
    assert(u32_le(x)[1] == u32_le(y)[1]);
    assert(u32_le(x)[2] == u32_le(y)[2]);
    assert(u32_le(x)[3] == u32_le(y)[3]);
    let x0 = (x & 0xff) as u8;
    let x1 = ((x >> 8) & 0xff) as u8;
    let x2 = ((x >> 16) & 0xff) as u8;
    let x3 = ((x >> 24) & 0xff) as u8;
    let y0 = (y & 0xff) as u8;
    let y1 = ((y >> 8) & 0xff) as u8;
    let y2 = ((y >> 16) & 0xff) as u8;
    let y3 = ((y >> 24) & 0xff) as u8;
    assert(x == y) by (bit_vector)
        requires
            ((x & 0xff) as u8) == ((y & 0xff) as u8),
            (((x >> 8) & 0xff) as u8) == (((y >> 8) & 0xff) as u8),
            (((x >> 16) & 0xff) as u8) == (((y >> 16) & 0xff) as u8),
            (((x >> 24) & 0xff) as u8) == (((y >> 24) & 0xff) as u8);
}

} // verus!

verus! {

/// The bytes of the delta file of `d`.
pub fn encode_delta(d: &Delta) -> (r: Vec<u8>)
    requires
        forall|k: int| 0 <= k < d.chunks@.len() ==> match #[trigger] d.chunks@[k]@ {
            ChunkView::Literal(b) => b.len() <= u32::MAX,
            ChunkView::Copy(_, _) => true,
        },
    ensures
        r@ == delta_file_bytes(d.new_len, chunks_view(d.chunks@)),
{
    let mut out: Vec<u8> = Vec::new();
    let m = magic_delta();
    push_bytes(&mut out, &m);
    push_u64(&mut out, d.new_len);
    let ghost head = out@;
    let ghost cs = chunks_view(d.chunks@);
    let mut k: usize = 0;
    while k < d.chunks.len()
        invariant
            cs == chunks_view(d.chunks@),
            k <= cs.len(),
            forall|q: int| 0 <= q < d.chunks@.len() ==> match #[trigger] d.chunks@[q]@ {
                ChunkView::Literal(b) => b.len() <= u32::MAX,
                ChunkView::Copy(_, _) => true,
            },
            out@ == head + chunks_bytes(cs.take(k as int)),
        decreases cs.len() - k,
    {
        proof {
            assert(cs.take(k as int + 1).drop_last() =~= cs.take(k as int));
            assert(cs.take(k as int + 1).last() == d.chunks@[k as int]@);
        }
        match &d.chunks[k] {
            Chunk::Copy { block_index, count } => {
                out.push(1u8);
                push_u64(&mut out, *block_index);
                push_u64(&mut out, *count);
                proof {
                    assert(seq![1u8] + u64_le(*block_index) + u64_le(*count) =~= chunk_bytes(ChunkView::Copy(*block_index as nat, *count as nat)));
                }
            },
            Chunk::Literal(bytes) => {
                out.push(2u8);
                push_u32(&mut out, bytes.len() as u32);
                push_bytes(&mut out, bytes.as_slice());
            },
        }
        proof {
            assert(out@ =~= head + chunks_bytes(cs.take(k as int + 1)));
        }
        k = k + 1;
    }
    assert(cs.take(cs.len() as int) =~= cs);
    out
}

/// Reads a delta file. What is read is exactly what `encode_delta` writes
/// for it; a chunk tag other than copy or literal stops the reading.
#[verifier::rlimit(100)]
pub fn parse_delta(b: &[u8]) -> (r: Result<Delta, WireError>)
    ensures
        r matches Ok(d) ==> delta_file_bytes(d.new_len, chunks_view(d.chunks@)) == b@,
        b@.len() < 12 ==> r == Err::<Delta, WireError>(WireError::Truncated),
        b@.len() >= 12 && b@.subrange(0, 4) != delta_magic() ==> r == Err::<Delta, WireError>(WireError::BadMagic),
        r == Err::<Delta, WireError>(WireError::UnknownChunkTag) ==> exists|i: int| 12 <= i < b@.len() && b@[i] != 1 && b@[i] != 2,
        is_delta_file(b@) ==> r is Ok,
{
    let ghost valid = is_delta_file(b@);
    let ghost nl0: u64 = 0;
    let ghost cs0: Seq<ChunkView> = Seq::empty();
    proof {
        if valid {
            let (a, c) = choose|nl: u64, cs: Seq<ChunkView>| literals_fit(cs) && #[trigger] delta_file_bytes(nl, cs) == b@;
            nl0 = a;
            cs0 = c;
            lemma_chunks_split(cs0, 0);
            assert(cs0.take(0) =~= Seq::<ChunkView>::empty());
            assert(b@.subrange(0, 4) =~= delta_magic());
            assert(b@.subrange(12, b@.len() as int) =~= chunks_from(cs0, 0));
        }
    }
    let ghost mut k: int = 0;
    let n = b.len();
    if n < 12 {
        return Err(WireError::Truncated);
    }
    let m = magic_delta();
    if !is_magic(b, &m) {
        return Err(WireError::BadMagic);
    }
    let new_len = read_u64(b, 4);
    let ghost head = b@.subrange(0, 12);
    assert(head =~= delta_magic() + u64_le(new_len)) by {
        assert(b@.subrange(0, 12) =~= b@.subrange(0, 4) + b@.subrange(4, 12));
    }
    let mut chunks: Vec<Chunk> = Vec::new();
    let mut p: usize = 12;
    while p < n
        invariant
            n == b@.len(),
            12 <= p <= n,
            b@.subrange(0, 4) == delta_magic(),
            head == b@.subrange(0, 12),
            head + chunks_bytes(chunks_view(chunks@)) == b@.subrange(0, p as int),
            valid == is_delta_file(b@),
            valid ==> 0 <= k <= cs0.len() && literals_fit(cs0) && b@.subrange(p as int, n as int) == chunks_from(cs0, k),
        decreases n - p,
    {
        let tag = b[p];
        proof {
            lemma_chunk_at(b@, p as int, n as int, cs0, k, valid);
        }
        let ghost prev = chunks_view(chunks@);
        if tag == 1 {
            if n - p < 17 {
                return Err(WireError::Truncated);
            }
            let j = read_u64(b, p + 1);
            let c = read_u64(b, p + 9);
            chunks.push(Chunk::Copy { block_index: j, count: c });
            proof {
                let cur = chunks_view(chunks@);
                assert(cur.drop_last() =~= prev);
                assert(b@.subrange(0, p + 17) =~= b@.subrange(0, p as int) + seq![1u8] + b@.subrange(p + 1, p + 9) + b@.subrange(p + 9, p + 17));
                if valid {
                    assert(b@.subrange(p + 17, n as int) =~= b@.subrange(p as int, n as int).subrange(17, n - p));
                    assert(b@.subrange(p as int, n as int).subrange(17, n - p) =~= chunks_from(cs0, k + 1));
                    k = k + 1;
                }
            }
            p = p + 17;
        } else if tag == 2 {
            if n - p < 5 {
                return Err(WireError::Truncated);
            }
            let len = read_u32(b, p + 1) as usize;
            proof {
                if valid {
                    if let ChunkView::Literal(lb) = cs0[k] {
                        let seg = b@.subrange(p as int, n as int);
                        assert(seg.subrange(1, 5) =~= u32_le(lb.len() as u32));
                        assert(b@.subrange(p + 1, p + 5) =~= seg.subrange(1, 5));
                        lemma_u32_le_injective(len as u32, lb.len() as u32);
                    }
                }
            }
            if n - p - 5 < len {
                return Err(WireError::Truncated);
            }
            let bytes = vstd::slice::slice_to_vec(vstd::slice::slice_subrange(b, p + 5, p + 5 + len));
            chunks.push(Chunk::Literal(bytes));
            proof {
                let cur = chunks_view(chunks@);
                assert(cur.drop_last() =~= prev);
                assert(bytes@.len() as u32 == len as u32);
                assert(b@.subrange(0, p + 5 + len) =~= b@.subrange(0, p as int) + seq![2u8] + b@.subrange(p + 1, p + 5) + b@.subrange(p + 5, p + 5 + len));
                if valid {
                    let seg = b@.subrange(p as int, n as int);
                    assert(b@.subrange(p + 5 + len, n as int) =~= seg.subrange(5 + len, n - p));
                    assert(seg.subrange(5 + len, n - p) =~= chunks_from(cs0, k + 1));
                    k = k + 1;
                }
            }
            p = p + 5 + len;
        } else {
            return Err(WireError::UnknownChunkTag);
        }
    }
    assert(b@.subrange(0, n as int) =~= b@);
    Ok(Delta { new_len, chunks })
}

} // verus!

verus! {

/// Every block digest of `sig` is 20 bytes long, as SHA-1 digests are.
pub open spec fn strongs_are_digests(sig: SignatureView) -> bool {
    forall|t: int| 0 <= t < sig.blocks.len() ==> (#[trigger] sig.blocks[t]).strong.len() == 20
}

/// `b` is the signature file of some well-formed signature.
pub open spec fn is_sig_file(b: Seq<u8>) -> bool {
    exists|s: SignatureView| sig_wf(s) && strongs_are_digests(s) && #[trigger] sig_file_bytes(s) == b
}

pub open spec fn sig_header_ok(b: Seq<u8>) -> bool {
    &&& b.len() >= 24
    &&& b.subrange(0, 4) == sig_magic()
    &&& forall|x: u32, l: u64, c: u64|
        #![trigger u32_le(x), u64_le(l), u64_le(c)]
        u32_le(x) == b.subrange(4, 8) && u64_le(l) == b.subrange(8, 16) && u64_le(c) == b.subrange(16, 24)
            ==> MIN_BLOCK_SIZE <= x <= MAX_BLOCK_SIZE && c == block_count(l as nat, x as nat)
            && b.len() == 24 + 24 * c
}

proof fn lemma_records_len(rs: Seq<BlockSigView>)
    requires
        forall|t: int| 0 <= t < rs.len() ==> (#[trigger] rs[t]).strong.len() == 20,
    ensures
        records_bytes(rs).len() == 24 * rs.len(),
    decreases rs.len(),
{
    if rs.len() > 0 {
        let d = rs.drop_last();
        assert forall|t: int| 0 <= t < d.len() implies (#[trigger] d[t]).strong.len() == 20 by {
            assert(d[t] == rs[t]);
        }
        lemma_records_len(d);
        assert(rs.last().strong.len() == 20);
    }
}

proof fn lemma_u64_le_injective(x: u64, y: u64)
    requires
        u64_le(x) == u64_le(y),
    ensures
        x == y,
{
    assert(u64_le(x)[0] == u64_le(y)[0]);
    assert(u64_le(x)[1] == u64_le(y)[1]);
    assert(u64_le(x)[2] == u64_le(y)[2]);
    assert(u64_le(x)[3] == u64_le(y)[3]);
    assert(u64_le(x)[4] == u64_le(y)[4]);
    assert(u64_le(x)[5] == u64_le(y)[5]);
    assert(u64_le(x)[6] == u64_le(y)[6]);
    assert(u64_le(x)[7] == u64_le(y)[7]);
    assert(x == y) by (bit_vector)
        requires
            ((x & 0xff) as u8) == ((y & 0xff) as u8),
            (((x >> 8) & 0xff) as u8) == (((y >> 8) & 0xff) as u8),
            (((x >> 16) & 0xff) as u8) == (((y >> 16) & 0xff) as u8),
            (((x >> 24) & 0xff) as u8) == (((y >> 24) & 0xff) as u8),
            (((x >> 32) & 0xff) as u8) == (((y >> 32) & 0xff) as u8),
            (((x >> 40) & 0xff) as u8) == (((y >> 40) & 0xff) as u8),
            (((x >> 48) & 0xff) as u8) == (((y >> 48) & 0xff) as u8),
            (((x >> 56) & 0xff) as u8) == (((y >> 56) & 0xff) as u8);
}

proof fn lemma_sig_file_header(b: Seq<u8>)
    ensures
        is_sig_file(b) ==> sig_header_ok(b),
{
    if is_sig_file(b) {
        let s = choose|s: SignatureView| sig_wf(s) && strongs_are_digests(s) && #[trigger] sig_file_bytes(s) == b;
        lemma_records_len(s.blocks);
        lemma_block_count_bound(s.baseline_len, s.block_size);
        assert((s.blocks.len() as u64) as nat == s.blocks.len());
        let h = sig_magic() + u32_le(s.block_size as u32) + u64_le(s.baseline_len as u64) + u64_le(s.blocks.len() as u64);
        assert(b == h + records_bytes(s.blocks));
        assert(b.subrange(0, 4) =~= sig_magic());
        assert(b.subrange(4, 8) =~= u32_le(s.block_size as u32));
        assert(b.subrange(8, 16) =~= u64_le(s.baseline_len as u64));
        assert(b.subrange(16, 24) =~= u64_le(s.blocks.len() as u64));
        assert forall|x: u32, l: u64, c: u64|
            #![trigger u32_le(x), u64_le(l), u64_le(c)]
            u32_le(x) == b.subrange(4, 8) && u64_le(l) == b.subrange(8, 16) && u64_le(c) == b.subrange(16, 24)
            implies MIN_BLOCK_SIZE <= x <= MAX_BLOCK_SIZE && c == block_count(l as nat, x as nat)
            && b.len() == 24 + 24 * c by {
            lemma_u32_le_injective(x, s.block_size as u32);
            lemma_u64_le_injective(l, s.baseline_len as u64);
            lemma_u64_le_injective(c, s.blocks.len() as u64);
        }
    }
}

} // verus!

verus! {

proof fn lemma_u64_read_exists(s: Seq<u8>)
    requires
        s.len() == 8,
    ensures
        exists|x: u64| u64_le(x) == s,
{
    let x = (s[0] as u64) | ((s[1] as u64) << 8) | ((s[2] as u64) << 16) | ((s[3] as u64) << 24)
        | ((s[4] as u64) << 32) | ((s[5] as u64) << 40) | ((s[6] as u64) << 48) | ((s[7] as u64) << 56);
    let (b0, b1, b2, b3, b4, b5, b6, b7) = (s[0], s[1], s[2], s[3], s[4], s[5], s[6], s[7]);
    assert(((x & 0xff) as u8) == b0 && (((x >> 8) & 0xff) as u8) == b1 && (((x >> 16) & 0xff) as u8) == b2
        && (((x >> 24) & 0xff) as u8) == b3 && (((x >> 32) & 0xff) as u8) == b4 && (((x >> 40) & 0xff) as u8) == b5
        && (((x >> 48) & 0xff) as u8) == b6 && (((x >> 56) & 0xff) as u8) == b7) by (bit_vector)
        requires
            x == (b0 as u64) | ((b1 as u64) << 8) | ((b2 as u64) << 16) | ((b3 as u64) << 24)
                | ((b4 as u64) << 32) | ((b5 as u64) << 40) | ((b6 as u64) << 48) | ((b7 as u64) << 56);
    assert(u64_le(x) =~= s);
}

} // verus!

verus! {

proof fn lemma_block_count_bound(len: nat, b: nat)
    requires
        b >= 1,
    ensures
        block_count(len, b) <= len,
{
    if len >= b {
        assert(len + b - 1 <= len * b) by (nonlinear_arith)
            requires len >= b, b >= 1;
        vstd::arithmetic::div_mod::lemma_div_is_ordered((len + b - 1) as int, (len * b) as int, b as int);
        vstd::arithmetic::div_mod::lemma_div_multiples_vanish(len as int, b as int);
        assert(b * len == len * b) by (nonlinear_arith);
    }
}

} // verus!

verus! {

/// Every literal of `cs` has a length that the file format can hold.
pub open spec fn literals_fit(cs: Seq<ChunkView>) -> bool {
    forall|k: int| 0 <= k < cs.len() ==> match #[trigger] cs[k] {
        ChunkView::Literal(b) => b.len() <= u32::MAX,
        ChunkView::Copy(j, n) => j <= u64::MAX && n <= u64::MAX,
    }
}

/// `b` is the delta file of some delta.
pub open spec fn is_delta_file(b: Seq<u8>) -> bool {
    exists|nl: u64, cs: Seq<ChunkView>| literals_fit(cs) && #[trigger] delta_file_bytes(nl, cs) == b
}

/// The bytes of the chunks from the `k`-th on.
pub open spec fn chunks_from(cs: Seq<ChunkView>, k: int) -> Seq<u8>
    decreases cs.len() - k,
{
    if k >= cs.len() || k < 0 {
        Seq::empty()
    } else {
        chunk_bytes(cs[k]) + chunks_from(cs, k + 1)
    }
}

proof fn lemma_chunks_split(cs: Seq<ChunkView>, j: int)
    requires
        0 <= j <= cs.len(),
    ensures
        chunks_bytes(cs.take(j)) + chunks_from(cs, j) == chunks_bytes(cs),
    decreases cs.len() - j,
{
    if j == cs.len() {
        assert(cs.take(j) =~= cs);
        assert(chunks_bytes(cs) + Seq::<u8>::empty() =~= chunks_bytes(cs));
    } else {
        lemma_chunks_split(cs, j + 1);
        assert(cs.take(j + 1).drop_last() =~= cs.take(j));
        assert(cs.take(j + 1).last() == cs[j]);
        assert(chunks_bytes(cs.take(j + 1)) == chunks_bytes(cs.take(j)) + chunk_bytes(cs[j]));
        assert(chunks_from(cs, j) == chunk_bytes(cs[j]) + chunks_from(cs, j + 1));
        assert(chunks_bytes(cs.take(j)) + chunks_from(cs, j) =~= chunks_bytes(cs.take(j + 1)) + chunks_from(cs, j + 1));
    }
}

} // verus!

verus! {

proof fn lemma_chunk_at(b: Seq<u8>, p: int, n: int, cs0: Seq<ChunkView>, k: int, valid: bool)
    requires
        0 <= p < n,
        n == b.len(),
        valid ==> 0 <= k <= cs0.len() && literals_fit(cs0) && b.subrange(p, n) == chunks_from(cs0, k),
    ensures
        valid ==> k < cs0.len() && match cs0[k] {
            ChunkView::Copy(_, _) => b[p] == 1 && n - p >= 17,
            ChunkView::Literal(lb) => b[p] == 2 && n - p >= 5 + lb.len(),
        },
{
    if valid {
        if k == cs0.len() {
            assert(b.subrange(p, n).len() == 0);
        }
        let cb = chunk_bytes(cs0[k]);
        assert(b.subrange(p, n) == cb + chunks_from(cs0, k + 1));
        assert(b[p] == b.subrange(p, n)[0]);
        assert((cb + chunks_from(cs0, k + 1))[0] == cb[0]);
        match cs0[k] {
            ChunkView::Copy(j, c) => {
                assert(cb[0] == 1u8);
                assert(cb.len() == 17);
            },
            ChunkView::Literal(lb) => {
                assert(cb[0] == 2u8);
                assert(cb.len() == 5 + lb.len());
            },
        }
    }
}

} // verus!
