use vstd::prelude::*;
use vstd::arithmetic::div_mod::{lemma_fundamental_div_mod, lemma_mod_multiples_vanish};
use crate::hashing::{sha1_digest, sha1_digest_of};
use std::collections::HashMap;

verus! {

/// Smallest accepted block size.
pub const MIN_BLOCK_SIZE: u32 = 512;

/// Largest accepted block size.
pub const MAX_BLOCK_SIZE: u32 = 1048576;

/// Largest payload of one literal chunk.
pub const MAX_LITERAL: usize = 65536;

/// Sum of the bytes of `w`.
pub open spec fn byte_sum(w: Seq<u8>) -> int
    decreases w.len(),
{
    if w.len() == 0 {
        0
    } else {
        byte_sum(w.drop_last()) + w.last()
    }
}

/// Sum of the bytes of `w`, each weighted by its distance from the end plus one.
pub open spec fn weighted_sum(w: Seq<u8>) -> int
    decreases w.len(),
{
    if w.len() == 0 {
        0
    } else {
        weighted_sum(w.drop_last()) + byte_sum(w)
    }
}

/// The rolling (weak) checksum of a window: the byte sum modulo 2^16 in the
/// low half, the weighted sum modulo 2^16 in the high half.
pub open spec fn weak_sum(w: Seq<u8>) -> u32 {
    ((byte_sum(w) % 65536) + 65536 * (weighted_sum(w) % 65536)) as u32
}

pub proof fn lemma_sums_drop_first(w: Seq<u8>)
    requires
        w.len() >= 1,
    ensures
        byte_sum(w) == w[0] + byte_sum(w.drop_first()),
        weighted_sum(w) == w.len() * w[0] + weighted_sum(w.drop_first()),
    decreases w.len(),
{
    if w.len() == 1 {
        assert(w.drop_last().len() == 0);
        assert(w.drop_first().len() == 0);
        assert(w.last() == w[0]);
        assert(byte_sum(w.drop_last()) == 0);
        assert(weighted_sum(w.drop_last()) == 0);
        assert(byte_sum(w.drop_first()) == 0);
        assert(weighted_sum(w.drop_first()) == 0);
    } else {
        let v = w.drop_last();
        let u = w.drop_first();
        lemma_sums_drop_first(v);
        assert(v.drop_first() =~= u.drop_last());
        assert(u.last() == w.last());
        assert(v[0] == w[0]);
        assert(byte_sum(u) == byte_sum(u.drop_last()) + u.last());
        assert(weighted_sum(u) == weighted_sum(u.drop_last()) + byte_sum(u));
        assert(byte_sum(w) == byte_sum(v) + w.last());
        assert(weighted_sum(w) == weighted_sum(v) + byte_sum(w));
        assert(w.len() * w[0] == v.len() * w[0] + w[0]) by (nonlinear_arith)
            requires w.len() == v.len() + 1;
    }
}

proof fn lemma_mod_shift(x: int, k: int)
    ensures
        (x + k * 65536) % 65536 == x % 65536,
{
    lemma_mod_multiples_vanish(k, x, 65536);
    assert(65536 * k + x == x + k * 65536);
}

/// Block `t` of `s` cut in blocks of `b` bytes; the last may be shorter.
pub open spec fn block_of(s: Seq<u8>, b: nat, t: int) -> Seq<u8> {
    let start = t * b;
    let end = if (t + 1) * b <= s.len() { (t + 1) * b } else { s.len() as int };
    s.subrange(start, end)
}

/// Number of blocks of a baseline of `len` bytes: none below one block,
/// else one per started block.
pub open spec fn block_count(len: nat, b: nat) -> nat {
    if len < b || b == 0 {
        0
    } else {
        ((len + b - 1) as int / b as int) as nat
    }
}

/// Length of block `t` of a baseline of `len` bytes.
pub open spec fn block_len(len: nat, b: nat, t: int) -> int {
    if (t + 1) * b <= len { b as int } else { len - t * b }
}

pub ghost struct BlockSigView {
    pub weak: u32,
    pub strong: Seq<u8>,
}

pub ghost struct SignatureView {
    pub block_size: nat,
    pub baseline_len: nat,
    pub blocks: Seq<BlockSigView>,
}

/// The signature of baseline `s` with blocks of `b` bytes.
pub open spec fn signature_of(s: Seq<u8>, b: nat) -> SignatureView {
    SignatureView {
        block_size: b,
        baseline_len: s.len(),
        blocks: Seq::new(block_count(s.len(), b), |t: int| BlockSigView {
            weak: weak_sum(block_of(s, b, t)),
            strong: sha1_digest_of(block_of(s, b, t)),
        }),
    }
}

/// Weak and strong checksum of one baseline block.
pub struct BlockSig {
    pub weak: u32,
    pub strong: Vec<u8>,
}

/// The signature of a baseline: block size, baseline length, one checksum
/// pair per block.
pub struct Signature {
    pub block_size: u32,
    pub baseline_len: u64,
    pub blocks: Vec<BlockSig>,
}

impl View for BlockSig {
    type V = BlockSigView;

    open spec fn view(&self) -> BlockSigView {
        BlockSigView { weak: self.weak, strong: self.strong@ }
    }
}

impl View for Signature {
    type V = SignatureView;

    open spec fn view(&self) -> SignatureView {
        SignatureView {
            block_size: self.block_size as nat,
            baseline_len: self.baseline_len as nat,
            blocks: self.blocks@.map_values(|b: BlockSig| b@),
        }
    }
}

/// The weak checksum halves of `data[from..to]`, computed from scratch.
fn weak_parts(data: &[u8], from: usize, to: usize) -> (r: (u32, u32))
    requires
        from <= to <= data@.len(),
    ensures
        r.0 == byte_sum(data@.subrange(from as int, to as int)) % 65536,
        r.1 == weighted_sum(data@.subrange(from as int, to as int)) % 65536,
        r.0 < 65536,
        r.1 < 65536,
{
    let mut a: u32 = 0;
    let mut b: u32 = 0;
    let mut i: usize = from;
    while i < to
        invariant
            from <= i <= to <= data@.len(),
            a == byte_sum(data@.subrange(from as int, i as int)) % 65536,
            b == weighted_sum(data@.subrange(from as int, i as int)) % 65536,
            a < 65536,
            b < 65536,
        decreases to - i,
    {
        let ghost w = data@.subrange(from as int, i as int + 1);
        proof {
            assert(w.drop_last() =~= data@.subrange(from as int, i as int));
            assert(w.last() == data@[i as int]);
            let s0 = byte_sum(w.drop_last());
            lemma_fundamental_div_mod(s0, 65536);
            lemma_mod_shift(s0 + data@[i as int], -(s0 / 65536));
            let q0 = weighted_sum(w.drop_last());
            let s1 = byte_sum(w);
            lemma_fundamental_div_mod(q0, 65536);
            lemma_fundamental_div_mod(s1, 65536);
            lemma_mod_shift(q0 + s1, -(q0 / 65536) - (s1 / 65536));
        }
        a = (a + data[i] as u32) % 65536;
        b = (b + a) % 65536;
        i = i + 1;
    }
    (a, b)
}

/// The signature of `data` with blocks of `block_size` bytes.
pub fn signature(data: &[u8], block_size: u32) -> (r: Signature)
    requires
        MIN_BLOCK_SIZE <= block_size <= MAX_BLOCK_SIZE,
    ensures
        r@ == signature_of(data@, block_size as nat),
        sig_wf(r@),
        forall|t: int| 0 <= t < r@.blocks.len() ==> (#[trigger] r@.blocks[t]).strong.len() == 20,
{
    let n = data.len();
    let bs = block_size as usize;
    let mut blocks: Vec<BlockSig> = Vec::new();
    let mut t: usize = 0;
    let count: usize = if n < bs { 0 } else { (n - 1) / bs + 1 };
    proof {
        if n >= bs {
            assert(((n + bs - 1) as int) / (bs as int) == ((n - 1) as int) / (bs as int) + 1) by {
                vstd::arithmetic::div_mod::lemma_div_plus_one(((n - 1) as int), bs as int);
            }
        }
    }
    assert(count == block_count(n as nat, bs as nat));
    while t < count
        invariant
            n == data@.len(),
            bs == block_size,
            MIN_BLOCK_SIZE <= block_size <= MAX_BLOCK_SIZE,
            count == block_count(n as nat, bs as nat),
            t <= count,
            blocks@.len() == t,
            forall|k: int| 0 <= k < t ==> #[trigger] blocks@[k]@ == signature_of(data@, bs as nat).blocks[k],
            forall|k: int| 0 <= k < t ==> (#[trigger] blocks@[k]).strong@.len() == 20,
        decreases count - t,
    {
        proof {
            assert(t * bs < n) by (nonlinear_arith)
                requires t < count, count as int == (n + bs - 1) as int / bs as int, bs > 0;
        }
        let start = t * bs;
        let end = if n - start >= bs { start + bs } else { n };
        let (a, b) = weak_parts(data, start, end);
        let strong = sha1_digest(vstd::slice::slice_subrange(data, start, end));
        let ghost blk = block_of(data@, bs as nat, t as int);
        proof {
            assert((t + 1) * bs == start + bs) by (nonlinear_arith)
                requires start == t * bs;
            assert(data@.subrange(start as int, end as int) =~= blk);
        }
        blocks.push(BlockSig { weak: a + 65536 * b, strong });
        t = t + 1;
    }
    let r = Signature { block_size, baseline_len: n as u64, blocks };
    assert(r@.blocks =~= signature_of(data@, bs as nat).blocks);
    assert forall|t: int| 0 <= t < r@.blocks.len() implies (#[trigger] r@.blocks[t]).strong.len() == 20 by {
        assert(r@.blocks[t] == r.blocks@[t]@);
    }
    r
}

} // verus!

verus! {

broadcast use vstd::std_specs::hash::group_hash_axioms;

/// The weak checksum halves of `data[i + 1..i + 1 + bs]`, from those of
/// `data[i..i + bs]` in constant time.
fn roll(data: &[u8], i: usize, bs: usize, a: u32, b: u32) -> (r: (u32, u32))
    requires
        i + bs < data@.len(),
        1 <= bs <= MAX_BLOCK_SIZE,
        a == byte_sum(data@.subrange(i as int, (i + bs) as int)) % 65536,
        b == weighted_sum(data@.subrange(i as int, (i + bs) as int)) % 65536,
    ensures
        r.0 == byte_sum(data@.subrange(i + 1, (i + 1 + bs) as int)) % 65536,
        r.1 == weighted_sum(data@.subrange(i + 1, (i + 1 + bs) as int)) % 65536,
        r.0 < 65536,
        r.1 < 65536,
{
    let x_out = data[i] as u64;
    let x_in = data[i + bs] as u64;
    let a2 = ((a as u64 + 65536 - x_out + x_in) % 65536) as u32;
    assert(bs as u64 * x_out <= 1048576 * 255) by (nonlinear_arith)
        requires bs <= 1048576, x_out <= 255;
    let drop = (bs as u64 * x_out) % 65536;
    let b2 = ((b as u64 + 65536 - drop + a2 as u64) % 65536) as u32;
    proof {
        let w = data@.subrange(i as int, (i + bs) as int);
        let w2 = data@.subrange(i + 1, (i + 1 + bs) as int);
        let u = w.drop_first();
        lemma_sums_drop_first(w);
        assert(u =~= w2.drop_last());
        assert(w2.last() == data@[i + bs]);
        assert(w[0] == data@[i as int]);
        assert(byte_sum(w2) == byte_sum(u) + x_in);
        assert(weighted_sum(w2) == weighted_sum(u) + byte_sum(w2));
        let sa = byte_sum(w);
        let sb = weighted_sum(w);
        let m = bs * x_out;
        lemma_fundamental_div_mod(sa, 65536);
        lemma_fundamental_div_mod(sb, 65536);
        lemma_fundamental_div_mod(m as int, 65536);
        let sa2 = byte_sum(w2);
        lemma_fundamental_div_mod(sa2, 65536);
        lemma_mod_shift(sa2, 1 - sa / 65536);
        assert(sb == bs * x_out + weighted_sum(u));
        lemma_mod_shift(weighted_sum(w2), 1 - sb / 65536 + (m as int) / 65536 - sa2 / 65536);
    }
    (a2, b2)
}

/// True when `m` lists, under each weak checksum, blocks of `sig` that carry it,
/// and every block under its own checksum.
pub open spec fn index_ok(m: Map<u32, Vec<usize>>, sig: SignatureView) -> bool {
    &&& forall|t: int| 0 <= t < sig.blocks.len() ==> #[trigger] index_has(m, sig, t)
    &&& forall|w: u32, k: int| #[trigger] m.contains_key(w) && 0 <= k < m[w]@.len() ==> {
        let t = #[trigger] m[w]@[k];
        t < sig.blocks.len() && sig.blocks[t as int].weak == w
    }
    &&& forall|w: u32, a: int, b: int| #[trigger] m.contains_key(w) && 0 <= a < b < m[w]@.len() ==> #[trigger] m[w]@[a] < #[trigger] m[w]@[b]
}

pub open spec fn index_has(m: Map<u32, Vec<usize>>, sig: SignatureView, k: int) -> bool {
    m.contains_key(sig.blocks[k].weak) && m[sig.blocks[k].weak]@.contains(k as usize)
}

fn build_index(sig: &Signature) -> (r: HashMap<u32, Vec<usize>>)
    ensures
        index_ok(r@, sig@),
{
    let mut m: HashMap<u32, Vec<usize>> = HashMap::new();
    let mut t: usize = 0;
    let n = sig.blocks.len();
    while t < n
        invariant
            n == sig.blocks@.len(),
            t <= n,
            forall|k: int| 0 <= k < t ==> #[trigger] index_has(m@, sig@, k),
            forall|w: u32, k: int| #[trigger] m@.contains_key(w) && 0 <= k < m@[w]@.len() ==> {
                let j = #[trigger] m@[w]@[k];
                j < t && sig@.blocks[j as int].weak == w
            },
            forall|w: u32, a: int, b: int| #[trigger] m@.contains_key(w) && 0 <= a < b < m@[w]@.len() ==> #[trigger] m@[w]@[a] < #[trigger] m@[w]@[b],
        decreases n - t,
    {
        let w = sig.blocks[t].weak;
        let ghost m_old = m@;
        let removed = m.remove(&w);
        let mut v = match removed {
            Some(v) => v,
            None => Vec::new(),
        };
        let ghost old_v = v@;
        assert(m_old.contains_key(w) ==> old_v == m_old[w]@);
        assert(!m_old.contains_key(w) ==> old_v.len() == 0);
        v.push(t);
        m.insert(w, v);
        proof {
            assert(m@ == m_old.remove(w).insert(w, v));
            assert(v@[v@.len() - 1] == t);
            assert forall|k: int| 0 <= k < t + 1 implies #[trigger] index_has(m@, sig@, k) by {
                if k == t {
                    assert(v@.contains(t));
                } else if sig@.blocks[k].weak == w {
                    assert(index_has(m_old, sig@, k));
                    assert(m_old.contains_key(w) && m_old[w]@.contains(k as usize));
                    let i = choose|i: int| 0 <= i < old_v.len() && old_v[i] == k as usize;
                    assert(v@[i] == k as usize);
                } else {
                    assert(index_has(m_old, sig@, k));
                    assert(m_old.contains_key(sig@.blocks[k].weak));
                }
            }
            assert forall|w2: u32, q: int| #[trigger] m@.contains_key(w2) && 0 <= q < m@[w2]@.len() implies {
                let j = #[trigger] m@[w2]@[q];
                j < t + 1 && sig@.blocks[j as int].weak == w2
            } by {
                if w2 == w {
                    if q < old_v.len() {
                        assert(m_old.contains_key(w));
                        assert(m_old[w]@[q] == old_v[q]);
                    }
                } else {
                    assert(m_old.contains_key(w2));
                    assert(m@[w2] == m_old[w2]);
                }
            }
            assert forall|w2: u32, a: int, b: int| #[trigger] m@.contains_key(w2) && 0 <= a < b < m@[w2]@.len()
                implies #[trigger] m@[w2]@[a] < #[trigger] m@[w2]@[b] by {
                if w2 == w {
                    if b < old_v.len() {
                        assert(m_old.contains_key(w));
                        assert(m_old[w]@[a] == old_v[a] && m_old[w]@[b] == old_v[b]);
                    } else {
                        assert(m_old.contains_key(w));
                        assert(m_old[w]@[a] == old_v[a]);
                        assert(old_v[a] < t);
                    }
                } else {
                    assert(m_old.contains_key(w2));
                    assert(m@[w2] == m_old[w2]);
                }
            }
        }
        t = t + 1;
    }
    m
}

/// The first block of `sig` listed under `weak` that matches `target[pos..pos + wl]`
/// in length and strong checksum.
fn find_block(sig: &Signature, index: &HashMap<u32, Vec<usize>>, target: &[u8], pos: usize, wl: usize, weak: u32) -> (r: Option<usize>)
    requires
        index_ok(index@, sig@),
        sig_wf(sig@),
        pos + wl <= target@.len(),
        weak == weak_sum(target@.subrange(pos as int, (pos + wl) as int)),
    ensures
        match r {
            Some(t) => t < sig@.blocks.len() && block_len(sig@.baseline_len, sig@.block_size, t as int) == wl
                && sig@.blocks[t as int].weak == weak
                && sig@.blocks[t as int].strong == sha1_digest_of(target@.subrange(pos as int, (pos + wl) as int))
                && forall|u: int| 0 <= u < t && block_len(sig@.baseline_len, sig@.block_size, u) == wl
                    && sig@.blocks[u].weak == weak
                    ==> sig@.blocks[u].strong != sha1_digest_of(target@.subrange(pos as int, (pos + wl) as int)),
            None => forall|t: int| 0 <= t < sig@.blocks.len() && block_len(sig@.baseline_len, sig@.block_size, t) == wl
                && sig@.blocks[t].weak == weak
                ==> sig@.blocks[t].strong != sha1_digest_of(target@.subrange(pos as int, (pos + wl) as int)),
        },
{
    let n = target.len();
    let nb = sig.blocks.len();
    match index.get(&weak) {
        None => {
            proof {
                assert forall|t: int| 0 <= t < sig@.blocks.len() && block_len(sig@.baseline_len, sig@.block_size, t) == wl
                    && sig@.blocks[t].weak == weak
                    implies sig@.blocks[t].strong != sha1_digest_of(target@.subrange(pos as int, (pos + wl) as int)) by {
                    assert(index_has(index@, sig@, t));
                }
            }
            None
        },
        Some(cands) => {
            let window = vstd::slice::slice_subrange(target, pos, pos + wl);
            let digest = sha1_digest(window);
            let mut k: usize = 0;
            while k < cands.len()
                invariant
                    index_ok(index@, sig@),
                    sig_wf(sig@),
                    pos + wl <= target@.len(),
                    nb == sig.blocks@.len(),
                    index@.contains_key(weak),
                    cands@ == index@[weak]@,
                    k <= cands@.len(),
                    digest@ == sha1_digest_of(target@.subrange(pos as int, (pos + wl) as int)),
                    forall|q: int| 0 <= q < k ==> {
                        let t = #[trigger] cands@[q] as int;
                        block_len(sig@.baseline_len, sig@.block_size, t) == wl
                            ==> sig@.blocks[t].strong != digest@
                    },
                decreases cands@.len() - k,
            {
                let t = cands[k];
                assert(t < sig@.blocks.len() && sig@.blocks[t as int].weak == weak);
                let blen = block_length(sig, t);
                if blen == wl && bytes_eq(sig.blocks[t].strong.as_slice(), digest.as_slice()) {
                    proof {
                        assert forall|u: int| 0 <= u < t && block_len(sig@.baseline_len, sig@.block_size, u) == wl
                            && sig@.blocks[u].weak == weak
                            implies sig@.blocks[u].strong != digest@ by {
                            assert(index_has(index@, sig@, u));
                            assert((u as usize) as int == u);
                            let q = choose|q: int| 0 <= q < cands@.len() && cands@[q] == u as usize;
                            if q >= k {
                                if q > k {
                                    assert(cands@[k as int] < cands@[q]);
                                }
                            }
                        }
                    }
                    return Some(t);
                }
                k = k + 1;
            }
            proof {
                assert forall|t: int| 0 <= t < sig@.blocks.len() && block_len(sig@.baseline_len, sig@.block_size, t) == wl
                    && sig@.blocks[t].weak == weak
                    implies sig@.blocks[t].strong != digest@ by {
                    assert(sig@.blocks.len() == sig.blocks@.len());
                    assert(t < sig.blocks@.len());
                    assert((t as usize) as int == t);
                    assert(index_has(index@, sig@, t));
                    assert(index@[sig@.blocks[t].weak]@.contains(t as usize));
                    let q = choose|q: int| 0 <= q < cands@.len() && cands@[q] == t as usize;
                    assert(cands@[q] as int == t);
                }
            }
            None
        },
    }
}

fn bytes_eq(a: &[u8], b: &[u8]) -> (r: bool)
    ensures
        r == (a@ == b@),
{
    if a.len() != b.len() {
        return false;
    }
    let mut i: usize = 0;
    while i < a.len()
        invariant
            a@.len() == b@.len(),
            i <= a@.len(),
            forall|j: int| 0 <= j < i ==> a@[j] == b@[j],
        decreases a@.len() - i,
    {
        if a[i] != b[i] {
            return false;
        }
        i = i + 1;
    }
    assert(a@ =~= b@);
    true
}

/// Length of block `t` of the baseline that `sig` describes.
fn block_length(sig: &Signature, t: usize) -> (r: usize)
    requires
        sig_wf(sig@),
        t < sig@.blocks.len(),
    ensures
        r == block_len(sig@.baseline_len, sig@.block_size, t as int),
        1 <= r <= sig@.block_size,
{
    proof {
        lemma_block_start(sig@.baseline_len, sig@.block_size, t as int);
    }
    let bs = sig.block_size as u64;
    let len = sig.baseline_len;
    let start = t as u64 * bs;
    if len - start >= bs {
        assert((t + 1) * bs == start + bs) by (nonlinear_arith)
            requires start == t * bs;
        bs as usize
    } else {
        assert((t + 1) * bs == start + bs) by (nonlinear_arith)
            requires start == t * bs;
        (len - start) as usize
    }
}

/// A signature as `signature` produces it: an accepted block size and one
/// block per started block of the baseline.
pub open spec fn sig_wf(sig: SignatureView) -> bool {
    &&& MIN_BLOCK_SIZE <= sig.block_size <= MAX_BLOCK_SIZE
    &&& sig.blocks.len() == block_count(sig.baseline_len, sig.block_size)
    &&& sig.baseline_len <= u64::MAX
}

pub proof fn lemma_block_start(len: nat, b: nat, t: int)
    requires
        b >= 1,
        0 <= t < block_count(len, b),
    ensures
        t * b < len,
        t * b + block_len(len, b, t) <= len,
        1 <= block_len(len, b, t) <= b,
        t < block_count(len, b) - 1 ==> block_len(len, b, t) == b,
        t == block_count(len, b) - 1 ==> t * b + block_len(len, b, t) == len,
{
    let c = block_count(len, b) as int;
    assert(c == (len + b - 1) as int / b as int);
    vstd::arithmetic::div_mod::lemma_fundamental_div_mod((len + b - 1) as int, b as int);
    let r = ((len + b - 1) as int) % (b as int);
    assert(0 <= r < b) by {
        vstd::arithmetic::div_mod::lemma_mod_bound((len + b - 1) as int, b as int);
    }
    assert(c * b == len + b - 1 - r) by (nonlinear_arith)
        requires (len + b - 1) as int == b * c + r;
    assert(t * b <= (c - 1) * b) by (nonlinear_arith)
        requires t <= c - 1, b >= 1;
    assert((c - 1) * b == c * b - b) by (nonlinear_arith);
    if t < c - 1 {
        assert((t + 1) * b <= (c - 1) * b) by (nonlinear_arith)
            requires t + 1 <= c - 1, b >= 1;
    }
    assert((t + 1) * b == t * b + b) by (nonlinear_arith);
}

} // verus!

verus! {

/// One unit of a delta, seen byte by byte: a whole baseline block, or one new byte.
pub ghost enum Step {
    Matched(int),
    Lit(u8),
}

/// Length of the window compared at `pos` of a stream of `n` bytes: one block,
/// or what is left.
pub open spec fn window_len(n: nat, b: nat, pos: int) -> int {
    if pos + b <= n { b as int } else { n - pos }
}

pub open spec fn window(sig: SignatureView, target: Seq<u8>, pos: int) -> Seq<u8> {
    target.subrange(pos, pos + window_len(target.len(), sig.block_size, pos))
}

/// Block `t` of the signature matches the window at `pos`: same length, same
/// weak and same strong checksum.
pub open spec fn block_matches(sig: SignatureView, target: Seq<u8>, pos: int, t: int) -> bool {
    &&& 0 <= t < sig.blocks.len()
    &&& block_len(sig.baseline_len, sig.block_size, t) == window_len(target.len(), sig.block_size, pos)
    &&& sig.blocks[t].weak == weak_sum(window(sig, target, pos))
    &&& sig.blocks[t].strong == sha1_digest_of(window(sig, target, pos))
}

pub open spec fn step_len(sig: SignatureView, st: Step) -> int {
    match st {
        Step::Matched(t) => block_len(sig.baseline_len, sig.block_size, t),
        Step::Lit(_) => 1,
    }
}

/// Number of bytes of the new stream that the steps stand for.
pub open spec fn consumed(sig: SignatureView, tr: Seq<Step>) -> int
    decreases tr.len(),
{
    if tr.len() == 0 {
        0
    } else {
        consumed(sig, tr.drop_last()) + step_len(sig, tr.last())
    }
}

/// A step at `pos` is sound: a matched block matches the window there, and no
/// block of lower index does; a new byte is the byte there, and no block
/// matches the window there.
pub open spec fn step_ok(sig: SignatureView, target: Seq<u8>, pos: int, st: Step) -> bool {
    &&& 0 <= pos < target.len()
    &&& match st {
        Step::Matched(t) => block_matches(sig, target, pos, t) && forall|u: int| 0 <= u < t ==> !block_matches(sig, target, pos, u),
        Step::Lit(x) => target[pos] == x && forall|t: int| !block_matches(sig, target, pos, t),
    }
}

pub open spec fn trace_prefix_ok(sig: SignatureView, target: Seq<u8>, tr: Seq<Step>) -> bool {
    forall|k: int| 0 <= k < tr.len() ==> step_ok(sig, target, consumed(sig, tr.take(k)), #[trigger] tr[k])
}

/// The steps describe all of `target`, each one soundly.
pub open spec fn trace_ok(sig: SignatureView, target: Seq<u8>, tr: Seq<Step>) -> bool {
    trace_prefix_ok(sig, target, tr) && consumed(sig, tr) == target.len()
}

proof fn lemma_trace_push(sig: SignatureView, target: Seq<u8>, tr: Seq<Step>, st: Step)
    requires
        trace_prefix_ok(sig, target, tr),
        step_ok(sig, target, consumed(sig, tr), st),
    ensures
        trace_prefix_ok(sig, target, tr.push(st)),
        consumed(sig, tr.push(st)) == consumed(sig, tr) + step_len(sig, st),
{
    let tr2 = tr.push(st);
    assert(tr2.drop_last() =~= tr);
    assert forall|k: int| 0 <= k < tr2.len() implies step_ok(sig, target, consumed(sig, tr2.take(k)), #[trigger] tr2[k]) by {
        if k < tr.len() {
            assert(tr2.take(k) =~= tr.take(k));
            assert(tr2[k] == tr[k]);
        } else {
            assert(tr2.take(k) =~= tr);
        }
    }
}

/// A delta chunk: a run of consecutive baseline blocks, or new bytes.
pub enum Chunk {
    Copy { block_index: u64, count: u64 },
    Literal(Vec<u8>),
}

pub ghost enum ChunkView {
    Copy(nat, nat),
    Literal(Seq<u8>),
}

impl View for Chunk {
    type V = ChunkView;

    open spec fn view(&self) -> ChunkView {
        match self {
            Chunk::Copy { block_index, count } => ChunkView::Copy(*block_index as nat, *count as nat),
            Chunk::Literal(v) => ChunkView::Literal(v@),
        }
    }
}

pub open spec fn chunks_view(cs: Seq<Chunk>) -> Seq<ChunkView> {
    cs.map_values(|c: Chunk| c@)
}

pub open spec fn lit_steps(b: Seq<u8>) -> Seq<Step> {
    Seq::new(b.len(), |k: int| Step::Lit(b[k]))
}

pub open spec fn chunk_steps(c: ChunkView) -> Seq<Step> {
    match c {
        ChunkView::Copy(j, n) => Seq::new(n, |k: int| Step::Matched(j + k)),
        ChunkView::Literal(b) => lit_steps(b),
    }
}

/// The chunks unfolded into steps.
pub open spec fn expand(cs: Seq<ChunkView>) -> Seq<Step>
    decreases cs.len(),
{
    if cs.len() == 0 {
        Seq::empty()
    } else {
        expand(cs.drop_last()) + chunk_steps(cs.last())
    }
}

/// A delta: the length of the new stream and its chunks.
pub struct Delta {
    pub new_len: u64,
    pub chunks: Vec<Chunk>,
}

/// Number of new bytes that a delta carries.
pub open spec fn literal_bytes(cs: Seq<ChunkView>) -> int
    decreases cs.len(),
{
    if cs.len() == 0 {
        0
    } else {
        literal_bytes(cs.drop_last()) + match cs.last() {
            ChunkView::Literal(b) => b.len() as int,
            ChunkView::Copy(_, _) => 0,
        }
    }
}

pub open spec fn copies_in_range(cs: Seq<ChunkView>, nb: nat) -> bool {
    forall|k: int| 0 <= k < cs.len() ==> match #[trigger] cs[k] {
        ChunkView::Copy(j, c) => c >= 1 && j + c <= nb,
        ChunkView::Literal(b) => 1 <= b.len() <= MAX_LITERAL,
    }
}

proof fn lemma_expand_push(cs: Seq<ChunkView>, c: ChunkView)
    ensures
        expand(cs.push(c)) == expand(cs) + chunk_steps(c),
{
    assert(cs.push(c).drop_last() =~= cs);
}

} // verus!

verus! {

/// Chunk `c` may follow chunk `prev`: a copy never continues the copy before
/// it, and new bytes follow new bytes only once the earlier chunk is full.
pub open spec fn may_follow(prev: ChunkView, c: ChunkView) -> bool {
    match c {
        ChunkView::Copy(j, _) => match prev {
            ChunkView::Copy(pj, pc) => pj + pc != j,
            ChunkView::Literal(_) => true,
        },
        ChunkView::Literal(_) => match prev {
            ChunkView::Literal(pb) => pb.len() == MAX_LITERAL,
            ChunkView::Copy(_, _) => true,
        },
    }
}

/// Adjacent copies and adjacent new bytes are merged as far as they can be.
pub open spec fn coalesced(cs: Seq<ChunkView>) -> bool {
    forall|k: int| 1 <= k < cs.len() ==> may_follow(cs[k - 1], #[trigger] cs[k])
}

/// A chunk of new bytes may be appended after `cs`.
pub open spec fn open_for_literal(cs: Seq<ChunkView>) -> bool {
    cs.len() > 0 ==> may_follow(cs.last(), ChunkView::Literal(Seq::empty()))
}

proof fn lemma_coalesced_push(cs: Seq<ChunkView>, c: ChunkView)
    requires
        coalesced(cs),
        cs.len() > 0 ==> may_follow(cs.last(), c),
    ensures
        coalesced(cs.push(c)),
{
    let cs2 = cs.push(c);
    assert forall|k: int| 1 <= k < cs2.len() implies may_follow(cs2[k - 1], #[trigger] cs2[k]) by {
        if k < cs.len() {
            assert(cs2[k] == cs[k] && cs2[k - 1] == cs[k - 1]);
        } else {
            assert(cs2[k - 1] == cs.last());
        }
    }
}

fn flush_literal(chunks: &mut Vec<Chunk>, lit: Vec<u8>, Ghost(nb): Ghost<nat>)
    requires
        1 <= lit@.len() <= MAX_LITERAL,
        copies_in_range(chunks_view(old(chunks)@), nb),
        coalesced(chunks_view(old(chunks)@)),
        open_for_literal(chunks_view(old(chunks)@)),
    ensures
        chunks_view(final(chunks)@) == chunks_view(old(chunks)@).push(ChunkView::Literal(lit@)),
        expand(chunks_view(final(chunks)@)) == expand(chunks_view(old(chunks)@)) + lit_steps(lit@),
        copies_in_range(chunks_view(final(chunks)@), nb),
        coalesced(chunks_view(final(chunks)@)),
        lit@.len() == MAX_LITERAL ==> open_for_literal(chunks_view(final(chunks)@)),
{
    let ghost lv = lit@;
    chunks.push(Chunk::Literal(lit));
    assert(chunks_view(chunks@) =~= chunks_view(old(chunks)@).push(ChunkView::Literal(lv)));
    proof {
        lemma_expand_push(chunks_view(old(chunks)@), ChunkView::Literal(lv));
        lemma_coalesced_push(chunks_view(old(chunks)@), ChunkView::Literal(lv));
    }
}

fn push_copy(chunks: &mut Vec<Chunk>, t: usize, Ghost(nb): Ghost<nat>)
    requires
        t < nb,
        nb <= usize::MAX,
        copies_in_range(chunks_view(old(chunks)@), nb),
        coalesced(chunks_view(old(chunks)@)),
    ensures
        expand(chunks_view(final(chunks)@)) == expand(chunks_view(old(chunks)@)).push(Step::Matched(t as int)),
        copies_in_range(chunks_view(final(chunks)@), nb),
        literal_bytes(chunks_view(final(chunks)@)) == literal_bytes(chunks_view(old(chunks)@)),
        coalesced(chunks_view(final(chunks)@)),
        open_for_literal(chunks_view(final(chunks)@)),
{
    let ghost cv0 = chunks_view(chunks@);
    let len = chunks.len();
    if len > 0 {
        let (j, c) = match &chunks[len - 1] {
            Chunk::Copy { block_index, count } => (*block_index, *count),
            Chunk::Literal(_) => (u64::MAX, 0),
        };
        if c > 0 && j <= t as u64 && t as u64 - j == c {
            proof {
                assert(cv0[len - 1] == ChunkView::Copy(j as nat, c as nat));
            }
            chunks.pop();
            chunks.push(Chunk::Copy { block_index: j, count: c + 1 });
            proof {
                let cv1 = chunks_view(chunks@);
                assert(cv1.drop_last() =~= cv0.drop_last());
                assert(cv0.drop_last().push(cv0.last()) =~= cv0);
                assert(chunk_steps(ChunkView::Copy(j as nat, (c + 1) as nat)) =~= chunk_steps(ChunkView::Copy(j as nat, c as nat)).push(Step::Matched(t as int)));
                assert(expand(cv1) == expand(cv1.drop_last()) + chunk_steps(cv1.last()));
                assert(expand(cv0) == expand(cv0.drop_last()) + chunk_steps(cv0.last()));
                assert(literal_bytes(cv1) == literal_bytes(cv1.drop_last()));
                assert(literal_bytes(cv0) == literal_bytes(cv0.drop_last()));
                assert forall|k: int| 0 <= k < cv1.len() implies match #[trigger] cv1[k] {
                    ChunkView::Copy(j, c) => c >= 1 && j + c <= nb,
                    ChunkView::Literal(b) => 1 <= b.len() <= MAX_LITERAL,
                } by {
                    if k < cv1.len() - 1 {
                        assert(cv1[k] == cv0[k]);
                    }
                }
                assert(expand(cv1) =~= expand(cv0).push(Step::Matched(t as int)));
                let d0 = cv0.drop_last();
                assert(coalesced(d0)) by {
                    assert forall|q: int| 1 <= q < d0.len() implies may_follow(d0[q - 1], #[trigger] d0[q]) by {
                        assert(d0[q] == cv0[q] && d0[q - 1] == cv0[q - 1]);
                    }
                }
                if d0.len() > 0 {
                    assert(d0.last() == cv0[len - 2]);
                    assert(may_follow(cv0[len - 2], cv0[len - 1]));
                }
                lemma_coalesced_push(d0, ChunkView::Copy(j as nat, (c + 1) as nat));
                assert(cv1 =~= d0.push(ChunkView::Copy(j as nat, (c + 1) as nat)));
            }
            return;
        }
    }
    chunks.push(Chunk::Copy { block_index: t as u64, count: 1 });
    proof {
        let cv1 = chunks_view(chunks@);
        assert(cv1 =~= cv0.push(ChunkView::Copy(t as nat, 1)));
        if cv0.len() > 0 {
            assert(cv0.last() == cv0[cv0.len() - 1]);
            if let ChunkView::Copy(pj, pc) = cv0.last() {
                assert(pc >= 1);
            }
        }
        lemma_coalesced_push(cv0, ChunkView::Copy(t as nat, 1));
        lemma_expand_push(cv0, ChunkView::Copy(t as nat, 1));
        assert(chunk_steps(ChunkView::Copy(t as nat, 1)) =~= seq![Step::Matched(t as int)]);
        assert(cv1.drop_last() =~= cv0);
        assert(expand(cv1) =~= expand(cv0).push(Step::Matched(t as int)));
        assert forall|k: int| 0 <= k < cv1.len() implies match #[trigger] cv1[k] {
            ChunkView::Copy(j, c) => c >= 1 && j + c <= nb,
            ChunkView::Literal(b) => 1 <= b.len() <= MAX_LITERAL,
        } by {
            if k < cv1.len() - 1 {
                assert(cv1[k] == cv0[k]);
            }
        }
    }
}

} // verus!

verus! {

/// The chunks that rebuild `target` from the baseline that `sig` describes:
/// at each position the window is looked up by weak checksum (rolled in
/// constant time between neighbouring positions) and confirmed by strong
/// checksum; a match becomes a copied block and the scan jumps past it, else
/// the byte becomes new data.
#[verifier::rlimit(80)]
pub fn delta(sig: &Signature, target: &[u8]) -> (r: Delta)
    requires
        sig_wf(sig@),
    ensures
        r.new_len == target@.len(),
        trace_ok(sig@, target@, expand(chunks_view(r.chunks@))),
        copies_in_range(chunks_view(r.chunks@), sig@.blocks.len()),
        coalesced(chunks_view(r.chunks@)),
{
    let n = target.len();
    let bs = sig.block_size as usize;
    let nb = sig.blocks.len();
    let ghost sv = sig@;
    let index = build_index(sig);
    let last_len: usize = if nb == 0 { 0 } else { block_length(sig, nb - 1) };
    let mut chunks: Vec<Chunk> = Vec::new();
    let mut lit: Vec<u8> = Vec::new();
    let ghost mut tr: Seq<Step> = Seq::empty();
    let mut i: usize = 0;
    let mut have = false;
    let mut a: u32 = 0;
    let mut b: u32 = 0;
    assert(chunks_view(chunks@) =~= Seq::<ChunkView>::empty());
    assert(lit_steps(lit@) =~= Seq::<Step>::empty());
    while i < n
        invariant
            n == target@.len(),
            sv == sig@,
            sig_wf(sv),
            bs == sv.block_size,
            nb == sv.blocks.len(),
            index_ok(index@, sv),
            nb > 0 ==> last_len == block_len(sv.baseline_len, sv.block_size, nb - 1),
            i <= n,
            tr == expand(chunks_view(chunks@)) + lit_steps(lit@),
            trace_prefix_ok(sv, target@, tr),
            consumed(sv, tr) == i,
            lit@.len() < MAX_LITERAL,
            copies_in_range(chunks_view(chunks@), nb as nat),
            coalesced(chunks_view(chunks@)),
            open_for_literal(chunks_view(chunks@)),
            have ==> i + bs <= n && a == byte_sum(target@.subrange(i as int, (i + bs) as int)) % 65536
                && b == weighted_sum(target@.subrange(i as int, (i + bs) as int)) % 65536,
        decreases n - i,
    {
        let wl = if n - i >= bs { bs } else { n - i };
        assert(wl == window_len(n as nat, bs as nat, i as int));
        let ghost win = target@.subrange(i as int, (i + wl) as int);
        let mut found: Option<usize> = None;
        if nb > 0 && (wl == bs || wl == last_len) {
            let (a0, b0) = if have { (a, b) } else { weak_parts(target, i, i + wl) };
            if wl == bs {
                a = a0;
                b = b0;
                have = true;
            }
            let weak = a0 + 65536 * b0;
            assert(weak == weak_sum(win));
            found = find_block(sig, &index, target, i, wl, weak);
        } else {
            have = false;
            proof {
                assert forall|t: int| !block_matches(sv, target@, i as int, t) by {
                    if 0 <= t < sv.blocks.len() {
                        lemma_block_start(sv.baseline_len, sv.block_size, t);
                    }
                }
            }
        }
        match found {
            Some(t) => {
                let ghost st = Step::Matched(t as int);
                proof {
                    assert(window(sv, target@, i as int) == win);
                    assert(block_matches(sv, target@, i as int, t as int));
                    assert forall|u: int| 0 <= u < t implies !block_matches(sv, target@, i as int, u) by {}
                    lemma_trace_push(sv, target@, tr, st);
                }
                if lit.len() > 0 {
                    let l = lit;
                    lit = Vec::new();
                    flush_literal(&mut chunks, l, Ghost(nb as nat));
                    assert(lit_steps(lit@) =~= Seq::<Step>::empty());
                }
                push_copy(&mut chunks, t, Ghost(nb as nat));
                proof {
                    tr = tr.push(st);
                    assert(tr =~= expand(chunks_view(chunks@)) + lit_steps(lit@));
                }
                i = i + wl;
                have = false;
            },
            None => {
                let x = target[i];
                let ghost st = Step::Lit(x);
                proof {
                    assert(window(sv, target@, i as int) == win);
                    assert forall|t: int| !block_matches(sv, target@, i as int, t) by {}
                    lemma_trace_push(sv, target@, tr, st);
                }
                let ghost lv = lit@;
                lit.push(x);
                proof {
                    tr = tr.push(st);
                    assert(lit_steps(lit@) =~= lit_steps(lv).push(st));
                    assert(tr =~= expand(chunks_view(chunks@)) + lit_steps(lit@));
                }
                if lit.len() == MAX_LITERAL {
                    let l = lit;
                    lit = Vec::new();
                    flush_literal(&mut chunks, l, Ghost(nb as nat));
                    assert(lit_steps(lit@) =~= Seq::<Step>::empty());
                    assert(tr =~= expand(chunks_view(chunks@)) + lit_steps(lit@));
                }
                if have && n - i > bs {
                    let (a1, b1) = roll(target, i, bs, a, b);
                    a = a1;
                    b = b1;
                } else {
                    have = false;
                }
                i = i + 1;
            },
        }
    }
    if lit.len() > 0 {
        flush_literal(&mut chunks, lit, Ghost(nb as nat));
    } else {
        assert(lit_steps(lit@) =~= Seq::<Step>::empty());
        assert(tr =~= expand(chunks_view(chunks@)));
    }
    Delta { new_len: n as u64, chunks }
}

} // verus!

verus! {

/// The bytes that steps stand for over baseline `base` with blocks of `b` bytes.
pub open spec fn restore_steps(base: Seq<u8>, b: nat, tr: Seq<Step>) -> Seq<u8>
    decreases tr.len(),
{
    if tr.len() == 0 {
        Seq::empty()
    } else {
        restore_steps(base, b, tr.drop_last()) + match tr.last() {
            Step::Matched(t) => block_of(base, b, t),
            Step::Lit(x) => seq![x],
        }
    }
}

/// Every copied run lies within the blocks of `base`.
pub open spec fn copies_fit(cs: Seq<ChunkView>, base_len: nat, b: nat) -> bool {
    forall|k: int| 0 <= k < cs.len() ==> match #[trigger] cs[k] {
        ChunkView::Copy(j, c) => c >= 1 && j + c <= block_count(base_len, b),
        ChunkView::Literal(_) => true,
    }
}

/// Why a delta could not be restored.
#[derive(PartialEq, Eq, Structural, Clone, Copy, Debug)]
pub enum RestoreError {
    /// A copied run reaches past the baseline's blocks.
    CopyOutOfRange,
    /// The restored stream does not have the length the delta announces.
    RestoreLengthMismatch,
}

pub proof fn lemma_restore_append(base: Seq<u8>, b: nat, t1: Seq<Step>, t2: Seq<Step>)
    ensures
        restore_steps(base, b, t1 + t2) == restore_steps(base, b, t1) + restore_steps(base, b, t2),
    decreases t2.len(),
{
    if t2.len() == 0 {
        assert(t1 + t2 =~= t1);
    } else {
        lemma_restore_append(base, b, t1, t2.drop_last());
        assert((t1 + t2).drop_last() =~= t1 + t2.drop_last());
    }
}

proof fn lemma_restore_literal(base: Seq<u8>, b: nat, bytes: Seq<u8>)
    ensures
        restore_steps(base, b, lit_steps(bytes)) == bytes,
    decreases bytes.len(),
{
    if bytes.len() > 0 {
        lemma_restore_literal(base, b, bytes.drop_last());
        assert(lit_steps(bytes).drop_last() =~= lit_steps(bytes.drop_last()));
        assert(bytes.drop_last() + seq![bytes.last()] =~= bytes);
    } else {
        assert(lit_steps(bytes).len() == 0);
        assert(bytes =~= Seq::<u8>::empty());
    }
}

pub open spec fn run_end(len: nat, b: nat, j: nat, c: nat) -> int {
    if (j + c) * b <= len { ((j + c) * b) as int } else { len as int }
}

proof fn lemma_restore_copy(base: Seq<u8>, b: nat, j: nat, c: nat)
    requires
        b >= 1,
        c >= 1,
        j + c <= block_count(base.len(), b),
    ensures
        j * b <= run_end(base.len(), b, j, c) <= base.len(),
        restore_steps(base, b, chunk_steps(ChunkView::Copy(j, c))) == base.subrange((j * b) as int, run_end(base.len(), b, j, c)),
    decreases c,
{
    let n = base.len();
    let t = (j + c - 1) as int;
    lemma_block_start(n, b, t);
    assert(chunk_steps(ChunkView::Copy(j, c)).last() == Step::Matched(t));
    assert((t + 1) * b == (j + c) * b);
    assert((t + 1) * b == t * b + b) by (nonlinear_arith);
    assert(run_end(n, b, j, c) == t * b + block_len(n, b, t));
    assert(j * b <= t * b) by (nonlinear_arith)
        requires t >= j, b >= 1;
    if c == 1 {
        assert(chunk_steps(ChunkView::Copy(j, c)).drop_last() =~= Seq::<Step>::empty());
        assert(restore_steps(base, b, Seq::<Step>::empty()) == Seq::<u8>::empty());
        assert(t == j);
        assert(block_of(base, b, t) =~= base.subrange((j * b) as int, run_end(n, b, j, c)));
        assert(Seq::<u8>::empty() + block_of(base, b, t) =~= block_of(base, b, t));
    } else {
        let c1 = (c - 1) as nat;
        lemma_restore_copy(base, b, j, c1);
        assert(chunk_steps(ChunkView::Copy(j, c)).drop_last() =~= chunk_steps(ChunkView::Copy(j, c1)));
        assert((j + c1) * b == t * b);
        assert(t * b == j * b + c1 * b) by (nonlinear_arith)
            requires t == j + c1;
        assert(j * b <= t * b) by (nonlinear_arith)
            requires t >= j, b >= 1;
        assert(t < block_count(n, b) - 1 || t == block_count(n, b) - 1);
        lemma_block_start(n, b, t - 1);
        assert(t * b == (t - 1) * b + b) by (nonlinear_arith);
        assert(run_end(n, b, j, c1) == t * b);
        assert(base.subrange((j * b) as int, t * b) + block_of(base, b, t) =~= base.subrange((j * b) as int, run_end(n, b, j, c)));
    }
}

/// Rebuilds the new stream from `d` and the baseline `base` with blocks of
/// `block_size` bytes.
pub fn restore(d: &Delta, block_size: u32, base: &[u8]) -> (r: Result<Vec<u8>, RestoreError>)
    requires
        MIN_BLOCK_SIZE <= block_size <= MAX_BLOCK_SIZE,
    ensures
        ({
            let cs = chunks_view(d.chunks@);
            let out = restore_steps(base@, block_size as nat, expand(cs));
            match r {
                Ok(v) => copies_fit(cs, base@.len(), block_size as nat) && out.len() == d.new_len && v@ == out,
                Err(RestoreError::CopyOutOfRange) => !copies_fit(cs, base@.len(), block_size as nat),
                Err(RestoreError::RestoreLengthMismatch) => copies_fit(cs, base@.len(), block_size as nat) && out.len() != d.new_len,
            }
        }),
{
    let bs = block_size as u64;
    let n = base.len();
    let count: u64 = if (n as u64) < bs { 0 } else { (n as u64 - 1) / bs + 1 };
    proof {
        if n >= bs {
            vstd::arithmetic::div_mod::lemma_div_plus_one(((n - 1) as int), bs as int);
        }
    }
    assert(count == block_count(n as nat, bs as nat));
    let ghost cs = chunks_view(d.chunks@);
    let mut out: Vec<u8> = Vec::new();
    let mut k: usize = 0;
    while k < d.chunks.len()
        invariant
            cs == chunks_view(d.chunks@),
            n == base@.len(),
            bs == block_size,
            MIN_BLOCK_SIZE <= block_size <= MAX_BLOCK_SIZE,
            count == block_count(n as nat, bs as nat),
            k <= cs.len(),
            copies_fit(cs.take(k as int), n as nat, bs as nat),
            out@ == restore_steps(base@, bs as nat, expand(cs.take(k as int))),
        decreases cs.len() - k,
    {
        let ghost prev = cs.take(k as int);
        proof {
            assert(cs.take(k as int + 1).drop_last() =~= prev);
            assert(cs.take(k as int + 1).last() == cs[k as int]);
            lemma_restore_append(base@, bs as nat, expand(prev), chunk_steps(cs[k as int]));
        }
        match &d.chunks[k] {
            Chunk::Copy { block_index, count: c } => {
                let j = *block_index;
                let c = *c;
                if c == 0 || j > count || c > count - j {
                    proof {
                        assert(cs[k as int] == ChunkView::Copy(j as nat, c as nat));
                    }
                    return Err(RestoreError::CopyOutOfRange);
                }
                proof {
                    lemma_restore_copy(base@, bs as nat, j as nat, c as nat);
                    lemma_block_start(n as nat, bs as nat, count - 1);
                    assert((j + c) * bs <= count * bs) by (nonlinear_arith)
                        requires j + c <= count;
                    assert(count * bs == (count - 1) * bs + bs) by (nonlinear_arith);
                    assert(j * bs <= n) by (nonlinear_arith)
                        requires j * bs <= run_end(n as nat, bs as nat, j as nat, c as nat), run_end(n as nat, bs as nat, j as nat, c as nat) <= n;
                }
                let start = (j * bs) as usize;
                proof {
                    if j + c < count {
                        lemma_block_start(n as nat, bs as nat, (j + c) as int);
                    } else {
                        assert(count * bs >= n) by (nonlinear_arith)
                            requires (count - 1) * bs + block_len(n as nat, bs as nat, count - 1) == n,
                                block_len(n as nat, bs as nat, count - 1) <= bs,
                                count * bs == (count - 1) * bs + bs;
                    }
                }
                let end: usize = if j + c < count { ((j + c) * bs) as usize } else { n };
                assert(end == run_end(n as nat, bs as nat, j as nat, c as nat));
                out.extend_from_slice(vstd::slice::slice_subrange(base, start, end));
            },
            Chunk::Literal(bytes) => {
                proof {
                    lemma_restore_literal(base@, bs as nat, bytes@);
                }
                out.extend_from_slice(bytes.as_slice());
            },
        }
        proof {
            assert(copies_fit(cs.take(k as int + 1), n as nat, bs as nat)) by {
                assert forall|q: int| 0 <= q < k + 1 implies match #[trigger] cs.take(k as int + 1)[q] {
                    ChunkView::Copy(j, c) => c >= 1 && j + c <= block_count(n as nat, bs as nat),
                    ChunkView::Literal(_) => true,
                } by {
                    if q < k {
                        assert(cs.take(k as int + 1)[q] == prev[q]);
                    }
                }
            }
        }
        k = k + 1;
    }
    assert(cs.take(cs.len() as int) =~= cs);
    if out.len() as u64 != d.new_len {
        return Err(RestoreError::RestoreLengthMismatch);
    }
    Ok(out)
}

} // verus!

verus! {

/// SHA-1 tells apart every two different stretches of `s`.
pub open spec fn no_strong_collision(s: Seq<u8>) -> bool {
    forall|i1: int, j1: int, i2: int, j2: int|
        0 <= i1 <= j1 <= s.len() && 0 <= i2 <= j2 <= s.len()
            && #[trigger] sha1_digest_of(s.subrange(i1, j1)) == #[trigger] sha1_digest_of(s.subrange(i2, j2))
            ==> s.subrange(i1, j1) == s.subrange(i2, j2)
}

/// Number of new bytes among the steps.
pub open spec fn lit_count(tr: Seq<Step>) -> int
    decreases tr.len(),
{
    if tr.len() == 0 {
        0
    } else {
        lit_count(tr.drop_last()) + if tr.last() is Lit { 1int } else { 0int }
    }
}

proof fn lemma_prefix_ok_drop_last(sig: SignatureView, target: Seq<u8>, tr: Seq<Step>)
    requires
        tr.len() > 0,
        trace_prefix_ok(sig, target, tr),
    ensures
        trace_prefix_ok(sig, target, tr.drop_last()),
        step_ok(sig, target, consumed(sig, tr.drop_last()), tr.last()),
{
    let d = tr.drop_last();
    assert forall|k: int| 0 <= k < d.len() implies step_ok(sig, target, consumed(sig, d.take(k)), #[trigger] d[k]) by {
        assert(d.take(k) =~= tr.take(k));
        assert(tr[k] == d[k]);
    }
    assert(tr.take(tr.len() - 1) =~= d);
    assert(step_ok(sig, target, consumed(sig, tr.take(tr.len() - 1)), tr[tr.len() - 1]));
}

proof fn lemma_lit_count_append(a: Seq<Step>, b: Seq<Step>)
    ensures
        lit_count(a + b) == lit_count(a) + lit_count(b),
    decreases b.len(),
{
    if b.len() == 0 {
        assert(a + b =~= a);
    } else {
        lemma_lit_count_append(a, b.drop_last());
        assert((a + b).drop_last() =~= a + b.drop_last());
    }
}

proof fn lemma_lit_count_chunk(c: ChunkView)
    ensures
        lit_count(chunk_steps(c)) == match c {
            ChunkView::Literal(b) => b.len() as int,
            ChunkView::Copy(_, _) => 0,
        },
    decreases match c {
        ChunkView::Literal(b) => b.len(),
        ChunkView::Copy(_, n) => n,
    },
{
    match c {
        ChunkView::Literal(b) => {
            if b.len() > 0 {
                lemma_lit_count_chunk(ChunkView::Literal(b.drop_last()));
                assert(lit_steps(b).drop_last() =~= lit_steps(b.drop_last()));
            }
        },
        ChunkView::Copy(j, n) => {
            if n > 0 {
                lemma_lit_count_chunk(ChunkView::Copy(j, (n - 1) as nat));
                assert(chunk_steps(c).drop_last() =~= chunk_steps(ChunkView::Copy(j, (n - 1) as nat)));
            }
        },
    }
}

/// The new bytes a delta carries are its literal steps.
pub proof fn lemma_literal_bytes_are_lit_steps(cs: Seq<ChunkView>)
    ensures
        literal_bytes(cs) == lit_count(expand(cs)),
    decreases cs.len(),
{
    if cs.len() > 0 {
        lemma_literal_bytes_are_lit_steps(cs.drop_last());
        lemma_lit_count_append(expand(cs.drop_last()), chunk_steps(cs.last()));
        lemma_lit_count_chunk(cs.last());
    }
}

/// At a block boundary `p` inside the common part of `s` and `t`, the block of
/// `s` that starts there matches the window of `t` there.
proof fn lemma_aligned_block_matches(s: Seq<u8>, t: Seq<u8>, b: nat, m: nat, p: int)
    requires
        b >= 1,
        s.len() >= b,
        m <= s.len(),
        m <= t.len(),
        t.subrange(0, m as int) == s.subrange(0, m as int),
        p % (b as int) == 0,
        0 <= p < t.len(),
        p + b <= m || (t == s && m == s.len()),
    ensures
        block_matches(signature_of(s, b), t, p, p / (b as int)),
{
    let sig = signature_of(s, b);
    let k = p / (b as int);
    vstd::arithmetic::div_mod::lemma_fundamental_div_mod(p, b as int);
    assert(k * b == p) by (nonlinear_arith)
        requires p == b * (p / (b as int)) + p % (b as int), p % (b as int) == 0, k == p / (b as int);
    assert(k >= 0) by (nonlinear_arith)
        requires k * b == p, p >= 0, b >= 1;
    assert((k + 1) * b == p + b) by (nonlinear_arith)
        requires k * b == p;
    let c = block_count(s.len(), b) as int;
    assert((k + 1) * b <= s.len() + b - 1);
    vstd::arithmetic::div_mod::lemma_div_is_ordered((k + 1) * b, (s.len() + b - 1) as int, b as int);
    vstd::arithmetic::div_mod::lemma_div_multiples_vanish(k + 1, b as int);
    assert(b * (k + 1) == (k + 1) * b) by (nonlinear_arith);
    assert(k < c);
    let wl = window_len(t.len(), b, p);
    if p + b <= m {
        assert(wl == b);
        assert(block_len(s.len(), b, k) == b);
        assert(block_of(s, b, k) == s.subrange(p, p + b));
        assert(block_of(s, b, k) =~= t.subrange(p, p + wl)) by {
            assert forall|i: int| 0 <= i < b implies block_of(s, b, k)[i] == t.subrange(p, p + wl)[i] by {
                assert(s.subrange(0, m as int)[p + i] == t.subrange(0, m as int)[p + i]);
                assert(t[p + i] == t.subrange(0, m as int)[p + i]);
                assert(s[p + i] == s.subrange(0, m as int)[p + i]);
            }
        }
    } else {
        assert(block_of(s, b, k) =~= t.subrange(p, p + wl));
    }
    assert(sig.blocks[k] == BlockSigView { weak: weak_sum(block_of(s, b, k)), strong: sha1_digest_of(block_of(s, b, k)) });
}

#[verifier::rlimit(100)]
proof fn lemma_trace_literals(s: Seq<u8>, t: Seq<u8>, b: nat, m: nat, tr: Seq<Step>)
    requires
        b >= 1,
        s.len() >= b,
        m <= s.len(),
        m <= t.len(),
        t.subrange(0, m as int) == s.subrange(0, m as int),
        trace_prefix_ok(signature_of(s, b), t, tr),
    ensures
        lit_count(tr) == 0 ==> (consumed(signature_of(s, b), tr) % (b as int) == 0 || consumed(signature_of(s, b), tr) == t.len()),
        lit_count(tr) > 0 ==> lit_count(tr) + m < consumed(signature_of(s, b), tr) + b,
        t == s && m == s.len() ==> lit_count(tr) == 0,
        lit_count(tr) >= 0,
    decreases tr.len(),
{
    let sig = signature_of(s, b);
    if tr.len() > 0 {
        let d = tr.drop_last();
        lemma_prefix_ok_drop_last(sig, t, tr);
        lemma_trace_literals(s, t, b, m, d);
        let p = consumed(sig, d);
        match tr.last() {
            Step::Matched(k) => {
                let wl = window_len(t.len(), b, p);
                if lit_count(d) == 0 && p % (b as int) == 0 && p + b <= t.len() {
                    vstd::arithmetic::div_mod::lemma_mod_add_multiples_vanish(p, b as int);
                }
            },
            Step::Lit(x) => {
                if lit_count(d) == 0 {
                    if p + b <= m || (t == s && m == s.len()) {
                        lemma_aligned_block_matches(s, t, b, m, p);
                    }
                }
            },
        }
    }
}

/// Restoring a stream's own delta against the stream gives it back, wherever
/// SHA-1 tells its stretches apart: every copied block is the stretch it
/// stands for, and every copied run lies within the baseline.
pub proof fn lemma_round_trip(s: Seq<u8>, b: nat, cs: Seq<ChunkView>)
    requires
        MIN_BLOCK_SIZE <= b <= MAX_BLOCK_SIZE,
        trace_ok(signature_of(s, b), s, expand(cs)),
        copies_in_range(cs, block_count(s.len(), b)),
        no_strong_collision(s),
    ensures
        copies_fit(cs, s.len(), b),
        restore_steps(s, b, expand(cs)) == s,
{
    lemma_restore_against_baseline(s, s, b, cs);
}

#[verifier::rlimit(100)]
proof fn lemma_restore_prefix(l: Seq<u8>, r: Seq<u8>, b: nat, tr: Seq<Step>)
    requires
        MIN_BLOCK_SIZE <= b <= MAX_BLOCK_SIZE,
        trace_prefix_ok(signature_of(l, b), r, tr),
        no_strong_collision_between(l, r),
    ensures
        0 <= consumed(signature_of(l, b), tr) <= r.len(),
        restore_steps(l, b, tr) == r.subrange(0, consumed(signature_of(l, b), tr)),
    decreases tr.len(),
{
    let sig = signature_of(l, b);
    if tr.len() == 0 {
        assert(r.subrange(0, 0) =~= Seq::<u8>::empty());
    } else {
        let d = tr.drop_last();
        lemma_prefix_ok_drop_last(sig, r, tr);
        lemma_restore_prefix(l, r, b, d);
        let p = consumed(sig, d);
        match tr.last() {
            Step::Matched(k) => {
                let wl = window_len(r.len(), b, p);
                lemma_block_start(l.len(), b, k);
                assert(sig.blocks[k].strong == sha1_digest_of(block_of(l, b, k)));
                let e = if (k + 1) * b <= l.len() { (k + 1) * b } else { l.len() as int };
                assert((k + 1) * b == k * b + b) by (nonlinear_arith);
                assert(0 <= k * b) by (nonlinear_arith)
                    requires k >= 0, b >= 1;
                assert(0 <= k * b <= e <= l.len());
                assert(0 <= p <= p + wl <= r.len());
                assert(block_of(l, b, k) == l.subrange(k * b, e));
                assert(sha1_digest_of(l.subrange(k * b, e)) == sha1_digest_of(r.subrange(p, p + wl)));
                assert(l.subrange(k * b, e) == r.subrange(p, p + wl));
                assert(r.subrange(0, p) + r.subrange(p, p + wl) =~= r.subrange(0, p + wl));
            },
            Step::Lit(x) => {
                assert(r.subrange(0, p) + seq![x] =~= r.subrange(0, p + 1));
            },
        }
    }
}

/// SHA-1 tells apart every stretch of `l` from every stretch of `r` that
/// differs from it.
pub open spec fn no_strong_collision_between(l: Seq<u8>, r: Seq<u8>) -> bool {
    forall|i1: int, j1: int, i2: int, j2: int|
        0 <= i1 <= j1 <= l.len() && 0 <= i2 <= j2 <= r.len()
            && #[trigger] sha1_digest_of(l.subrange(i1, j1)) == #[trigger] sha1_digest_of(r.subrange(i2, j2))
            ==> l.subrange(i1, j1) == r.subrange(i2, j2)
}

/// Restoring, against baseline `l`, the delta of a new stream `r` computed
/// from `l`'s signature gives `r` back, wherever SHA-1 tells stretches of `l`
/// and `r` apart: every copied block is the stretch of `r` it stands for, and
/// every copied run lies within the baseline.
pub proof fn lemma_restore_against_baseline(l: Seq<u8>, r: Seq<u8>, b: nat, cs: Seq<ChunkView>)
    requires
        MIN_BLOCK_SIZE <= b <= MAX_BLOCK_SIZE,
        trace_ok(signature_of(l, b), r, expand(cs)),
        copies_in_range(cs, block_count(l.len(), b)),
        no_strong_collision_between(l, r),
    ensures
        copies_fit(cs, l.len(), b),
        restore_steps(l, b, expand(cs)) == r,
        restore_steps(l, b, expand(cs)).len() == r.len(),
{
    lemma_restore_prefix(l, r, b, expand(cs));
    assert(r.subrange(0, r.len() as int) =~= r);
}

/// The delta of a stream against its own signature carries no new bytes,
/// unless the stream is shorter than one block and so has no blocks at all.
pub proof fn lemma_self_delta_has_no_literals(s: Seq<u8>, b: nat, cs: Seq<ChunkView>)
    requires
        MIN_BLOCK_SIZE <= b <= MAX_BLOCK_SIZE,
        s.len() >= b || s.len() == 0,
        trace_ok(signature_of(s, b), s, expand(cs)),
    ensures
        literal_bytes(cs) == 0,
{
    lemma_literal_bytes_are_lit_steps(cs);
    if s.len() >= b {
        assert(s.subrange(0, s.len() as int) == s.subrange(0, s.len() as int));
        lemma_trace_literals(s, s, b, s.len(), expand(cs));
    } else {
        lemma_no_steps_on_empty(signature_of(s, b), s, expand(cs));
    }
}

proof fn lemma_no_steps_on_empty(sig: SignatureView, s: Seq<u8>, tr: Seq<Step>)
    requires
        s.len() == 0,
        trace_prefix_ok(sig, s, tr),
    ensures
        tr.len() == 0,
        lit_count(tr) == 0,
{
    if tr.len() > 0 {
        assert(step_ok(sig, s, consumed(sig, tr.take(0)), tr[0]));
    }
}

/// Where a stream keeps the first `m` bytes of the baseline and changes only
/// what follows, its delta carries fewer than `new length - m + block size`
/// new bytes.
pub proof fn lemma_tail_change_delta_is_small(s: Seq<u8>, t: Seq<u8>, b: nat, m: nat, cs: Seq<ChunkView>)
    requires
        MIN_BLOCK_SIZE <= b <= MAX_BLOCK_SIZE,
        s.len() >= b,
        m <= s.len(),
        m <= t.len(),
        t.subrange(0, m as int) == s.subrange(0, m as int),
        trace_ok(signature_of(s, b), t, expand(cs)),
    ensures
        literal_bytes(cs) < t.len() - m + b,
{
    lemma_literal_bytes_are_lit_steps(cs);
    lemma_trace_literals(s, t, b, m, expand(cs));
}

} // verus!

verus! {

/// No two blocks of `s` share a strong digest.
pub open spec fn distinct_block_digests(s: Seq<u8>, b: nat) -> bool {
    forall|u: int, k: int|
        0 <= u < k < block_count(s.len(), b) ==> #[trigger] sha1_digest_of(block_of(s, b, u)) != #[trigger] sha1_digest_of(block_of(s, b, k))
}

proof fn lemma_expand_front(cs: Seq<ChunkView>)
    requires
        cs.len() >= 1,
    ensures
        expand(cs) == chunk_steps(cs[0]) + expand(cs.drop_first()),
    decreases cs.len(),
{
    if cs.len() == 1 {
        assert(cs.drop_last() =~= Seq::<ChunkView>::empty());
        assert(cs.drop_first() =~= Seq::<ChunkView>::empty());
        assert(expand(cs.drop_last()) == Seq::<Step>::empty());
        assert(expand(cs.drop_first()) == Seq::<Step>::empty());
        assert(cs.last() == cs[0]);
        assert(expand(cs) =~= chunk_steps(cs[0]) + expand(cs.drop_first()));
    } else {
        let d = cs.drop_last();
        lemma_expand_front(d);
        assert(d.drop_first() =~= cs.drop_first().drop_last());
        assert(cs.drop_first().last() == cs.last());
        assert(d[0] == cs[0]);
        assert(expand(cs.drop_first()) == expand(cs.drop_first().drop_last()) + chunk_steps(cs.drop_first().last()));
        assert(expand(cs) =~= chunk_steps(cs[0]) + expand(cs.drop_first()));
    }
}

/// Along the common prefix, block `i` is matched at position `i * b`.
#[verifier::rlimit(100)]
proof fn lemma_prefix_steps(s: Seq<u8>, t: Seq<u8>, b: nat, m: nat, tr: Seq<Step>, j: int)
    requires
        b >= 1,
        s.len() >= b,
        m <= s.len(),
        m <= t.len(),
        t.subrange(0, m as int) == s.subrange(0, m as int),
        distinct_block_digests(s, b),
        trace_prefix_ok(signature_of(s, b), t, tr),
        0 <= j <= tr.len(),
        j <= (m as int) / (b as int),
    ensures
        consumed(signature_of(s, b), tr.take(j)) == j * b,
        forall|i: int| 0 <= i < j ==> tr[i] == Step::Matched(i),
    decreases j,
{
    let sig = signature_of(s, b);
    if j == 0 {
        assert(tr.take(0) =~= Seq::<Step>::empty());
        assert(consumed(sig, tr.take(0)) == 0);
        assert(j * b == 0) by (nonlinear_arith)
            requires j == 0;
    } else {
        lemma_prefix_steps(s, t, b, m, tr, j - 1);
        let i = j - 1;
        let p = i * b;
        assert(tr.take(j).drop_last() =~= tr.take(i));
        assert(tr.take(j).last() == tr[i]);
        assert(step_ok(sig, t, consumed(sig, tr.take(i)), tr[i]));
        vstd::arithmetic::div_mod::lemma_fundamental_div_mod(m as int, b as int);
        vstd::arithmetic::div_mod::lemma_mod_bound(m as int, b as int);
        assert(j * b <= m) by (nonlinear_arith)
            requires j <= (m as int) / (b as int), b >= 1, m as int == b * ((m as int) / (b as int)) + (m as int) % (b as int),
                (m as int) % (b as int) >= 0;
        assert((i + 1) * b == p + b) by (nonlinear_arith)
            requires p == i * b;
        assert(p >= 0) by (nonlinear_arith)
            requires i >= 0, b >= 1, p == i * b;
        vstd::arithmetic::div_mod::lemma_mod_multiples_basic(i, b as int);
        assert(p % (b as int) == 0);
        lemma_aligned_block_matches(s, t, b, m, p);
        assert(p / (b as int) == i) by {
            vstd::arithmetic::div_mod::lemma_div_multiples_vanish(i, b as int);
            assert(b * i == p) by (nonlinear_arith)
                requires p == i * b;
        }
        assert(block_matches(sig, t, p, i));
        lemma_block_start(s.len(), b, i);
        match tr[i] {
            Step::Matched(u) => {
                if u != i {
                    assert(u < i);
                    assert(0 <= u);
                    assert(sig.blocks[u].strong == sig.blocks[i].strong);
                }
            },
            Step::Lit(x) => {},
        }
        assert(tr[i] == Step::Matched(i));
        assert(block_len(s.len(), b, i) == b);
        assert(consumed(sig, tr.take(j)) == consumed(sig, tr.take(j).drop_last()) + step_len(sig, tr.take(j).last()));
        assert(step_len(sig, tr[i]) == b);
        assert(j * b == i * b + b) by (nonlinear_arith)
            requires j == i + 1;
    }
}

proof fn lemma_first_chunk(cs: Seq<ChunkView>, nb: nat, q: int)
    requires
        coalesced(cs),
        copies_in_range(cs, nb),
        q >= 1,
        expand(cs).len() >= q,
        forall|i: int| 0 <= i < q ==> expand(cs)[i] == Step::Matched(i),
    ensures
        cs.len() >= 1,
        cs[0] matches ChunkView::Copy(j, c) && j == 0 && c >= q,
{
    let tr = expand(cs);
    if cs.len() == 0 {
        assert(tr.len() == 0);
    }
    lemma_expand_front(cs);
    let c0 = cs[0];
    assert(tr[0] == Step::Matched(0));
    match c0 {
        ChunkView::Literal(lb) => {
            assert(lb.len() >= 1);
            assert(chunk_steps(c0)[0] == Step::Lit(lb[0]));
            assert(tr[0] == chunk_steps(c0)[0]);
        },
        ChunkView::Copy(j, c) => {
            assert(c >= 1);
            assert(chunk_steps(c0).len() == c);
            assert(tr[0] == chunk_steps(c0)[0]);
            assert(j == 0);
            if c < q {
                let rest = cs.drop_first();
                assert(tr[c as int] == Step::Matched(c as int));
                assert(tr[c as int] == expand(rest)[0]);
                if rest.len() == 0 {
                    assert(expand(rest).len() == 0);
                }
                lemma_expand_front(rest);
                assert(rest[0] == cs[1]);
                assert(cs[1] == cs[1]);
                assert(may_follow(cs[0], cs[1]));
                match cs[1] {
                    ChunkView::Copy(j1, c1) => {
                        assert(c1 >= 1);
                        assert(expand(rest)[0] == chunk_steps(cs[1])[0]);
                    },
                    ChunkView::Literal(lb1) => {
                        assert(lb1.len() >= 1);
                        assert(expand(rest)[0] == chunk_steps(cs[1])[0]);
                    },
                }
            }
        },
    }
}

/// Where a new stream keeps the first `m` bytes of a baseline whose blocks
/// have distinct digests, its delta starts with one copy of all the
/// baseline's blocks that lie within those `m` bytes: the unchanged part
/// costs a single chunk, whatever its length.
pub proof fn lemma_common_prefix_is_one_copy(s: Seq<u8>, t: Seq<u8>, b: nat, m: nat, cs: Seq<ChunkView>)
    requires
        MIN_BLOCK_SIZE <= b <= MAX_BLOCK_SIZE,
        s.len() >= b,
        b <= m <= s.len(),
        m <= t.len(),
        t.subrange(0, m as int) == s.subrange(0, m as int),
        distinct_block_digests(s, b),
        trace_ok(signature_of(s, b), t, expand(cs)),
        copies_in_range(cs, block_count(s.len(), b)),
        coalesced(cs),
    ensures
        cs.len() >= 1,
        cs[0] matches ChunkView::Copy(j, c) && j == 0 && c >= (m as int) / (b as int),
{
    let tr = expand(cs);
    let q = (m as int) / (b as int);
    vstd::arithmetic::div_mod::lemma_fundamental_div_mod(m as int, b as int);
    vstd::arithmetic::div_mod::lemma_mod_bound(m as int, b as int);
    vstd::arithmetic::div_mod::lemma_div_is_ordered(b as int, m as int, b as int);
    vstd::arithmetic::div_mod::lemma_div_by_self(b as int);
    assert(q >= 1);
    assert(q * b <= m) by (nonlinear_arith)
        requires m as int == b * q + (m as int) % (b as int), (m as int) % (b as int) >= 0;
    if tr.len() < q {
        lemma_prefix_steps(s, t, b, m, tr, tr.len() as int);
        assert(tr.take(tr.len() as int) =~= tr);
        assert(tr.len() * b < q * b) by (nonlinear_arith)
            requires tr.len() < q, b >= 1;
    }
    lemma_prefix_steps(s, t, b, m, tr, q);
    lemma_first_chunk(cs, block_count(s.len(), b), q);
}

} // verus!
