//! SHA-256, written out against its definition: every function here is proved
//! to compute the spec functions of this module.

use vstd::prelude::*;

verus! {

/// The running state: eight 32-bit words.
pub type State = [u32; 8];

/// One 64-byte block of input.
pub type Block = [u8; 64];

/// Initial state words.
pub const H0: State = [
    0x6a09e667, 0xbb67ae85, 0x3c6ef372, 0xa54ff53a,
    0x510e527f, 0x9b05688c, 0x1f83d9ab, 0x5be0cd19,
];

/// Round constants.
pub const K: [u32; 64] = [
    0x428a2f98, 0x71374491, 0xb5c0fbcf, 0xe9b5dba5, 0x3956c25b, 0x59f111f1, 0x923f82a4,
    0xab1c5ed5, 0xd807aa98, 0x12835b01, 0x243185be, 0x550c7dc3, 0x72be5d74, 0x80deb1fe,
    0x9bdc06a7, 0xc19bf174, 0xe49b69c1, 0xefbe4786, 0x0fc19dc6, 0x240ca1cc, 0x2de92c6f,
    0x4a7484aa, 0x5cb0a9dc, 0x76f988da, 0x983e5152, 0xa831c66d, 0xb00327c8, 0xbf597fc7,
    0xc6e00bf3, 0xd5a79147, 0x06ca6351, 0x14292967, 0x27b70a85, 0x2e1b2138, 0x4d2c6dfc,
    0x53380d13, 0x650a7354, 0x766a0abb, 0x81c2c92e, 0x92722c85, 0xa2bfe8a1, 0xa81a664b,
    0xc24b8b70, 0xc76c51a3, 0xd192e819, 0xd6990624, 0xf40e3585, 0x106aa070, 0x19a4c116,
    0x1e376c08, 0x2748774c, 0x34b0bcb5, 0x391c0cb3, 0x4ed8aa4a, 0x5b9cca4f, 0x682e6ff3,
    0x748f82ee, 0x78a5636f, 0x84c87814, 0x8cc70208, 0x90befffa, 0xa4506ceb, 0xbef9a3f7,
    0xc67178f2,
];

// ---------------------------------------------------------------------------
// The definition

/// Addition modulo 2^32.
pub open spec fn add32(a: u32, b: u32) -> u32 {
    ((a + b) % 0x1_0000_0000) as u32
}

/// Right rotation by `n` bits, for `0 < n < 32`.
pub open spec fn rotr(x: u32, n: u32) -> u32 {
    (x >> n) | (x << (32 - n) as u32)
}

pub open spec fn spec_sig0(x: u32) -> u32 {
    rotr(x, 7) ^ rotr(x, 18) ^ (x >> 3u32)
}

pub open spec fn spec_sig1(x: u32) -> u32 {
    rotr(x, 17) ^ rotr(x, 19) ^ (x >> 10u32)
}

pub open spec fn spec_sum0(x: u32) -> u32 {
    rotr(x, 2) ^ rotr(x, 13) ^ rotr(x, 22)
}

pub open spec fn spec_sum1(x: u32) -> u32 {
    rotr(x, 6) ^ rotr(x, 11) ^ rotr(x, 25)
}

pub open spec fn spec_choice(x: u32, y: u32, z: u32) -> u32 {
    (x & y) ^ (!x & z)
}

pub open spec fn spec_major(x: u32, y: u32, z: u32) -> u32 {
    (x & y) ^ (x & z) ^ (y & z)
}

/// The big-endian word made of the four bytes of `b` from index `i`.
pub open spec fn be_word(b: Seq<u8>, i: int) -> u32 {
    (b[i] as int * 0x100_0000 + b[i + 1] as int * 0x1_0000 + b[i + 2] as int * 0x100
        + b[i + 3] as int) as u32
}

/// The sixteen words of block `n` of `data`.
pub open spec fn block_words(data: Seq<u8>, n: int) -> Seq<u32> {
    Seq::new(16, |i: int| be_word(data, 64 * n + 4 * i))
}

/// Word `t` of the message schedule of a block with words `w`.
pub open spec fn schedule(w: Seq<u32>, t: nat) -> u32
    decreases t,
{
    if t < 16 {
        w[t as int]
    } else {
        add32(
            spec_sig1(schedule(w, (t - 2) as nat)),
            add32(
                schedule(w, (t - 7) as nat),
                add32(spec_sig0(schedule(w, (t - 15) as nat)), schedule(w, (t - 16) as nat)),
            ),
        )
    }
}

/// One round on the working registers `r` (a to h), with constant `k` and schedule word `w`.
pub open spec fn round(r: Seq<u32>, k: u32, w: u32) -> Seq<u32> {
    let t1 = add32(r[7], add32(spec_sum1(r[4]), add32(spec_choice(r[4], r[5], r[6]), add32(k, w))));
    let t2 = add32(spec_sum0(r[0]), spec_major(r[0], r[1], r[2]));
    seq![add32(t1, t2), r[0], r[1], r[2], add32(r[3], t1), r[4], r[5], r[6]]
}

/// The working registers after the first `n` rounds on a block with words `w`.
pub open spec fn rounds(r: Seq<u32>, w: Seq<u32>, n: nat) -> Seq<u32>
    decreases n,
{
    if n == 0 {
        r
    } else {
        round(rounds(r, w, (n - 1) as nat), K@[n - 1], schedule(w, (n - 1) as nat))
    }
}

/// The compression function: state `h` after the block with words `w`.
pub open spec fn compress(h: Seq<u32>, w: Seq<u32>) -> Seq<u32> {
    let r = rounds(h, w, 64);
    Seq::new(8, |i: int| add32(h[i], r[i]))
}

/// The state after the first `n` blocks of `data`.
pub open spec fn hash_blocks(data: Seq<u8>, n: nat) -> Seq<u32>
    decreases n,
{
    if n == 0 {
        H0@
    } else {
        compress(hash_blocks(data, (n - 1) as nat), block_words(data, n - 1))
    }
}

/// Largest message length in bytes: its length in bits must fit in 64 bits.
pub const MAX_LEN: u64 = 0x2000_0000_0000_0000;

/// Number of zero bytes between the terminator byte and the length field.
pub open spec fn zero_pad_len(n: nat) -> nat {
    ((119 - n % 64) % 64) as nat
}

/// The eight big-endian bytes of `x`.
pub open spec fn be64(x: u64) -> Seq<u8> {
    Seq::new(8, |k: int| ((x >> (56 - 8 * k) as u64) & 0xff) as u8)
}

/// The padded message: `m`, the byte 0x80, zeros, and the length of `m` in bits.
pub open spec fn padded(m: Seq<u8>) -> Seq<u8> {
    m + seq![0x80u8] + Seq::new(zero_pad_len(m.len()), |i: int| 0u8) + be64((8 * m.len()) as u64)
}

/// The SHA-256 digest of `m`, as eight words.
pub open spec fn sha256(m: Seq<u8>) -> Seq<u32> {
    hash_blocks(padded(m), padded(m).len() / 64)
}

// ---------------------------------------------------------------------------
// Facts about the definition

/// The state after `n` blocks depends on the first `64 * n` bytes only.
pub proof fn lemma_hash_blocks_prefix(d1: Seq<u8>, d2: Seq<u8>, n: nat)
    requires
        64 * n <= d1.len(),
        64 * n <= d2.len(),
        forall|i: int| 0 <= i < 64 * n ==> d1[i] == d2[i],
    ensures
        hash_blocks(d1, n) == hash_blocks(d2, n),
    decreases n,
{
    if n > 0 {
        lemma_hash_blocks_prefix(d1, d2, (n - 1) as nat);
        lemma_block_words_window(d1, d2, n - 1, n - 1);
    }
}

/// Block `n1` of `b` and block `n2` of `p` have the same words when their bytes agree.
proof fn lemma_block_words_window(b: Seq<u8>, p: Seq<u8>, n1: int, n2: int)
    requires
        0 <= n1,
        0 <= n2,
        64 * n1 + 64 <= b.len(),
        64 * n2 + 64 <= p.len(),
        forall|k: int| 0 <= k < 64 ==> #[trigger] b[64 * n1 + k] == p[64 * n2 + k],
    ensures
        block_words(b, n1) == block_words(p, n2),
{
    assert forall|i: int| 0 <= i < 16 implies #[trigger] be_word(b, 64 * n1 + 4 * i) == be_word(p, 64 * n2 + 4 * i) by {
        assert(b[64 * n1 + 4 * i] == p[64 * n2 + 4 * i]);
        assert(b[64 * n1 + (4 * i + 1)] == p[64 * n2 + (4 * i + 1)]);
        assert(b[64 * n1 + (4 * i + 2)] == p[64 * n2 + (4 * i + 2)]);
        assert(b[64 * n1 + (4 * i + 3)] == p[64 * n2 + (4 * i + 3)]);
    }
    assert(block_words(b, n1) =~= block_words(p, n2));
}

/// What each byte of the padded message is.
pub proof fn lemma_padded(m: Seq<u8>)
    ensures
        padded(m).len() == m.len() + 9 + zero_pad_len(m.len()),
        padded(m).len() % 64 == 0,
        forall|i: int| 0 <= i < m.len() ==> padded(m)[i] == m[i],
        padded(m)[m.len() as int] == 0x80,
        forall|i: int| m.len() < i < m.len() + 1 + zero_pad_len(m.len()) ==> padded(m)[i] == 0,
        forall|k: int| 0 <= k < 8 ==> padded(m)[m.len() + 1 + zero_pad_len(m.len()) + k]
            == #[trigger] be64((8 * m.len()) as u64)[k],
{
    let z = zero_pad_len(m.len());
    let a = m + seq![0x80u8];
    let b = a + Seq::new(z, |i: int| 0u8);
    assert(padded(m) == b + be64((8 * m.len()) as u64));
    assert forall|i: int| m.len() < i < m.len() + 1 + z implies padded(m)[i] == 0 by {
        assert(b[i] == 0);
    }
    assert forall|k: int| 0 <= k < 8 implies padded(m)[m.len() + 1 + z + k]
        == #[trigger] be64((8 * m.len()) as u64)[k] by {
    }
}

// ---------------------------------------------------------------------------
// Word functions

/// Addition with wrap-around.
pub fn addw(a: u32, b: u32) -> (r: u32)
    ensures
        r == add32(a, b),
{
    a.wrapping_add(b)
}

fn rotate(x: u32, n: u32) -> (r: u32)
    requires
        0 < n < 32,
    ensures
        r == rotr(x, n),
{
    (x >> n) | (x << (32 - n))
}

pub fn sig0(i: u32) -> (r: u32)
    ensures
        r == spec_sig0(i),
{
    rotate(i, 7) ^ rotate(i, 18) ^ (i >> 3)
}

pub fn sig1(i: u32) -> (r: u32)
    ensures
        r == spec_sig1(i),
{
    rotate(i, 17) ^ rotate(i, 19) ^ (i >> 10)
}

pub fn sum0(i: u32) -> (r: u32)
    ensures
        r == spec_sum0(i),
{
    rotate(i, 2) ^ rotate(i, 13) ^ rotate(i, 22)
}

pub fn sum1(i: u32) -> (r: u32)
    ensures
        r == spec_sum1(i),
{
    rotate(i, 6) ^ rotate(i, 11) ^ rotate(i, 25)
}

pub fn choice(x: u32, y: u32, z: u32) -> (r: u32)
    ensures
        r == spec_choice(x, y, z),
{
    (x & y) ^ (!x & z)
}

pub fn major(x: u32, y: u32, z: u32) -> (r: u32)
    ensures
        r == spec_major(x, y, z),
{
    (x & y) ^ (x & z) ^ (y & z)
}

/// Reads a block as sixteen big-endian words.
pub fn to_u32(b: &Block, s: &mut [u32; 16])
    ensures
        final(s)@ == block_words(b@, 0),
{
    let mut i: usize = 0;
    while i < 16
        invariant
            i <= 16,
            s@.len() == 16,
            forall|k: int| 0 <= k < i ==> s@[k] == be_word(b@, 4 * k),
        decreases 16 - i,
    {
        let w: u32 = (b[4 * i] as u32) * 0x100_0000 + (b[4 * i + 1] as u32) * 0x1_0000
            + (b[4 * i + 2] as u32) * 0x100 + (b[4 * i + 3] as u32);
        assert(w == be_word(b@, 4 * i as int));
        s[i] = w;
        i += 1;
    }
    assert(s@ =~= block_words(b@, 0));
}

// ---------------------------------------------------------------------------
// The engine

/// A SHA-256 computation in progress: the state after the blocks absorbed so far.
#[allow(non_camel_case_types)]
pub struct SHA256 {
    state: State,
    length: u64,
    data: Ghost<Seq<u8>>,
}

impl SHA256 {
    /// The bytes absorbed so far.
    pub closed spec fn view(&self) -> Seq<u8> {
        self.data@
    }

    /// The running state.
    pub closed spec fn current(&self) -> Seq<u32> {
        self.state@
    }

    /// The byte count kept by the engine.
    pub closed spec fn count(&self) -> nat {
        self.length as nat
    }

    /// Whole blocks only have been absorbed, and the state is their hash.
    pub closed spec fn wf(&self) -> bool {
        &&& self.length == self.data@.len()
        &&& self.data@.len() % 64 == 0
        &&& self.data@.len() <= MAX_LEN
        &&& self.state@ == hash_blocks(self.data@, self.data@.len() / 64)
    }

    pub fn new() -> (r: Self)
        ensures
            r.wf(),
            r@ == Seq::<u8>::empty(),
            r.current() == H0@,
            r.count() == 0,
    {
        SHA256 { state: H0, length: 0, data: Ghost(Seq::empty()) }
    }

    /// Runs the compression function on one block, leaving the absorbed bytes as they were.
    pub fn process_full(&mut self, buffer: &Block)
        ensures
            final(self).current() == compress(old(self).current(), block_words(buffer@, 0)),
            final(self)@ == old(self)@,
            final(self).count() == old(self).count(),
    {
        let mut w: [u32; 16] = [0u32; 16];
        to_u32(buffer, &mut w);
        let ghost ws = w@;
        let mut m: [u32; 64] = [0u32; 64];
        let mut i: usize = 0;
        while i < 16
            invariant
                i <= 16,
                w@ == ws,
                ws.len() == 16,
                forall|k: int| 0 <= k < i ==> m@[k] == schedule(ws, k as nat),
            decreases 16 - i,
        {
            m[i] = w[i];
            i += 1;
        }
        while i < 64
            invariant
                16 <= i <= 64,
                forall|k: int| 0 <= k < i ==> m@[k] == schedule(ws, k as nat),
            decreases 64 - i,
        {
            let v = addw(sig1(m[i - 2]), addw(m[i - 7], addw(sig0(m[i - 15]), m[i - 16])));
            m[i] = v;
            i += 1;
        }
        let ghost h = self.state@;
        let mut a = self.state[0];
        let mut b = self.state[1];
        let mut c = self.state[2];
        let mut d = self.state[3];
        let mut e = self.state[4];
        let mut f = self.state[5];
        let mut g = self.state[6];
        let mut hh = self.state[7];
        assert(seq![a, b, c, d, e, f, g, hh] =~= rounds(h, ws, 0));
        let mut i: usize = 0;
        while i < 64
            invariant
                i <= 64,
                self.state@ == h,
                forall|k: int| 0 <= k < 64 ==> m@[k] == schedule(ws, k as nat),
                seq![a, b, c, d, e, f, g, hh] == rounds(h, ws, i as nat),
            decreases 64 - i,
        {
            let t1 = addw(hh, addw(sum1(e), addw(choice(e, f, g), addw(K[i], m[i]))));
            let t2 = addw(sum0(a), major(a, b, c));
            hh = g;
            g = f;
            f = e;
            e = addw(d, t1);
            d = c;
            c = b;
            b = a;
            a = addw(t1, t2);
            i += 1;
            assert(seq![a, b, c, d, e, f, g, hh] =~= rounds(h, ws, i as nat));
        }
        self.state[0] = addw(self.state[0], a);
        self.state[1] = addw(self.state[1], b);
        self.state[2] = addw(self.state[2], c);
        self.state[3] = addw(self.state[3], d);
        self.state[4] = addw(self.state[4], e);
        self.state[5] = addw(self.state[5], f);
        self.state[6] = addw(self.state[6], g);
        self.state[7] = addw(self.state[7], hh);
        assert(self.state@ =~= compress(h, ws));
    }

    /// Absorbs one whole block.
    pub fn process(&mut self, buffer: &Block)
        requires
            old(self).wf(),
            old(self)@.len() + 64 <= MAX_LEN,
        ensures
            final(self).wf(),
            final(self)@ == old(self)@ + buffer@,
            final(self).current() == compress(old(self).current(), block_words(buffer@, 0)),
            final(self).count() == old(self).count() + 64,
    {
        let ghost d = self.data@;
        let ghost q = (d.len() / 64) as nat;
        let ghost nd = d + buffer@;
        self.length += 64;
        self.process_full(buffer);
        self.data = Ghost(nd);
        proof {
            lemma_hash_blocks_prefix(d, nd, q);
            lemma_block_words_window(buffer@, nd, 0, q as int);
            assert(nd.len() / 64 == q + 1);
        }
    }

    /// Absorbs the last `size` bytes of the message, held at the start of `buffer`,
    /// pads the message and returns its digest. The engine is spent afterwards.
    #[verifier::rlimit(50)]
    pub fn finalize(&mut self, buffer: &mut Block, size: usize) -> (r: State)
        requires
            old(self).wf(),
            size < 64,
            old(self)@.len() + size < MAX_LEN,
        ensures
            r@ == sha256(old(self)@ + old(buffer)@.subrange(0, size as int)),
            final(self).current() == r@,
            ({
                let p = padded(old(self)@ + old(buffer)@.subrange(0, size as int));
                final(buffer)@ == p.subrange(p.len() - 64, p.len() as int)
            }),
    {
        let ghost d = self.data@;
        let ghost q = (d.len() / 64) as int;
        let ghost m = d + buffer@.subrange(0, size as int);
        let ghost p = padded(m);
        let ghost z = zero_pad_len(m.len());
        proof {
            lemma_padded(m);
            assert(m.len() % 64 == size);
            assert forall|k: int| 0 <= k < size implies p[64 * q + k] == buffer@[k] by {
                assert(m[64 * q + k] == buffer@[k]);
            }
            lemma_hash_blocks_prefix(d, p, q as nat);
            assert(z == if size < 56 { 55 - size } else { 119 - size });
        }
        let total: u64 = self.length + size as u64;
        self.length = total;
        let mut base: Ghost<int> = Ghost(64 * q);
        let mut cur: usize = size;
        buffer[cur] = 0x80;
        cur += 1;
        if cur > 56 {
            while cur < 64
                invariant
                    size < cur <= 64,
                    size >= 56,
                    base@ == 64 * q,
                    m.len() == 64 * q + size,
                    z == zero_pad_len(m.len()),
                    p == padded(m),
                    forall|k: int| 0 <= k < cur ==> buffer@[k] == p[base@ + k],
                decreases 64 - cur,
            {
                proof {
                    lemma_padded(m);
                }
                buffer[cur] = 0;
                cur += 1;
            }
            proof {
                assert(self.current() == hash_blocks(p, q as nat));
                lemma_block_words_window(buffer@, p, 0, q);
            }
            self.process_full(buffer);
            cur = 0;
            base = Ghost(64 * q + 64);
        }
        assert(self.current() == hash_blocks(p, (base@ / 64) as nat));
        while cur < 56
            invariant
                cur <= 56,
                base@ == 64 * q || base@ == 64 * q + 64,
                base@ + 56 == m.len() + 1 + z,
                m.len() == 64 * q + size,
                z == zero_pad_len(m.len()),
                p == padded(m),
                size < 64,
                size < 56 ==> cur > size && base@ == 64 * q,
                size >= 56 ==> base@ == 64 * q + 64,
                forall|k: int| 0 <= k < cur ==> buffer@[k] == p[base@ + k],
            decreases 56 - cur,
        {
            proof {
                lemma_padded(m);
                assert(m.len() < base@ + cur < m.len() + 1 + z);
                assert(p[base@ + cur] == 0);
            }
            buffer[cur] = 0;
            cur += 1;
        }
        let bits: u64 = total * 8;
        let mut k: usize = 0;
        while k < 8
            invariant
                k <= 8,
                bits == 8 * m.len(),
                base@ + 56 == m.len() + 1 + z,
                z == zero_pad_len(m.len()),
                p == padded(m),
                forall|i: int| 0 <= i < 56 + k ==> buffer@[i] == p[base@ + i],
            decreases 8 - k,
        {
            buffer[56 + k] = (#[verifier::truncate] (((bits >> ((56 - 8 * k) as u64)) & 0xff) as u8));
            proof {
                lemma_padded(m);
            }
            assert(buffer@[56 + k] == be64(bits)[k as int]);
            k += 1;
        }
        proof {
            lemma_block_words_window(buffer@, p, 0, base@ / 64);
            assert(buffer@ =~= p.subrange(p.len() - 64, p.len() as int));
        }
        self.process_full(buffer);
        self.state
    }
}

/// The digest of `data`, computed block by block.
pub fn digest(data: &[u8]) -> (r: State)
    requires
        data@.len() < MAX_LEN,
    ensures
        r@ == sha256(data@),
{
    let mut h = SHA256::new();
    let mut block: Block = [0u8; 64];
    let mut pos: usize = 0;
    while data.len() - pos >= 64
        invariant
            pos <= data@.len() < MAX_LEN,
            pos % 64 == 0,
            h.wf(),
            h@ == data@.subrange(0, pos as int),
        decreases data@.len() - pos,
    {
        let mut k: usize = 0;
        while k < 64
            invariant
                k <= 64,
                pos + 64 <= data@.len(),
                data@.len() == data.len(),
                forall|i: int| 0 <= i < k ==> block@[i] == data@[pos + i],
            decreases 64 - k,
        {
            block[k] = data[pos + k];
            k += 1;
        }
        assert(data@.subrange(0, pos + 64) =~= data@.subrange(0, pos as int) + block@);
        h.process(&block);
        pos += 64;
    }
    let rest: usize = data.len() - pos;
    let mut k: usize = 0;
    while k < rest
        invariant
            k <= rest,
            rest < 64,
            pos + rest == data@.len(),
            data@.len() == data.len(),
            forall|i: int| 0 <= i < k ==> block@[i] == data@[pos + i],
        decreases rest - k,
    {
        block[k] = data[pos + k];
        k += 1;
    }
    assert(data@ =~= data@.subrange(0, pos as int) + block@.subrange(0, rest as int));
    h.finalize(&mut block, rest)
}

/// Hashing is deterministic: two engines that have absorbed the same bytes hold
/// the same state, whatever blocks they were fed in.
pub proof fn lemma_state_determined(a: &SHA256, b: &SHA256)
    requires
        a.wf(),
        b.wf(),
        a@ == b@,
    ensures
        a.current() == b.current(),
{
}

} // verus!
