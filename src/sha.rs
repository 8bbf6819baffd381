use vstd::prelude::*;

verus! {

/// The 64 round constants of SHA-256.
pub open spec fn round_constants() -> Seq<u32> {
    seq![
        0x428a2f98, 0x71374491, 0xb5c0fbcf, 0xe9b5dba5, 0x3956c25b, 0x59f111f1,
        0x923f82a4, 0xab1c5ed5, 0xd807aa98, 0x12835b01, 0x243185be, 0x550c7dc3,
        0x72be5d74, 0x80deb1fe, 0x9bdc06a7, 0xc19bf174, 0xe49b69c1, 0xefbe4786,
        0x0fc19dc6, 0x240ca1cc, 0x2de92c6f, 0x4a7484aa, 0x5cb0a9dc, 0x76f988da,
        0x983e5152, 0xa831c66d, 0xb00327c8, 0xbf597fc7, 0xc6e00bf3, 0xd5a79147,
        0x06ca6351, 0x14292967, 0x27b70a85, 0x2e1b2138, 0x4d2c6dfc, 0x53380d13,
        0x650a7354, 0x766a0abb, 0x81c2c92e, 0x92722c85, 0xa2bfe8a1, 0xa81a664b,
        0xc24b8b70, 0xc76c51a3, 0xd192e819, 0xd6990624, 0xf40e3585, 0x106aa070,
        0x19a4c116, 0x1e376c08, 0x2748774c, 0x34b0bcb5, 0x391c0cb3, 0x4ed8aa4a,
        0x5b9cca4f, 0x682e6ff3, 0x748f82ee, 0x78a5636f, 0x84c87814, 0x8cc70208,
        0x90befffa, 0xa4506ceb, 0xbef9a3f7, 0xc67178f2,
    ]
}

/// The initial hash value of SHA-256.
pub open spec fn initial_state() -> Seq<u32> {
    seq![
        0x6a09e667, 0xbb67ae85, 0x3c6ef372, 0xa54ff53a, 0x510e527f, 0x9b05688c,
        0x1f83d9ab, 0x5be0cd19,
    ]
}

fn round_constants_vec() -> (r: Vec<u32>)
    ensures
        r@ == round_constants(),
{
    let r = vec![
        0x428a2f98, 0x71374491, 0xb5c0fbcf, 0xe9b5dba5, 0x3956c25b, 0x59f111f1,
        0x923f82a4, 0xab1c5ed5, 0xd807aa98, 0x12835b01, 0x243185be, 0x550c7dc3,
        0x72be5d74, 0x80deb1fe, 0x9bdc06a7, 0xc19bf174, 0xe49b69c1, 0xefbe4786,
        0x0fc19dc6, 0x240ca1cc, 0x2de92c6f, 0x4a7484aa, 0x5cb0a9dc, 0x76f988da,
        0x983e5152, 0xa831c66d, 0xb00327c8, 0xbf597fc7, 0xc6e00bf3, 0xd5a79147,
        0x06ca6351, 0x14292967, 0x27b70a85, 0x2e1b2138, 0x4d2c6dfc, 0x53380d13,
        0x650a7354, 0x766a0abb, 0x81c2c92e, 0x92722c85, 0xa2bfe8a1, 0xa81a664b,
        0xc24b8b70, 0xc76c51a3, 0xd192e819, 0xd6990624, 0xf40e3585, 0x106aa070,
        0x19a4c116, 0x1e376c08, 0x2748774c, 0x34b0bcb5, 0x391c0cb3, 0x4ed8aa4a,
        0x5b9cca4f, 0x682e6ff3, 0x748f82ee, 0x78a5636f, 0x84c87814, 0x8cc70208,
        0x90befffa, 0xa4506ceb, 0xbef9a3f7, 0xc67178f2,
    ];
    proof {
        assert(r@ =~= round_constants());
    }
    r
}

fn initial_state_vec() -> (r: Vec<u32>)
    ensures
        r@ == initial_state(),
{
    let r = vec![
        0x6a09e667, 0xbb67ae85, 0x3c6ef372, 0xa54ff53a, 0x510e527f, 0x9b05688c,
        0x1f83d9ab, 0x5be0cd19,
    ];
    proof {
        assert(r@ =~= initial_state());
    }
    r
}

pub open spec fn rotr(x: u32, n: u32) -> u32 {
    (x >> n) | (x << ((32 - n) as u32))
}

pub open spec fn ch(x: u32, y: u32, z: u32) -> u32 {
    (x & y) ^ (!x & z)
}

pub open spec fn maj(x: u32, y: u32, z: u32) -> u32 {
    (x & y) ^ (x & z) ^ (y & z)
}

pub open spec fn big_sigma0(x: u32) -> u32 {
    rotr(x, 2) ^ rotr(x, 13) ^ rotr(x, 22)
}

pub open spec fn big_sigma1(x: u32) -> u32 {
    rotr(x, 6) ^ rotr(x, 11) ^ rotr(x, 25)
}

pub open spec fn small_sigma0(x: u32) -> u32 {
    rotr(x, 7) ^ rotr(x, 18) ^ (x >> 3u32)
}

pub open spec fn small_sigma1(x: u32) -> u32 {
    rotr(x, 17) ^ rotr(x, 19) ^ (x >> 10u32)
}

/// Big-endian word from four bytes.
pub open spec fn be_word(b: Seq<u8>, at: int) -> u32 {
    ((b[at] as u32) << 24u32) | ((b[at + 1] as u32) << 16u32) | ((b[at + 2] as u32) << 8u32) | (b[at + 3] as u32)
}

/// The message schedule of a 64-byte block: word `t`.
pub open spec fn schedule(block: Seq<u8>, t: int) -> u32
    decreases t,
{
    if t < 16 {
        be_word(block, 4 * t)
    } else {
        small_sigma1(schedule(block, t - 2)).wrapping_add(schedule(block, t - 7)).wrapping_add(
            small_sigma0(schedule(block, t - 15)),
        ).wrapping_add(schedule(block, t - 16))
    }
}

/// One compression round on the working variables `v` (a..h).
pub open spec fn round(v: Seq<u32>, k: u32, w: u32) -> Seq<u32> {
    let t1 = v[7].wrapping_add(big_sigma1(v[4])).wrapping_add(ch(v[4], v[5], v[6])).wrapping_add(k).wrapping_add(w);
    let t2 = big_sigma0(v[0]).wrapping_add(maj(v[0], v[1], v[2]));
    seq![t1.wrapping_add(t2), v[0], v[1], v[2], v[3].wrapping_add(t1), v[4], v[5], v[6]]
}

/// The working variables after the first `t` rounds over `w`.
pub open spec fn rounds(v: Seq<u32>, w: Seq<u32>, t: int) -> Seq<u32>
    decreases t,
{
    if t <= 0 {
        v
    } else {
        round(rounds(v, w, t - 1), round_constants()[t - 1], w[t - 1])
    }
}

/// The SHA-256 compression function.
pub open spec fn compress(state: Seq<u32>, block: Seq<u8>) -> Seq<u32> {
    let w = Seq::new(64, |t: int| schedule(block, t));
    let v = rounds(state, w, 64);
    Seq::new(8, |i: int| state[i].wrapping_add(v[i]))
}

/// The padded message: `0x80`, zeros, and the bit length as 64 bits big-endian.
pub open spec fn padded(msg: Seq<u8>) -> Seq<u8> {
    let zeros = (119 - msg.len() % 64) % 64;
    let bits: int = (msg.len() as int * 8) % 0x1_0000_0000_0000_0000;
    msg + seq![0x80u8] + Seq::new(zeros as nat, |i: int| 0u8) + Seq::new(8, |i: int| (((bits as u64) >> ((8 * (7 - i)) as u64)) & 0xff) as u8)
}

/// The state after the first `n` blocks of `p`.
pub open spec fn hash_blocks(p: Seq<u8>, n: int) -> Seq<u32>
    decreases n,
{
    if n <= 0 {
        initial_state()
    } else {
        compress(hash_blocks(p, n - 1), p.subrange(64 * (n - 1), 64 * n))
    }
}

/// The big-endian bytes of the words of `s`.
pub open spec fn state_bytes(s: Seq<u32>) -> Seq<u8> {
    Seq::new(4 * s.len(), |i: int| ((s[i / 4] >> ((8 * (3 - i % 4)) as u32)) & 0xff) as u8)
}

/// SHA-256 of `msg`.
pub open spec fn sha256(msg: Seq<u8>) -> Seq<u8> {
    let p = padded(msg);
    state_bytes(hash_blocks(p, p.len() as int / 64))
}

fn rotr_exec(x: u32, n: u32) -> (r: u32)
    requires
        0 < n < 32,
    ensures
        r == rotr(x, n),
{
    (x >> n) | (x << (32 - n))
}

fn compress_exec(state: &Vec<u32>, block: &[u8], at: usize) -> (r: Vec<u32>)
    requires
        state@.len() == 8,
        at + 64 <= block@.len(),
    ensures
        r@ == compress(state@, block@.subrange(at as int, at + 64)),
{
    let ghost b = block@.subrange(at as int, at + 64);
    let blen = block.len();
    let k = round_constants_vec();
    let mut w: Vec<u32> = Vec::new();
    let mut t: usize = 0;
    while t < 64
        invariant
            0 <= t <= 64,
            at + 64 <= block@.len(),
            blen == block@.len(),
            b == block@.subrange(at as int, at + 64),
            w@.len() == t,
            forall|j: int| 0 <= j < t ==> #[trigger] w@[j] == schedule(b, j),
        decreases 64 - t,
    {
        let x = if t < 16 {
            let i = at + 4 * t;
            proof {
                assert(b[4 * t as int] == block@[i as int]);
                assert(b[4 * t + 1] == block@[i + 1]);
                assert(b[4 * t + 2] == block@[i + 2]);
                assert(b[4 * t + 3] == block@[i + 3]);
            }
            ((block[i] as u32) << 24u32) | ((block[i + 1] as u32) << 16u32) | ((block[i + 2] as u32) << 8u32) | (block[i + 3] as u32)
        } else {
            let a = w[t - 2];
            let s1 = rotr_exec(a, 17) ^ rotr_exec(a, 19) ^ (a >> 10u32);
            let c = w[t - 15];
            let s0 = rotr_exec(c, 7) ^ rotr_exec(c, 18) ^ (c >> 3u32);
            s1.wrapping_add(w[t - 7]).wrapping_add(s0).wrapping_add(w[t - 16])
        };
        proof {
            assert(x == schedule(b, t as int));
        }
        w.push(x);
        t = t + 1;
    }
    let ghost ws = Seq::new(64, |j: int| schedule(b, j));
    proof {
        assert(w@ =~= ws);
    }
    let mut v: Vec<u32> = Vec::new();
    let mut i: usize = 0;
    while i < 8
        invariant
            0 <= i <= 8,
            state@.len() == 8,
            v@ == state@.take(i as int),
        decreases 8 - i,
    {
        v.push(state[i]);
        proof {
            assert(state@.take(i + 1) =~= state@.take(i as int).push(state@[i as int]));
        }
        i = i + 1;
    }
    proof {
        assert(state@.take(8) =~= state@);
    }
    let mut t: usize = 0;
    while t < 64
        invariant
            0 <= t <= 64,
            w@ == ws,
            w@.len() == 64,
            k@ == round_constants(),
            v@.len() == 8,
            v@ == rounds(state@, ws, t as int),
        decreases 64 - t,
    {
        let e = v[4];
        let a = v[0];
        let s1 = rotr_exec(e, 6) ^ rotr_exec(e, 11) ^ rotr_exec(e, 25);
        let chv = (e & v[5]) ^ (!e & v[6]);
        let t1 = v[7].wrapping_add(s1).wrapping_add(chv).wrapping_add(k[t]).wrapping_add(w[t]);
        let s0 = rotr_exec(a, 2) ^ rotr_exec(a, 13) ^ rotr_exec(a, 22);
        let mj = (a & v[1]) ^ (a & v[2]) ^ (v[1] & v[2]);
        let t2 = s0.wrapping_add(mj);
        let nv = vec![t1.wrapping_add(t2), v[0], v[1], v[2], v[3].wrapping_add(t1), v[4], v[5], v[6]];
        proof {
            assert(nv@ =~= round(v@, round_constants()[t as int], ws[t as int]));
        }
        v = nv;
        t = t + 1;
    }
    let mut out: Vec<u32> = Vec::new();
    let mut i: usize = 0;
    while i < 8
        invariant
            0 <= i <= 8,
            state@.len() == 8,
            v@.len() == 8,
            v@ == rounds(state@, ws, 64),
            out@ == Seq::new(i as nat, |j: int| state@[j].wrapping_add(v@[j])),
        decreases 8 - i,
    {
        out.push(state[i].wrapping_add(v[i]));
        proof {
            assert(out@ =~= Seq::new((i + 1) as nat, |j: int| state@[j].wrapping_add(v@[j])));
        }
        i = i + 1;
    }
    out
}


/// Incremental SHA-256: collects the message, hashes it on `finalize`.
#[derive(Clone)]
pub struct Hash {
    data: Vec<u8>,
}

impl View for Hash {
    type V = Seq<u8>;

    closed spec fn view(&self) -> Seq<u8> {
        self.data@
    }
}

impl Hash {
    pub fn new() -> (r: Hash)
        ensures
            r@ == Seq::<u8>::empty(),
    {
        let r = Hash { data: Vec::new() };
        proof {
            assert(r@ =~= Seq::<u8>::empty());
        }
        r
    }

    /// Appends `input` to the message.
    pub fn update(&mut self, input: &[u8])
        ensures
            final(self)@ == old(self)@ + input@,
    {
        let mut i: usize = 0;
        while i < input.len()
            invariant
                0 <= i <= input@.len(),
                self@ == old(self)@ + input@.subrange(0, i as int),
            decreases input@.len() - i,
        {
            self.data.push(input[i]);
            proof {
                assert(old(self)@ + input@.subrange(0, i + 1) =~= (old(self)@ + input@.subrange(0, i as int)).push(input@[i as int]));
            }
            i = i + 1;
        }
        proof {
            assert(input@.subrange(0, input@.len() as int) =~= input@);
        }
    }

    /// The 32-byte digest of the message.
    pub fn finalize(self) -> (r: Vec<u8>)
        ensures
            r@ == sha256(self@),
    {
        let len = self.data.len();
        let mut p: Vec<u8> = Vec::new();
        let mut i: usize = 0;
        while i < len
            invariant
                0 <= i <= len,
                len == self@.len(),
                p@ == self@.take(i as int),
            decreases len - i,
        {
            p.push(self.data[i]);
            proof {
                assert(self@.take(i + 1) =~= self@.take(i as int).push(self@[i as int]));
            }
            i = i + 1;
        }
        p.push(0x80);
        let zeros: usize = (119 - len % 64) % 64;
        let ghost head = p@;
        let mut z: usize = 0;
        while z < zeros
            invariant
                0 <= z <= zeros,
                p@ == head + Seq::new(z as nat, |j: int| 0u8),
            decreases zeros - z,
        {
            p.push(0);
            proof {
                assert(p@ =~= head + Seq::new((z + 1) as nat, |j: int| 0u8));
            }
            z = z + 1;
        }
        let bits: u64 = ((len as u128 * 8) % 0x1_0000_0000_0000_0000) as u64;
        let ghost head2 = p@;
        let mut j: usize = 0;
        while j < 8
            invariant
                0 <= j <= 8,
                p@ == head2 + Seq::new(j as nat, |i: int| ((bits >> ((8 * (7 - i)) as u64)) & 0xff) as u8),
            decreases 8 - j,
        {
            p.push(((bits >> ((8 * (7 - j)) as u64)) & 0xff) as u8);
            proof {
                assert(p@ =~= head2 + Seq::new((j + 1) as nat, |i: int| ((bits >> ((8 * (7 - i)) as u64)) & 0xff) as u8));
            }
            j = j + 1;
        }
        proof {
            assert(self@.take(len as int) =~= self@);
            assert(p@ =~= padded(self@));
        }
        let plen = p.len();
        let nblocks = plen / 64;
        let mut state = initial_state_vec();
        let mut n: usize = 0;
        while n < nblocks
            invariant
                0 <= n <= nblocks,
                nblocks == p@.len() / 64,
                plen == p@.len(),
                p@ == padded(self@),
                state@ == hash_blocks(p@, n as int),
                state@.len() == 8,
            decreases nblocks - n,
        {
            state = compress_exec(&state, p.as_slice(), 64 * n);
            n = n + 1;
        }
        let mut out: Vec<u8> = Vec::new();
        let mut i: usize = 0;
        while i < 32
            invariant
                0 <= i <= 32,
                state@.len() == 8,
                out@ == Seq::new(i as nat, |t: int| ((state@[t / 4] >> ((8 * (3 - t % 4)) as u32)) & 0xff) as u8),
            decreases 32 - i,
        {
            out.push(((state[i / 4] >> ((8 * (3 - i % 4)) as u32)) & 0xff) as u8);
            proof {
                assert(out@ =~= Seq::new((i + 1) as nat, |t: int| ((state@[t / 4] >> ((8 * (3 - t % 4)) as u32)) & 0xff) as u8));
            }
            i = i + 1;
        }
        proof {
            assert(out@ =~= state_bytes(state@));
        }
        out
    }

    /// SHA-256 of `input`.
    pub fn hash(input: &[u8]) -> (r: Vec<u8>)
        ensures
            r@ == sha256(input@),
    {
        let mut h = Hash::new();
        h.update(input);
        proof {
            assert(h@ =~= input@);
        }
        h.finalize()
    }
}

/// The key block: the key (hashed first when longer than 64 bytes), zero-padded to
/// 64 bytes and XORed with `pad`.
pub open spec fn key_block(k: Seq<u8>, pad: u8) -> Seq<u8> {
    let k2 = if k.len() > 64 { sha256(k) } else { k };
    Seq::new(64, |i: int| (if i < k2.len() { k2[i] } else { 0u8 }) ^ pad)
}

/// HMAC-SHA-256 of `msg` under key `k`.
pub open spec fn hmac(k: Seq<u8>, msg: Seq<u8>) -> Seq<u8> {
    sha256(Seq::new(64, |i: int| key_block(k, 0x36)[i] ^ 0x6a) + sha256(key_block(k, 0x36) + msg))
}

/// Incremental HMAC-SHA-256.
#[derive(Clone)]
pub struct HMAC {
    ih: Hash,
    padded: Vec<u8>,
}

impl HMAC {
    /// The key block for `k` XORed with 0x36.
    fn inner_pad(k: &[u8]) -> (r: Vec<u8>)
        ensures
            r@ == key_block(k@, 0x36),
    {
        let hk: Vec<u8> = if k.len() > 64 {
            Hash::hash(k)
        } else {
            let mut c: Vec<u8> = Vec::new();
            let mut i: usize = 0;
            while i < k.len()
                invariant
                    0 <= i <= k@.len(),
                    c@ == k@.take(i as int),
                decreases k@.len() - i,
            {
                c.push(k[i]);
                proof {
                    assert(k@.take(i + 1) =~= k@.take(i as int).push(k@[i as int]));
                }
                i = i + 1;
            }
            proof {
                assert(k@.take(k@.len() as int) =~= k@);
            }
            c
        };
        let ghost k2 = if k@.len() > 64 { sha256(k@) } else { k@ };
        let mut out: Vec<u8> = Vec::new();
        let mut i: usize = 0;
        while i < 64
            invariant
                0 <= i <= 64,
                hk@ == k2,
                k2 == (if k@.len() > 64 { sha256(k@) } else { k@ }),
                out@ == Seq::new(i as nat, |j: int| (if j < k2.len() { k2[j] } else { 0u8 }) ^ 0x36u8),
            decreases 64 - i,
        {
            let b: u8 = if i < hk.len() { hk[i] } else { 0 };
            out.push(b ^ 0x36);
            proof {
                assert(out@ =~= Seq::new((i + 1) as nat, |j: int| (if j < k2.len() { k2[j] } else { 0u8 }) ^ 0x36u8));
            }
            i = i + 1;
        }
        out
    }

    fn outer_pad(p: &Vec<u8>) -> (r: Vec<u8>)
        requires
            p@.len() == 64,
        ensures
            r@ == Seq::new(64, |i: int| p@[i] ^ 0x6a),
    {
        let mut out: Vec<u8> = Vec::new();
        let mut i: usize = 0;
        while i < 64
            invariant
                0 <= i <= 64,
                p@.len() == 64,
                out@ == Seq::new(i as nat, |j: int| p@[j] ^ 0x6au8),
            decreases 64 - i,
        {
            out.push(p[i] ^ 0x6a);
            proof {
                assert(out@ =~= Seq::new((i + 1) as nat, |j: int| p@[j] ^ 0x6au8));
            }
            i = i + 1;
        }
        out
    }

    /// HMAC-SHA-256 of `input` under key `k`.
    pub fn mac(input: &[u8], k: &[u8]) -> (r: Vec<u8>)
        ensures
            r@ == hmac(k@, input@),
    {
        let mut h = HMAC::new(k);
        h.update(input);
        h.finalize()
    }

    pub fn new(k: &[u8]) -> (r: HMAC)
        ensures
            r.key_pad() == key_block(k@, 0x36),
            r.message() == Seq::<u8>::empty(),
            r.inner() == key_block(k@, 0x36),
    {
        let padded = Self::inner_pad(k);
        let mut ih = Hash::new();
        ih.update(padded.as_slice());
        proof {
            assert(ih@ =~= padded@);
        }
        HMAC { ih, padded }
    }

    pub closed spec fn key_pad(&self) -> Seq<u8> {
        self.padded@
    }

    /// The inner hash's input so far.
    pub closed spec fn inner(&self) -> Seq<u8> {
        self.ih@
    }

    /// The message so far.
    pub closed spec fn message(&self) -> Seq<u8> {
        self.ih@.subrange(64, self.ih@.len() as int)
    }

    /// Appends `input` to the message.
    pub fn update(&mut self, input: &[u8])
        requires
            old(self).inner() == old(self).key_pad() + old(self).message(),
            old(self).key_pad().len() == 64,
        ensures
            final(self).key_pad() == old(self).key_pad(),
            final(self).message() == old(self).message() + input@,
            final(self).inner() == final(self).key_pad() + final(self).message(),
    {
        self.ih.update(input);
        proof {
            assert(self.ih@.subrange(64, self.ih@.len() as int) =~= old(self).message() + input@);
            assert(self.ih@ =~= self.padded@ + self.ih@.subrange(64, self.ih@.len() as int));
        }
    }

    /// The MAC of the message.
    pub fn finalize(self) -> (r: Vec<u8>)
        requires
            self.inner() == self.key_pad() + self.message(),
            self.key_pad().len() == 64,
        ensures
            r@ == sha256(Seq::new(64, |i: int| self.key_pad()[i] ^ 0x6a) + sha256(self.key_pad() + self.message())),
    {
        let opad = Self::outer_pad(&self.padded);
        let inner = self.ih.finalize();
        let mut oh = Hash::new();
        oh.update(opad.as_slice());
        oh.update(inner.as_slice());
        proof {
            assert(oh@ =~= opad@ + inner@);
        }
        oh.finalize()
    }
}

} // verus!
