use vstd::prelude::*;
use crate::{aes128_block, aes192_block, aes256_block, aes128_encrypt, aes192_encrypt, aes256_encrypt};

verus! {

/// The block cipher that drives a generator, by key size.
#[derive(Clone, Copy, PartialEq, Eq, Structural, Debug)]
pub enum Cipher {
    Aes128,
    Aes192,
    Aes256,
}

/// The one way a request can be malformed: a seed-sized buffer of another length.
#[derive(Clone, Copy, PartialEq, Eq, Structural, Debug)]
pub enum DrbgError {
    InvalidSeedLength,
}

pub open spec fn key_len(c: Cipher) -> nat {
    match c {
        Cipher::Aes128 => 16,
        Cipher::Aes192 => 24,
        Cipher::Aes256 => 32,
    }
}

/// Length of entropy, personalization and additional input.
pub open spec fn seed_len(c: Cipher) -> nat {
    key_len(c) + 16
}

pub open spec fn encrypt_spec(c: Cipher, key: Seq<u8>, block: Seq<u8>) -> Seq<u8> {
    match c {
        Cipher::Aes128 => aes128_block(key, block),
        Cipher::Aes192 => aes192_block(key, block),
        Cipher::Aes256 => aes256_block(key, block),
    }
}

/// Big-endian increment with carry, modulo 256^len.
pub open spec fn inc_be(s: Seq<u8>) -> Seq<u8>
    decreases s.len(),
{
    if s.len() == 0 {
        s
    } else if s.last() == 255u8 {
        inc_be(s.drop_last()).push(0u8)
    } else {
        s.drop_last().push((s.last() + 1) as u8)
    }
}

/// The counter after `n` increments.
pub open spec fn ctr_add(c: Seq<u8>, n: nat) -> Seq<u8>
    decreases n,
{
    if n == 0 {
        c
    } else {
        inc_be(ctr_add(c, (n - 1) as nat))
    }
}

/// The big-endian value of a byte string.
pub open spec fn be_value(s: Seq<u8>) -> nat
    decreases s.len(),
{
    if s.len() == 0 {
        0
    } else {
        be_value(s.drop_last()) * 256 + s.last() as nat
    }
}

/// One keystream block: the cipher's output on the counter, as 16 bytes.
pub open spec fn block_spec(c: Cipher, key: Seq<u8>, ctr: Seq<u8>) -> Seq<u8> {
    Seq::new(16, |i: int| encrypt_spec(c, key, ctr)[i])
}

/// The first `n` keystream blocks: block `i` encrypts the counter after `i + 1` increments.
pub open spec fn keystream(c: Cipher, key: Seq<u8>, ctr: Seq<u8>, n: nat) -> Seq<u8>
    decreases n,
{
    if n == 0 {
        Seq::empty()
    } else {
        keystream(c, key, ctr, (n - 1) as nat) + block_spec(c, key, ctr_add(ctr, n))
    }
}

pub open spec fn blocks_for(len: nat) -> nat {
    (len + 15) / 16
}

pub open spec fn xor_seq(a: Seq<u8>, b: Seq<u8>) -> Seq<u8> {
    Seq::new(a.len(), |i: int| a[i] ^ b[i])
}

pub open spec fn zeros(n: nat) -> Seq<u8> {
    Seq::new(n, |i: int| 0u8)
}

/// The mathematical state of a generator.
pub struct DrbgState {
    pub cipher: Cipher,
    pub key: Seq<u8>,
    pub ctr: Seq<u8>,
}

/// `len` bytes of keystream and the state after them: the key stays, the counter
/// advances once per block started.
pub open spec fn fill_spec(st: DrbgState, len: nat) -> (Seq<u8>, DrbgState) {
    (
        keystream(st.cipher, st.key, st.ctr, blocks_for(len)).take(len as int),
        DrbgState { ctr: ctr_add(st.ctr, blocks_for(len)), ..st },
    )
}

/// The rekey transform: a seed's worth of keystream, mixed with the provided data,
/// split into the new key and the new counter.
pub open spec fn update_spec(st: DrbgState, add: Option<Seq<u8>>) -> DrbgState {
    let slab = fill_spec(st, seed_len(st.cipher)).0;
    let mixed = match add {
        Some(a) => xor_seq(slab, a),
        None => slab,
    };
    DrbgState {
        cipher: st.cipher,
        key: mixed.take(key_len(st.cipher) as int),
        ctr: mixed.skip(key_len(st.cipher) as int),
    }
}

pub open spec fn instantiate_spec(c: Cipher, entropy: Seq<u8>, pers: Seq<u8>) -> DrbgState {
    update_spec(
        DrbgState { cipher: c, key: zeros(key_len(c)), ctr: zeros(16) },
        Some(xor_seq(entropy, pers)),
    )
}

/// One generate request: an update with the additional input if there is one,
/// `len` bytes of keystream, then an update with the same additional input.
pub open spec fn generate_spec(st: DrbgState, len: nat, add: Option<Seq<u8>>) -> (Seq<u8>, DrbgState) {
    let s1 = if add is Some { update_spec(st, add) } else { st };
    let (out, s2) = fill_spec(s1, len);
    (out, update_spec(s2, add))
}

/// The little-endian value of the first four bytes.
pub open spec fn le_u32(s: Seq<u8>) -> nat {
    s[0] as nat + 256 * s[1] as nat + 65536 * s[2] as nat + 16777216 * s[3] as nat
}

/// The little-endian value of the first eight bytes.
pub open spec fn le_u64(s: Seq<u8>) -> nat {
    le_u32(s) + 4294967296 * le_u32(s.skip(4))
}

proof fn lemma_keystream_len(c: Cipher, key: Seq<u8>, ctr: Seq<u8>, n: nat)
    ensures
        keystream(c, key, ctr, n).len() == 16 * n,
    decreases n,
{
    if n > 0 {
        lemma_keystream_len(c, key, ctr, (n - 1) as nat);
    }
}

/// A request for `n` bytes, `n` not a multiple of 16 or not, returns the first
/// `n` bytes of the request rounded up to whole blocks, and leaves the same state.
pub proof fn lemma_unaligned_request(st: DrbgState, n: nat, add: Option<Seq<u8>>)
    ensures
        generate_spec(st, n, add).0.len() == n,
        generate_spec(st, n, add).0 == generate_spec(st, 16 * blocks_for(n), add).0.take(n as int),
        generate_spec(st, n, add).1 == generate_spec(st, 16 * blocks_for(n), add).1,
{
    let m = 16 * blocks_for(n);
    assert(blocks_for(m) == blocks_for(n) && n <= m) by (nonlinear_arith)
        requires
            m == 16 * ((n + 15) / 16),
    ;
    let s1 = if add is Some { update_spec(st, add) } else { st };
    lemma_keystream_len(s1.cipher, s1.key, s1.ctr, blocks_for(n));
    let ks = keystream(s1.cipher, s1.key, s1.ctr, blocks_for(n));
    assert(ks.take(m as int).take(n as int) =~= ks.take(n as int));
}

/// Mixing in additional input that is not all zero gives another state than the
/// same rekey without it.
pub proof fn lemma_additional_input_changes_update(st: DrbgState, add: Seq<u8>)
    requires
        add.len() == seed_len(st.cipher),
        exists|i: int| 0 <= i < add.len() && add[i] != 0u8,
    ensures
        update_spec(st, Some(add)) != update_spec(st, None),
{
    let slab = fill_spec(st, seed_len(st.cipher)).0;
    lemma_keystream_len(st.cipher, st.key, st.ctr, blocks_for(seed_len(st.cipher)));
    assert(blocks_for(seed_len(st.cipher)) * 16 >= seed_len(st.cipher));
    let i = choose|i: int| 0 <= i < add.len() && add[i] != 0u8;
    let k = key_len(st.cipher) as int;
    let a = update_spec(st, Some(add));
    let b = update_spec(st, None);
    let x = slab[i];
    let y = add[i];
    assert(x ^ y != x) by (bit_vector)
        requires
            y != 0u8,
    ;
    if i < k {
        assert(a.key[i] != b.key[i]);
    } else {
        assert(a.ctr[i - k] != b.ctr[i - k]);
    }
}

pub open spec fn pow256(n: nat) -> nat
    decreases n,
{
    if n == 0 { 1 } else { 256 * pow256((n - 1) as nat) }
}

/// Incrementing keeps the length and adds one to the big-endian value, modulo 256^len.
pub proof fn lemma_inc_be(s: Seq<u8>)
    ensures
        inc_be(s).len() == s.len(),
        be_value(s) < pow256(s.len()),
        be_value(inc_be(s)) == (be_value(s) + 1) % pow256(s.len()),
    decreases s.len(),
{
    if s.len() > 0 {
        let d = s.drop_last();
        lemma_inc_be(d);
        let p = pow256(d.len()) as int;
        let v = be_value(d) as int;
        let l = s.last() as int;
        assert(0 <= v < p);
        assert(0 <= l < 256);
        assert(v * 256 + l < 256 * p) by (nonlinear_arith)
            requires 0 <= v < p, 0 <= l < 256,
        ;
        if s.last() == 255u8 {
            let w = be_value(inc_be(d)) as int;
            assert(inc_be(s).drop_last() == inc_be(d));
            assert(inc_be(s).last() == 0u8);
            assert(w == (v + 1) % p);
            if v + 1 == p {
                assert(w == 0) by (nonlinear_arith) requires w == (v + 1) % p, v + 1 == p, p > 0;
                assert((v * 256 + l + 1) % (256 * p) == 0) by (nonlinear_arith)
                    requires v + 1 == p, l == 255, p > 0;
            } else {
                assert(w == v + 1) by (nonlinear_arith) requires w == (v + 1) % p, 0 <= v, v + 1 < p;
                assert(v * 256 + l + 1 == w * 256);
                assert(w * 256 < 256 * p) by (nonlinear_arith) requires w < p;
                vstd::arithmetic::div_mod::lemma_small_mod((w * 256) as nat, (256 * p) as nat);
            }
        } else {
            assert(inc_be(s).drop_last() == d);
            assert(inc_be(s).last() == (l + 1) as u8);
            assert((v * 256 + l + 1) % (256 * p) == v * 256 + l + 1) by (nonlinear_arith)
                requires 0 <= v < p, 0 <= l < 255;
        }
    }
}

/// The counter after `n` increments holds the start value plus `n`, modulo 256^len:
/// the blocks of one run of requests use distinct counter values until it wraps.
pub proof fn lemma_ctr_add(c: Seq<u8>, n: nat)
    ensures
        ctr_add(c, n).len() == c.len(),
        be_value(ctr_add(c, n)) == (be_value(c) + n) % pow256(c.len()),
    decreases n,
{
    lemma_inc_be(c);
    if n > 0 {
        let prev = ctr_add(c, (n - 1) as nat);
        lemma_ctr_add(c, (n - 1) as nat);
        lemma_inc_be(prev);
        let p = pow256(c.len()) as int;
        let v = be_value(c) as int;
        assert(p > 0);
        assert(ctr_add(c, n) == inc_be(prev));
        assert(be_value(prev) == (v + (n - 1)) % p);
        vstd::arithmetic::div_mod::lemma_add_mod_noop(v + n - 1, 1, p);
        if p > 1 {
            vstd::arithmetic::div_mod::lemma_small_mod(1, p as nat);
        } else {
            assert(((v + n - 1) % p + 1) % p == 0 && (v + n) % p == 0) by (nonlinear_arith)
                requires p == 1;
        }
    } else {
        vstd::arithmetic::div_mod::lemma_small_mod(be_value(c), pow256(c.len()));
    }
}

/// Counter values after distinct numbers of increments below 256^len differ.
pub proof fn lemma_counters_distinct(c: Seq<u8>, i: nat, j: nat)
    requires
        i < j < pow256(c.len()),
    ensures
        ctr_add(c, i) != ctr_add(c, j),
{
    lemma_ctr_add(c, i);
    lemma_ctr_add(c, j);
    lemma_inc_be(c);
    let p = pow256(c.len()) as int;
    let v = be_value(c) as int;
    assert((v + i) % p != (v + j) % p) by (nonlinear_arith)
        requires 0 <= v < p, i < j < p, 0 <= i;
}

/// A CTR_DRBG generator: the cipher key and a 16-byte big-endian counter.
pub struct CtrDrbg {
    cipher: Cipher,
    key: Vec<u8>,
    ctr: [u8; 16],
}

impl View for CtrDrbg {
    type V = DrbgState;

    closed spec fn view(&self) -> DrbgState {
        DrbgState { cipher: self.cipher, key: self.key@, ctr: self.ctr@ }
    }
}

fn key_size(c: Cipher) -> (r: usize)
    ensures
        r == key_len(c),
{
    match c {
        Cipher::Aes128 => 16,
        Cipher::Aes192 => 24,
        Cipher::Aes256 => 32,
    }
}

/// Adds one to a big-endian counter, carrying toward the first byte.
fn increment_counter(ctr: &mut [u8; 16])
    ensures
        final(ctr)@ == inc_be(old(ctr)@),
{
    let mut i: usize = 16;
    let mut carry = true;
    proof {
        assert(ctr@.take(16) == ctr@);
        assert(ctr@.skip(16) =~= Seq::<u8>::empty());
        assert(inc_be(ctr@) + ctr@.skip(16) =~= inc_be(ctr@));
    }
    while carry && i > 0
        invariant
            0 <= i <= 16,
            ctr@.len() == 16,
            carry ==> ctr@.take(i as int) == old(ctr)@.take(i as int),
            carry ==> inc_be(old(ctr)@) == inc_be(ctr@.take(i as int)) + ctr@.skip(i as int),
            !carry ==> ctr@ == inc_be(old(ctr)@),
        decreases i + if carry { 1int } else { 0int },
    {
        let b = ctr[i - 1];
        let ghost pre = ctr@;
        proof {
            let p = pre.take(i as int);
            assert(p.drop_last() == pre.take(i - 1));
            assert(p.last() == b);
        }
        if b == 255 {
            ctr[i - 1] = 0;
            proof {
                assert(ctr@.take(i - 1) == pre.take(i - 1));
                assert(ctr@.skip(i - 1) == seq![0u8] + pre.skip(i as int));
                assert(inc_be(pre.take(i as int)) == inc_be(ctr@.take(i - 1)).push(0u8));
                assert(inc_be(ctr@.take(i - 1)).push(0u8) + pre.skip(i as int)
                    == inc_be(ctr@.take(i - 1)) + ctr@.skip(i - 1));
                assert(ctr@.take(i - 1) == old(ctr)@.take(i - 1));
            }
            i = i - 1;
        } else {
            ctr[i - 1] = b + 1;
            proof {
                assert(inc_be(pre.take(i as int)) == pre.take(i - 1).push((b + 1) as u8));
                assert(ctr@ == pre.take(i - 1).push((b + 1) as u8) + pre.skip(i as int));
            }
            carry = false;
        }
    }
    proof {
        if carry {
            assert(ctr@.take(0) == Seq::<u8>::empty());
            assert(ctr@.skip(0) == ctr@);
        }
    }
}

impl CtrDrbg {
    pub open spec fn wf(&self) -> bool {
        self@.key.len() == key_len(self@.cipher)
    }

    /// Advances the counter and encrypts it under the current key.
    fn next_block(&mut self) -> (r: [u8; 16])
        requires
            old(self).wf(),
        ensures
            final(self).wf(),
            final(self)@ == (DrbgState { ctr: inc_be(old(self)@.ctr), ..old(self)@ }),
            r@ == encrypt_spec(old(self)@.cipher, old(self)@.key, inc_be(old(self)@.ctr)),
    {
        increment_counter(&mut self.ctr);
        let block = self.ctr;
        match self.cipher {
            Cipher::Aes128 => aes128_encrypt(self.key.as_slice(), block),
            Cipher::Aes192 => aes192_encrypt(self.key.as_slice(), block),
            Cipher::Aes256 => aes256_encrypt(self.key.as_slice(), block),
        }
    }

    /// `len` bytes of keystream; the final block's unused bytes are dropped.
    fn next(&mut self, len: usize) -> (r: Vec<u8>)
        requires
            old(self).wf(),
            len <= usize::MAX - 16,
        ensures
            final(self).wf(),
            r@.len() == len,
            (r@, final(self)@) == fill_spec(old(self)@, len as nat),
    {
        let ghost st = self@;
        let mut ks: Vec<u8> = Vec::new();
        let mut n: usize = 0;
        while ks.len() < len
            invariant
                self.wf(),
                len <= usize::MAX - 16,
                ks@.len() == 16 * n,
                16 * n < len + 16,
                ks@ == keystream(st.cipher, st.key, st.ctr, n as nat),
                self@ == (DrbgState { ctr: ctr_add(st.ctr, n as nat), ..st }),
            decreases len + 16 - ks@.len(),
        {
            let block = self.next_block();
            let ghost before = ks@;
            let mut t: usize = 0;
            while t < 16
                invariant
                    0 <= t <= 16,
                    ks@ == before + block@.take(t as int),
                    before.len() + 16 < usize::MAX,
                decreases 16 - t,
            {
                ks.push(block[t]);
                proof {
                    assert(block@.take(t + 1) == block@.take(t as int).push(block@[t as int]));
                }
                t = t + 1;
            }
            proof {
                assert(block@ =~= block_spec(st.cipher, st.key, ctr_add(st.ctr, (n + 1) as nat)));
                assert(block@.take(16) == block@);
                assert(ctr_add(st.ctr, (n + 1) as nat) == inc_be(ctr_add(st.ctr, n as nat)));
            }
            n = n + 1;
        }
        proof {
            assert(n == blocks_for(len as nat)) by (nonlinear_arith)
                requires
                    16 * n >= len,
                    16 * n < len + 16,
            ;
        }
        let mut out: Vec<u8> = Vec::new();
        let mut i: usize = 0;
        while i < len
            invariant
                0 <= i <= len,
                len <= ks@.len(),
                out@ == ks@.take(i as int),
            decreases len - i,
        {
            out.push(ks[i]);
            proof {
                assert(ks@.take(i + 1) == ks@.take(i as int).push(ks@[i as int]));
            }
            i = i + 1;
        }
        out
    }

    /// Rekeys from a seed's worth of keystream, XORed with `add` when given.
    fn update(&mut self, add: Option<&[u8]>)
        requires
            old(self).wf(),
            add matches Some(a) ==> a@.len() == seed_len(old(self)@.cipher),
        ensures
            final(self).wf(),
            final(self)@ == update_spec(old(self)@, match add {
                Some(a) => Some(a@),
                None => None,
            }),
    {
        let ghost st = self@;
        let klen = key_size(self.cipher);
        let slab = self.next(klen + 16);
        let mut key: Vec<u8> = Vec::new();
        let mut ctr: [u8; 16] = [0u8; 16];
        let mut i: usize = 0;
        let ghost mixed = match add {
            Some(a) => xor_seq(slab@, a@),
            None => slab@,
        };
        while i < klen + 16
            invariant
                0 <= i <= klen + 16,
                klen == key_len(st.cipher),
                slab@.len() == klen + 16,
                add matches Some(a) ==> a@.len() == klen + 16,
                mixed == (match add {
                    Some(a) => xor_seq(slab@, a@),
                    None => slab@,
                }),
                i <= klen ==> key@ == mixed.take(i as int),
                i > klen ==> key@ == mixed.take(klen as int),
                ctr@.len() == 16,
                forall|j: int| 0 <= j < i - klen ==> ctr@[j] == mixed[klen + j],
            decreases klen + 16 - i,
        {
            let v = match add {
                Some(a) => slab[i] ^ a[i],
                None => slab[i],
            };
            if i < klen {
                key.push(v);
                proof {
                    assert(mixed.take(i + 1) == mixed.take(i as int).push(mixed[i as int]));
                }
            } else {
                ctr[i - klen] = v;
            }
            i = i + 1;
        }
        proof {
            assert(ctr@ == mixed.skip(klen as int));
        }
        self.key = key;
        self.ctr = ctr;
    }

    /// Instantiates a generator from entropy and a personalization string, both
    /// exactly a seed long (key size plus 16 bytes).
    pub fn new(cipher: Cipher, entropy: &[u8], pers: &[u8]) -> (r: Result<CtrDrbg, DrbgError>)
        ensures
            match r {
                Ok(d) => entropy@.len() == seed_len(cipher) && pers@.len() == seed_len(cipher)
                    && d.wf() && d@ == instantiate_spec(cipher, entropy@, pers@),
                Err(e) => e == DrbgError::InvalidSeedLength
                    && !(entropy@.len() == seed_len(cipher) && pers@.len() == seed_len(cipher)),
            },
    {
        let klen = key_size(cipher);
        if entropy.len() != klen + 16 || pers.len() != klen + 16 {
            return Err(DrbgError::InvalidSeedLength);
        }
        let mut key: Vec<u8> = Vec::new();
        let mut i: usize = 0;
        while i < klen
            invariant
                0 <= i <= klen,
                key@ == zeros(i as nat),
            decreases klen - i,
        {
            key.push(0u8);
            proof {
                assert(key@ == zeros((i + 1) as nat));
            }
            i = i + 1;
        }
        let mut seed: Vec<u8> = Vec::new();
        let mut j: usize = 0;
        while j < entropy.len()
            invariant
                0 <= j <= entropy@.len(),
                entropy@.len() == pers@.len(),
                seed@ == xor_seq(entropy@, pers@).take(j as int),
            decreases entropy@.len() - j,
        {
            seed.push(entropy[j] ^ pers[j]);
            proof {
                assert(xor_seq(entropy@, pers@).take(j + 1)
                    == xor_seq(entropy@, pers@).take(j as int).push(entropy@[j as int] ^ pers@[j as int]));
            }
            j = j + 1;
        }
        proof {
            assert(seed@ =~= xor_seq(entropy@, pers@));
        }
        let mut ctr: [u8; 16] = [0u8; 16];
        let mut k: usize = 0;
        while k < 16
            invariant
                0 <= k <= 16,
                ctr@.len() == 16,
                forall|t: int| 0 <= t < k ==> ctr@[t] == 0u8,
            decreases 16 - k,
        {
            ctr[k] = 0u8;
            k = k + 1;
        }
        proof {
            assert(ctr@ =~= zeros(16));
        }
        let mut s = CtrDrbg { cipher, key, ctr };
        assert(s@ == (DrbgState { cipher, key: zeros(key_len(cipher)), ctr: zeros(16) }));
        s.update(Some(seed.as_slice()));
        Ok(s)
    }

    /// One generate request: `len` bytes, with the additional input mixed in
    /// before and after when there is one.
    pub fn fill_bytes_impl(&mut self, len: usize, add: Option<&[u8]>) -> (r: Vec<u8>)
        requires
            old(self).wf(),
            len <= usize::MAX - 16,
            add matches Some(a) ==> a@.len() == seed_len(old(self)@.cipher),
        ensures
            final(self).wf(),
            r@.len() == len,
            (r@, final(self)@) == generate_spec(old(self)@, len as nat, match add {
                Some(a) => Some(a@),
                None => None,
            }),
    {
        if add.is_some() {
            self.update(add);
        }
        let out = self.next(len);
        self.update(add);
        out
    }

    /// Fills `dest` with output, with no additional input.
    pub fn fill_bytes(&mut self, dest: &mut Vec<u8>)
        requires
            old(self).wf(),
            old(dest)@.len() <= usize::MAX - 16,
        ensures
            final(self).wf(),
            (final(dest)@, final(self)@) == generate_spec(old(self)@, old(dest)@.len(), None),
    {
        let out = self.fill_bytes_impl(dest.len(), None);
        *dest = out;
    }

    /// Fills `dest` with output, mixing in `add`, which must be a seed long.
    pub fn fill_bytes_with_additional(&mut self, dest: &mut Vec<u8>, add: &[u8]) -> (r: Result<(), DrbgError>)
        requires
            old(self).wf(),
            old(dest)@.len() <= usize::MAX - 16,
        ensures
            final(self).wf(),
            match r {
                Ok(()) => add@.len() == seed_len(old(self)@.cipher)
                    && (final(dest)@, final(self)@) == generate_spec(old(self)@, old(dest)@.len(), Some(add@)),
                Err(e) => e == DrbgError::InvalidSeedLength && add@.len() != seed_len(old(self)@.cipher)
                    && *final(dest) == *old(dest) && *final(self) == *old(self),
            },
    {
        if add.len() != key_size(self.cipher) + 16 {
            return Err(DrbgError::InvalidSeedLength);
        }
        let out = self.fill_bytes_impl(dest.len(), Some(add));
        *dest = out;
        Ok(())
    }

    /// Four output bytes read as a little-endian integer.
    pub fn next_u32(&mut self) -> (r: u32)
        requires
            old(self).wf(),
        ensures
            final(self).wf(),
            r as nat == le_u32(generate_spec(old(self)@, 4, None).0),
            final(self)@ == generate_spec(old(self)@, 4, None).1,
    {
        let b = self.fill_bytes_impl(4, None);
        b[0] as u32 + 256 * b[1] as u32 + 65536 * b[2] as u32 + 16777216 * b[3] as u32
    }

    /// Eight output bytes read as a little-endian integer.
    pub fn next_u64(&mut self) -> (r: u64)
        requires
            old(self).wf(),
        ensures
            final(self).wf(),
            r as nat == le_u64(generate_spec(old(self)@, 8, None).0),
            final(self)@ == generate_spec(old(self)@, 8, None).1,
    {
        let b = self.fill_bytes_impl(8, None);
        let lo = b[0] as u64 + 256 * b[1] as u64 + 65536 * b[2] as u64 + 16777216 * b[3] as u64;
        let hi = b[4] as u64 + 256 * b[5] as u64 + 65536 * b[6] as u64 + 16777216 * b[7] as u64;
        proof {
            assert(b@.skip(4)[0] == b@[4]);
            assert(b@.skip(4)[1] == b@[5]);
            assert(b@.skip(4)[2] == b@[6]);
            assert(b@.skip(4)[3] == b@[7]);
        }
        lo + 4294967296 * hi
    }
}

} // verus!
