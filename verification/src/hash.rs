//! MurmurHash3 finalization and mixing, and a chained hash table of `u32` indices.
use vstd::prelude::*;

verus! {

/// The MurmurHash3 32-bit finalization mix.
pub open spec fn spec_murmur_finalize32(hash: u32) -> u32 {
    let h1 = hash ^ (hash >> 16u32);
    let h2 = h1.wrapping_mul(0x85eb_ca6bu32);
    let h3 = h2 ^ (h2 >> 13u32);
    let h4 = h3.wrapping_mul(0xc2b2_ae35u32);
    h4 ^ (h4 >> 16u32)
}

/// Rotation of a 32-bit word to the left by `r` bits, `0 < r < 32`.
pub open spec fn rotl32(x: u32, r: u32) -> u32
    recommends
        0 < r < 32,
{
    (x << r) | (x >> ((32 - r) as u32))
}

/// One MurmurHash3 block step: mixes `element` into the running `hash`.
pub open spec fn murmur_step(hash: u32, element: u32) -> u32 {
    let e1 = element.wrapping_mul(0xcc9e_2d51u32);
    let e2 = rotl32(e1, 15);
    let e3 = e2.wrapping_mul(0x1b87_3593u32);
    let h1 = hash ^ e3;
    let h2 = rotl32(h1, 13);
    h2.wrapping_mul(5u32).wrapping_add(0xe654_6b64u32)
}

/// The running hash after mixing every word of `data`, from a zero seed.
pub open spec fn murmur_blocks(data: Seq<u32>) -> u32
    decreases data.len(),
{
    if data.len() == 0 {
        0
    } else {
        murmur_step(murmur_blocks(data.drop_last()), data.last())
    }
}

/// MurmurHash3 (32-bit, seed 0) of a sequence of words, without the length mix.
pub open spec fn spec_murmur32(data: Seq<u32>) -> u32 {
    spec_murmur_finalize32(murmur_blocks(data))
}

/// The inverse of the MurmurHash3 finalization mix: each step is undone in
/// reverse order (the odd multipliers by their inverses modulo 2^32, the
/// xor-shifts by repeated shifting).
pub open spec fn spec_murmur_unfinalize32(hash: u32) -> u32 {
    let h4 = hash ^ (hash >> 16u32);
    let h3 = h4.wrapping_mul(0x7ed1_b41du32);
    let h2 = h3 ^ (h3 >> 13u32) ^ (h3 >> 26u32);
    let h1 = h2.wrapping_mul(0xa5cb_9243u32);
    h1 ^ (h1 >> 16u32)
}

proof fn lemma_xorshift16_inverse(x: u32)
    ensures
        (x ^ (x >> 16u32)) ^ ((x ^ (x >> 16u32)) >> 16u32) == x,
{
    assert((x ^ (x >> 16u32)) ^ ((x ^ (x >> 16u32)) >> 16u32) == x) by (bit_vector);
}

proof fn lemma_xorshift13_inverse(x: u32)
    ensures
        ({
            let y = x ^ (x >> 13u32);
            y ^ (y >> 13u32) ^ (y >> 26u32)
        }) == x,
{
    assert(({
        let y = x ^ (x >> 13u32);
        y ^ (y >> 13u32) ^ (y >> 26u32)
    }) == x) by (bit_vector);
}

proof fn lemma_mul_inverse(x: u32)
    ensures
        x.wrapping_mul(0x85eb_ca6bu32).wrapping_mul(0xa5cb_9243u32) == x,
        x.wrapping_mul(0xc2b2_ae35u32).wrapping_mul(0x7ed1_b41du32) == x,
{
    assert(x.wrapping_mul(0x85eb_ca6bu32).wrapping_mul(0xa5cb_9243u32) == x) by (bit_vector);
    assert(x.wrapping_mul(0xc2b2_ae35u32).wrapping_mul(0x7ed1_b41du32) == x) by (bit_vector);
}

/// Law: the finalization mix is a bijection on 32-bit words (it has an inverse,
/// so distinct inputs give distinct outputs), and it maps zero to zero.
pub proof fn lemma_murmur_finalize32_bijective(a: u32, b: u32)
    ensures
        spec_murmur_unfinalize32(spec_murmur_finalize32(a)) == a,
        a != b ==> spec_murmur_finalize32(a) != spec_murmur_finalize32(b),
        spec_murmur_finalize32(0) == 0,
{
    let h1 = a ^ (a >> 16u32);
    let h2 = h1.wrapping_mul(0x85eb_ca6bu32);
    let h3 = h2 ^ (h2 >> 13u32);
    let h4 = h3.wrapping_mul(0xc2b2_ae35u32);
    lemma_xorshift16_inverse(h4);
    lemma_mul_inverse(h3);
    lemma_xorshift13_inverse(h2);
    lemma_mul_inverse(h1);
    lemma_xorshift16_inverse(a);
    if a != b {
        let g1 = b ^ (b >> 16u32);
        let g2 = g1.wrapping_mul(0x85eb_ca6bu32);
        let g3 = g2 ^ (g2 >> 13u32);
        let g4 = g3.wrapping_mul(0xc2b2_ae35u32);
        lemma_xorshift16_inverse(g4);
        lemma_mul_inverse(g3);
        lemma_xorshift13_inverse(g2);
        lemma_mul_inverse(g1);
        lemma_xorshift16_inverse(b);
    }
    assert(spec_murmur_finalize32(0) == 0) by (bit_vector);
}

/// Finalization mix of MurmurHash3.
pub fn murmur_finalize32(hash: u32) -> (r: u32)
    ensures
        r == spec_murmur_finalize32(hash),
{
    let mut h = hash;
    h = h ^ (h >> 16u32);
    h = h.wrapping_mul(0x85eb_ca6bu32);
    h = h ^ (h >> 13u32);
    h = h.wrapping_mul(0xc2b2_ae35u32);
    h = h ^ (h >> 16u32);
    h
}

/// MurmurHash3 of a word sequence.
pub fn murmur32(data: &[u32]) -> (r: u32)
    ensures
        r == spec_murmur32(data@),
{
    let mut hash: u32 = 0;
    let mut i: usize = 0;
    while i < data.len()
        invariant
            0 <= i <= data@.len(),
            hash == murmur_blocks(data@.subrange(0, i as int)),
        decreases data@.len() - i,
    {
        let element = data[i];
        let mut e = element.wrapping_mul(0xcc9e_2d51u32);
        e = (e << 15u32) | (e >> 17u32);
        e = e.wrapping_mul(0x1b87_3593u32);
        hash = hash ^ e;
        hash = (hash << 13u32) | (hash >> 19u32);
        hash = hash.wrapping_mul(5u32).wrapping_add(0xe654_6b64u32);
        assert(data@.subrange(0, i + 1).drop_last() =~= data@.subrange(0, i as int));
        i = i + 1;
    }
    assert(data@.subrange(0, data@.len() as int) =~= data@);
    murmur_finalize32(hash)
}


/// The index value that marks an empty bucket or the end of a chain.
pub const INVALID_INDEX: u32 = 0xffff_ffff;

/// `n` is a power of two that fits in 32 bits.
pub open spec fn is_pow2(n: int) -> bool {
    exists|k: nat| k < 32 && n == pow2(k)
}

/// `2` raised to `k`.
pub open spec fn pow2(k: nat) -> nat
    decreases k,
{
    if k == 0 {
        1
    } else {
        2 * pow2((k - 1) as nat)
    }
}

/// The smallest power of two that is at least `v` (`v <= 2^31`).
pub fn next_power_of_two(v: u32) -> (r: u32)
    requires
        v <= 0x8000_0000,
    ensures
        is_pow2(r as int),
        r >= v,
        r == 1 || r / 2 < v,
{
    let mut p: u32 = 1;
    let ghost mut k: nat = 0;
    proof {
        lemma_pow2_31();
    }
    while p < v
        invariant
            p == pow2(k),
            p >= 1,
            k <= 31,
            pow2(31) == 0x8000_0000,
            p == 1 || p / 2 < v,
            v <= 0x8000_0000,
        decreases 32 - k,
    {
        proof {
            if k >= 31 {
                lemma_pow2_ge(k, 31);
            }
        }
        p = p * 2;
        proof {
            k = k + 1;
        }
    }
    p
}

proof fn lemma_pow2_ge(a: nat, b: nat)
    requires
        a >= b,
    ensures
        pow2(a) >= pow2(b),
    decreases a,
{
    if a > b {
        lemma_pow2_ge((a - 1) as nat, b);
    }
}

proof fn lemma_pow2_31()
    ensures
        pow2(31) == 0x8000_0000,
{
    reveal_with_fuel(pow2, 32);
}

/// The first index of a chain, or `INVALID_INDEX` for an empty chain.
pub open spec fn head_of(c: Seq<u32>) -> u32 {
    if c.len() == 0 {
        INVALID_INDEX
    } else {
        c[0]
    }
}

/// The index that follows position `t` of a chain, or `INVALID_INDEX` after its last one.
pub open spec fn succ_of(c: Seq<u32>, t: int) -> u32 {
    if t + 1 < c.len() {
        c[t + 1]
    } else {
        INVALID_INDEX
    }
}

/// The link table `s` cut or extended to `n` entries, new entries unlinked.
pub open spec fn resized_links(s: Seq<u32>, n: nat) -> Seq<u32> {
    Seq::new(n, |i: int| if i < s.len() { s[i] } else { INVALID_INDEX })
}

/// `r` is the power of two that `u32::next_power_of_two` gives for `v`.
pub open spec fn is_next_pow2(r: int, v: int) -> bool {
    is_pow2(r) && r >= v && (r == 1 || r / 2 < v)
}

/// A hash table of `u32` indices, chained through a shared link array.
///
/// Bucket `b` holds a chain of indices: `first` gives its head, `next` the index
/// after a given one. An index belongs to at most one chain.
pub struct FHashTable {
    hash_size: u32,
    hash_mask: u32,
    index_size: u32,
    hash: Vec<u32>,
    next_index: Vec<u32>,
    chains: Ghost<Seq<Seq<u32>>>,
}

impl FHashTable {
    /// Number of buckets.
    pub closed spec fn bucket_count(&self) -> nat {
        self.hash_size as nat
    }

    /// Number of indices that the link array can hold.
    pub closed spec fn capacity(&self) -> nat {
        self.index_size as nat
    }

    /// Head entry of every bucket.
    pub closed spec fn heads(&self) -> Seq<u32> {
        self.hash@
    }

    /// Link entry of every index.
    pub closed spec fn links(&self) -> Seq<u32> {
        self.next_index@
    }

    /// The bucket that `key` selects.
    pub closed spec fn bucket_of(&self, key: u32) -> int {
        (key & self.hash_mask) as int
    }

    /// The chain of indices of every bucket, head first.
    pub closed spec fn chains(&self) -> Seq<Seq<u32>> {
        self.chains@
    }

    /// `x` lies on some chain.
    pub open spec fn is_member(&self, x: u32) -> bool {
        exists|b: int, t: int|
            0 <= b < self.chains().len() && 0 <= t < self.chains()[b].len() && #[trigger] self.chains()[b][t] == x
    }

    /// The array shapes agree with the sizes.
    pub closed spec fn inv(&self) -> bool {
        &&& self.hash_size > 0
        &&& self.hash_mask == self.hash_size - 1
        &&& self.hash@.len() == self.hash_size
        &&& self.next_index@.len() == self.index_size
        &&& self.chains@.len() == self.hash_size
    }

    /// The arrays encode the chains: heads and links follow each chain, every
    /// chained index is in range and no index appears twice.
    pub closed spec fn wf(&self) -> bool {
        &&& self.inv()
        &&& forall|b: int, t: int|
            0 <= b < self.chains@.len() && 0 <= t < self.chains@[b].len()
                ==> #[trigger] self.chains@[b][t] < self.index_size
        &&& forall|b: int| 0 <= b < self.chains@.len() ==> #[trigger] self.hash@[b] == head_of(self.chains@[b])
        &&& forall|b: int, t: int|
            0 <= b < self.chains@.len() && 0 <= t < self.chains@[b].len()
                ==> self.next_index@[#[trigger] self.chains@[b][t] as int] == succ_of(self.chains@[b], t)
        &&& forall|b1: int, t1: int, b2: int, t2: int|
            0 <= b1 < self.chains@.len() && 0 <= t1 < self.chains@[b1].len() && 0 <= b2
                < self.chains@.len() && 0 <= t2 < self.chains@[b2].len() && #[trigger] self.chains@[b1][t1]
                == #[trigger] self.chains@[b2][t2] ==> b1 == b2 && t1 == t2
    }

    /// A well-formed table has consistent shapes.
    pub proof fn lemma_wf_inv(&self)
        requires
            self.wf(),
        ensures
            self.inv(),
    {
    }

    /// Indices on the chains of a well-formed table lie below its capacity.
    pub proof fn lemma_member_in_range(&self, x: u32)
        requires
            self.wf(),
            self.is_member(x),
        ensures
            x < self.capacity(),
            x != INVALID_INDEX,
    {
        let (b, t) = choose|b: int, t: int|
            0 <= b < self.chains().len() && 0 <= t < self.chains()[b].len() && #[trigger] self.chains()[b][t] == x;
        assert(self.chains@[b][t] < self.index_size);
    }

    /// Every key selects a bucket in range.
    pub proof fn lemma_bucket_in_range(&self, key: u32)
        requires
            self.inv(),
        ensures
            0 <= self.bucket_of(key) < self.bucket_count(),
            self.heads().len() == self.bucket_count(),
            self.links().len() == self.capacity(),
            self.chains().len() == self.bucket_count(),
    {
        let m = self.hash_mask;
        assert(key & m <= m) by (bit_vector);
    }

    fn filled(n: u32) -> (v: Vec<u32>)
        ensures
            v@ == Seq::new(n as nat, |i: int| INVALID_INDEX),
    {
        let mut v: Vec<u32> = Vec::new();
        let mut i: u32 = 0;
        while i < n
            invariant
                i <= n,
                v@ == Seq::new(i as nat, |j: int| INVALID_INDEX),
            decreases n - i,
        {
            v.push(INVALID_INDEX);
            i = i + 1;
        }
        v
    }

    /// A table of `hash_size` empty buckets for indices below `index_size`.
    pub fn new(hash_size: u32, index_size: u32) -> (r: Self)
        requires
            hash_size > 0,
            is_pow2(hash_size as int),
        ensures
            r.wf(),
            r.bucket_count() == hash_size,
            r.capacity() == index_size,
            r.heads() == Seq::new(hash_size as nat, |i: int| INVALID_INDEX),
            r.links() == Seq::new(index_size as nat, |i: int| INVALID_INDEX),
            r.chains() == Seq::new(hash_size as nat, |i: int| Seq::<u32>::empty()),
    {
        FHashTable {
            hash_size,
            hash_mask: hash_size - 1,
            index_size,
            hash: Self::filled(hash_size),
            next_index: Self::filled(index_size),
            chains: Ghost(Seq::new(hash_size as nat, |i: int| Seq::<u32>::empty())),
        }
    }

    /// Empties every bucket; the link array keeps its entries.
    pub fn clear(&mut self)
        requires
            old(self).inv(),
        ensures
            final(self).wf(),
            final(self).bucket_count() == old(self).bucket_count(),
            final(self).capacity() == old(self).capacity(),
            forall|key: u32| final(self).bucket_of(key) == old(self).bucket_of(key),
            final(self).heads() == Seq::new(old(self).bucket_count(), |i: int| INVALID_INDEX),
            final(self).links() == old(self).links(),
            final(self).chains() == Seq::new(old(self).bucket_count(), |i: int| Seq::<u32>::empty()),
    {
        let mut i: usize = 0;
        let n = self.hash.len();
        while i < n
            invariant
                n == self.hash@.len(),
                i <= n,
                self.hash_size == old(self).hash_size,
                self.hash_mask == old(self).hash_mask,
                self.index_size == old(self).index_size,
                self.next_index == old(self).next_index,
                self.chains == old(self).chains,
                self.hash@.len() == old(self).hash@.len(),
                forall|j: int| 0 <= j < i ==> self.hash@[j] == INVALID_INDEX,
            decreases n - i,
        {
            self.hash[i] = INVALID_INDEX;
            i = i + 1;
        }
        self.chains = Ghost(Seq::new(self.hash_size as nat, |i: int| Seq::<u32>::empty()));
        assert(self.hash@ =~= Seq::new(self.hash_size as nat, |i: int| INVALID_INDEX));
    }

    /// Replaces the table with an empty one of the given sizes.
    pub fn clear_with_size(&mut self, hash_size: u32, index_size: u32)
        requires
            hash_size > 0,
            is_pow2(hash_size as int),
        ensures
            final(self).wf(),
            final(self).bucket_count() == hash_size,
            final(self).capacity() == index_size,
            final(self).heads() == Seq::new(hash_size as nat, |i: int| INVALID_INDEX),
            final(self).links() == Seq::new(index_size as nat, |i: int| INVALID_INDEX),
            final(self).chains() == Seq::new(hash_size as nat, |i: int| Seq::<u32>::empty()),
    {
        *self = Self::new(hash_size, index_size);
    }

    /// Sets the number of indices the link array holds; new links are unlinked.
    pub fn resize(&mut self, new_index_size: u32)
        requires
            old(self).inv(),
        ensures
            final(self).inv(),
            final(self).bucket_count() == old(self).bucket_count(),
            forall|key: u32| final(self).bucket_of(key) == old(self).bucket_of(key),
            final(self).capacity() == new_index_size,
            final(self).heads() == old(self).heads(),
            final(self).links() == resized_links(old(self).links(), new_index_size as nat),
            final(self).chains() == old(self).chains(),
            old(self).wf() && (forall|x: u32| old(self).is_member(x) ==> x < new_index_size)
                ==> final(self).wf(),
    {
        if new_index_size != self.index_size {
            self.next_index.resize(new_index_size as usize, INVALID_INDEX);
            self.index_size = new_index_size;
        }
        assert(self.next_index@ =~= resized_links(old(self).next_index@, new_index_size as nat));
        proof {
            if old(self).wf() && (forall|x: u32| old(self).is_member(x) ==> x < new_index_size) {
                assert forall|b: int, t: int|
                    0 <= b < self.chains@.len() && 0 <= t < self.chains@[b].len()
                        implies #[trigger] self.chains@[b][t] < self.index_size by {
                    assert(old(self).chains()[b][t] == self.chains@[b][t]);
                    assert(old(self).is_member(self.chains@[b][t]));
                }
                assert forall|b: int, t: int|
                    0 <= b < self.chains@.len() && 0 <= t < self.chains@[b].len()
                        implies self.next_index@[#[trigger] self.chains@[b][t] as int] == succ_of(
                        self.chains@[b],
                        t,
                    ) by {
                    assert(old(self).chains()[b][t] == self.chains@[b][t]);
                    assert(old(self).is_member(self.chains@[b][t]));
                }
            }
        }
    }

    /// Head index of the bucket that `key` selects.
    pub fn first(&self, key: u32) -> (r: u32)
        requires
            self.inv(),
        ensures
            r == self.heads()[self.bucket_of(key)],
            self.wf() ==> r == head_of(self.chains()[self.bucket_of(key)]),
    {
        proof {
            self.lemma_bucket_in_range(key);
        }
        let k = key & self.hash_mask;
        self.hash[k as usize]
    }

    /// The index that follows `index` on its chain.
    pub fn next(&self, index: u32) -> (r: u32)
        requires
            self.inv(),
            index < self.capacity(),
        ensures
            r == self.links()[index as int],
            self.wf() ==> forall|b: int, t: int|
                0 <= b < self.chains().len() && 0 <= t < self.chains()[b].len() && #[trigger] self.chains()[b][t]
                    == index ==> r == succ_of(self.chains()[b], t),
    {
        self.next_index[index as usize]
    }

    /// `index` names an entry rather than the end of a chain.
    pub fn is_valid(&self, index: u32) -> (r: bool)
        ensures
            r == (index != INVALID_INDEX),
    {
        index != INVALID_INDEX
    }
    /// What `add(key, index)` makes of this table: the index goes to the front of
    /// the chain that `key` selects and its link points at the old head; the link
    /// array first grows to the next power of two (at least 32) when the index
    /// lies beyond it.
    pub open spec fn add_effect(self, after: Self, key: u32, index: u32) -> bool {
        let b = self.bucket_of(key);
        &&& after.inv()
        &&& after.bucket_count() == self.bucket_count()
        &&& forall|k: u32| after.bucket_of(k) == self.bucket_of(k)
        &&& index < self.capacity() ==> after.capacity() == self.capacity()
        &&& index >= self.capacity() ==> exists|r: int|
            #[trigger] is_next_pow2(r, index + 1) && after.capacity() == (if r < 32 {
                32
            } else {
                r
            })
        &&& index < after.capacity()
        &&& after.heads() == self.heads().update(b, index)
        &&& after.links() == resized_links(self.links(), after.capacity()).update(index as int, self.heads()[b])
        &&& self.wf() && !self.is_member(index) ==> after.wf() && after.chains() == self.chains().update(
            b,
            seq![index] + self.chains()[b],
        )
    }

    /// What `remove(key, index)` makes of this table: the index leaves the chain
    /// that `key` selects, its predecessor (or the bucket head) taking over its
    /// link; nothing changes when it is not on that chain.
    pub open spec fn remove_effect(self, after: Self, key: u32, index: u32) -> bool {
        let b = self.bucket_of(key);
        let c = self.chains()[b];
        &&& after.wf()
        &&& after.bucket_count() == self.bucket_count()
        &&& after.capacity() == self.capacity()
        &&& forall|k: u32| after.bucket_of(k) == self.bucket_of(k)
        &&& !c.contains(index) ==> after.heads() == self.heads() && after.links() == self.links()
            && after.chains() == self.chains()
        &&& forall|t: int|
            0 <= t < c.len() && c[t] == index ==> {
                &&& after.chains() == self.chains().update(b, c.remove(t))
                &&& t == 0 ==> after.heads() == self.heads().update(b, self.links()[index as int])
                    && after.links() == self.links()
                &&& t > 0 ==> after.heads() == self.heads() && after.links() == self.links().update(
                    c[t - 1] as int,
                    self.links()[index as int],
                )
            }
    }

    /// Pushes `index` onto the front of the chain that `key` selects, growing the
    /// link array first when `index` lies beyond it.
    pub fn add(&mut self, key: u32, index: u32)
        requires
            old(self).inv(),
            index < old(self).capacity() || index < 0x8000_0000,
        ensures
            old(self).add_effect(*final(self), key, index),
    {
        if index >= self.index_size {
            let np = next_power_of_two(index + 1);
            assert(is_next_pow2(np as int, index + 1));
            let new_size = if np < 32 {
                32
            } else {
                np
            };
            self.resize(new_size);
        } else {
            proof {
                assert(self.next_index@ =~= resized_links(old(self).next_index@, self.index_size as nat));
            }
        }
        proof {
            self.lemma_bucket_in_range(key);
        }
        let k = (key & self.hash_mask) as usize;
        let h = self.hash[k];
        let ghost mid = *self;
        self.next_index[index as usize] = h;
        self.hash[k] = index;
        let ghost b = k as int;
        let ghost c = old(self).chains@[b];
        let ghost cond = old(self).wf() && !old(self).is_member(index);
        self.chains = Ghost(
            if cond {
                old(self).chains@.update(b, seq![index] + c)
            } else {
                old(self).chains@
            },
        );
        proof {
            if cond {
                assert(mid.wf()) by {
                    if index >= old(self).index_size {
                        assert forall|x: u32| old(self).is_member(x) implies x < self.index_size by {
                            let (bb, tt) = choose|bb: int, tt: int|
                                0 <= bb < old(self).chains().len() && 0 <= tt < old(self).chains()[bb].len()
                                    && #[trigger] old(self).chains()[bb][tt] == x;
                            assert(old(self).chains@[bb][tt] < old(self).index_size);
                        }
                    }
                }
                let ch = self.chains@;
                assert forall|bb: int, tt: int|
                    0 <= bb < ch.len() && 0 <= tt < ch[bb].len() implies #[trigger] ch[bb][tt]
                    < self.index_size by {
                    if bb == b && tt > 0 {
                        assert(ch[bb][tt] == c[tt - 1]);
                        assert(mid.chains@[b][tt - 1] < mid.index_size);
                    } else if bb != b {
                        assert(mid.chains@[bb][tt] < mid.index_size);
                    }
                }
                assert forall|bb: int| 0 <= bb < ch.len() implies #[trigger] self.hash@[bb] == head_of(
                    ch[bb],
                ) by {
                    if bb != b {
                        assert(mid.hash@[bb] == head_of(mid.chains@[bb]));
                    }
                }
                assert forall|bb: int, tt: int|
                    0 <= bb < ch.len() && 0 <= tt < ch[bb].len() implies self.next_index@[#[trigger] ch[bb][tt] as int]
                    == succ_of(ch[bb], tt) by {
                    if bb == b && tt == 0 {
                        assert(mid.hash@[b] == head_of(c));
                    } else if bb == b {
                        let x = c[tt - 1];
                        assert(mid.chains@[b][tt - 1] == x);
                        if x == index {
                            assert(old(self).chains()[b][tt - 1] == x);
                        }
                        assert(mid.next_index@[x as int] == succ_of(c, tt - 1));
                    } else {
                        let x = ch[bb][tt];
                        assert(mid.chains@[bb][tt] == x);
                        if x == index {
                            assert(old(self).chains()[bb][tt] == x);
                        }
                        assert(mid.next_index@[x as int] == succ_of(ch[bb], tt));
                    }
                }
                assert forall|b1: int, t1: int, b2: int, t2: int|
                    0 <= b1 < ch.len() && 0 <= t1 < ch[b1].len() && 0 <= b2 < ch.len() && 0 <= t2
                        < ch[b2].len() && #[trigger] ch[b1][t1] == #[trigger] ch[b2][t2] implies b1 == b2
                    && t1 == t2 by {
                    let o1 = if b1 == b { t1 - 1 } else { t1 };
                    let o2 = if b2 == b { t2 - 1 } else { t2 };
                    if o1 >= 0 && o2 >= 0 {
                        assert(mid.chains@[b1][o1] == ch[b1][t1]);
                        assert(mid.chains@[b2][o2] == ch[b2][t2]);
                    } else if o1 >= 0 {
                        assert(mid.chains@[b1][o1] == ch[b1][t1]);
                        assert(old(self).chains()[b1][o1] == index);
                    } else if o2 >= 0 {
                        assert(mid.chains@[b2][o2] == ch[b2][t2]);
                        assert(old(self).chains()[b2][o2] == index);
                    }
                }
            }
        }
    }

    /// Unlinks `index` from the chain that `key` selects, if it is there.
    pub fn remove(&mut self, key: u32, index: u32)
        requires
            old(self).wf(),
        ensures
            old(self).remove_effect(*final(self), key, index),
    {
        proof {
            self.lemma_bucket_in_range(key);
        }
        let ghost b = self.bucket_of(key);
        let ghost c = self.chains@[b];
        if index >= self.index_size {
            assert(!c.contains(index)) by {
                if c.contains(index) {
                    let t = choose|t: int| 0 <= t < c.len() && c[t] == index;
                    assert(self.chains@[b][t] < self.index_size);
                }
            }
            return;
        }
        let k = (key & self.hash_mask) as usize;
        if self.hash[k] == index {
            assert(c.len() > 0 && c[0] == index);
            assert(c.contains(index));
            let nx = self.next_index[index as usize];
            self.hash[k] = nx;
            self.chains = Ghost(old(self).chains@.update(b, c.remove(0)));
            assert(self.hash@ == old(self).heads().update(b, old(self).links()[index as int]));
            assert(self.next_index@ == old(self).links());
            proof {
                self.lemma_remove_at(*old(self), b, 0);
                assert forall|t: int| 0 <= t < c.len() && c[t] == index implies t == 0 by {
                    assert(old(self).chains@[b][t] == old(self).chains@[b][0]);
                }
            }
            return;
        }
        match self.find_predecessor(k, index) {
            Some(p) => {
                let ghost t = choose|t: int| 0 <= t && t + 1 < c.len() && #[trigger] c[t] == p && c[t + 1] == index;
                assert(c.contains(index));
                let nn = self.next_index[index as usize];
                self.next_index[p as usize] = nn;
                self.chains = Ghost(old(self).chains@.update(b, c.remove(t + 1)));
                proof {
                    self.lemma_remove_at(*old(self), b, t + 1);
                    let tt = t + 1;
                    assert forall|u: int| 0 <= u < c.len() && c[u] == index implies {
                        &&& self.chains() == old(self).chains().update(b, c.remove(u))
                        &&& u == 0 ==> self.heads() == old(self).heads().update(
                            b,
                            old(self).links()[index as int],
                        ) && self.links() == old(self).links()
                        &&& u > 0 ==> self.heads() == old(self).heads() && self.links()
                            == old(self).links().update(c[u - 1] as int, old(self).links()[index as int])
                    } by {
                        assert(old(self).chains@[b][u] == old(self).chains@[b][tt]);
                        assert(u == tt);
                    }
                }
            },
            None => {},
        }
    }

    /// The index just before `index` on chain `k`, when `index` is on it past the head.
    fn find_predecessor(&self, k: usize, index: u32) -> (r: Option<u32>)
        requires
            self.wf(),
            k < self.chains@.len(),
            index < self.index_size,
            self.hash@[k as int] != index,
        ensures
            match r {
                Some(p) => exists|t: int|
                    0 <= t && t + 1 < self.chains@[k as int].len() && #[trigger] self.chains@[k as int][t] == p
                        && self.chains@[k as int][t + 1] == index,
                None => !self.chains@[k as int].contains(index),
            },
    {
        let ghost c = self.chains@[k as int];
        let mut i = self.hash[k];
        let ghost mut t: int = 0;
        while i != INVALID_INDEX
            invariant
                self.wf(),
                0 <= t <= c.len(),
                c == self.chains@[k as int],
                k < self.chains@.len(),
                index < self.index_size,
                i == (if t < c.len() { c[t] } else { INVALID_INDEX }),
                forall|s: int| 0 <= s <= t && s < c.len() ==> c[s] != index,
            decreases c.len() - t,
        {
            assert(self.chains@[k as int][t] < self.index_size);
            let next = self.next_index[i as usize];
            assert(next == succ_of(c, t));
            if next == index {
                assert(self.chains@[k as int][t] == i);
                return Some(i);
            }
            i = next;
            proof {
                t = t + 1;
            }
        }
        None
    }

    /// The arrays after unlinking position `u` of chain `b` encode the chains without it.
    proof fn lemma_remove_at(&self, pre: Self, b: int, u: int)
        requires
            Self::removal_step(*self, pre, b, u),
        ensures
            self.wf(),
    {
        self.lemma_remove_at_bounds(pre, b, u);
        self.lemma_remove_at_heads(pre, b, u);
        self.lemma_remove_at_links(pre, b, u);
        self.lemma_remove_at_distinct(pre, b, u);
    }

    spec fn removal_step(s: Self, pre: Self, b: int, u: int) -> bool {
        &&& pre.wf()
        &&& 0 <= b < pre.chains@.len()
        &&& 0 <= u < pre.chains@[b].len()
        &&& s.inv()
        &&& s.hash_size == pre.hash_size
        &&& s.hash_mask == pre.hash_mask
        &&& s.index_size == pre.index_size
        &&& s.chains@ == pre.chains@.update(b, pre.chains@[b].remove(u))
        &&& u == 0 ==> s.hash@ == pre.hash@.update(b, pre.next_index@[pre.chains@[b][0] as int])
            && s.next_index@ == pre.next_index@
        &&& u > 0 ==> s.hash@ == pre.hash@ && s.next_index@ == pre.next_index@.update(
            pre.chains@[b][u - 1] as int,
            pre.next_index@[pre.chains@[b][u] as int],
        )
    }

    proof fn lemma_remove_at_bounds(&self, pre: Self, b: int, u: int)
        requires
            Self::removal_step(*self, pre, b, u),
        ensures
            forall|bb: int, tt: int|
                0 <= bb < self.chains@.len() && 0 <= tt < self.chains@[bb].len()
                    ==> #[trigger] self.chains@[bb][tt] < self.index_size,
    {
        let ch = self.chains@;
        assert forall|bb: int, tt: int|
            0 <= bb < ch.len() && 0 <= tt < ch[bb].len() implies #[trigger] ch[bb][tt] < self.index_size by {
            if bb == b {
                let o = if tt < u { tt } else { tt + 1 };
                assert(ch[bb][tt] == pre.chains@[b][o]);
            } else {
                assert(ch[bb][tt] == pre.chains@[bb][tt]);
            }
        }
    }

    proof fn lemma_remove_at_heads(&self, pre: Self, b: int, u: int)
        requires
            Self::removal_step(*self, pre, b, u),
        ensures
            forall|bb: int| 0 <= bb < self.chains@.len() ==> #[trigger] self.hash@[bb] == head_of(self.chains@[bb]),
    {
        let c = pre.chains@[b];
        let ch = self.chains@;
        assert forall|bb: int| 0 <= bb < ch.len() implies #[trigger] self.hash@[bb] == head_of(ch[bb]) by {
            if bb == b {
                assert(pre.hash@[b] == head_of(c));
                if u == 0 {
                    assert(pre.next_index@[pre.chains@[b][0] as int] == succ_of(c, 0));
                } else {
                    assert(ch[b][0] == c[0]);
                }
            } else {
                assert(pre.hash@[bb] == head_of(pre.chains@[bb]));
            }
        }
    }

    proof fn lemma_remove_at_links(&self, pre: Self, b: int, u: int)
        requires
            Self::removal_step(*self, pre, b, u),
        ensures
            forall|bb: int, tt: int|
                0 <= bb < self.chains@.len() && 0 <= tt < self.chains@[bb].len()
                    ==> self.next_index@[#[trigger] self.chains@[bb][tt] as int] == succ_of(self.chains@[bb], tt),
    {
        let c = pre.chains@[b];
        let ch = self.chains@;
        assert forall|bb: int, tt: int|
            0 <= bb < ch.len() && 0 <= tt < ch[bb].len() implies self.next_index@[#[trigger] ch[bb][tt] as int]
            == succ_of(ch[bb], tt) by {
            if bb == b {
                let o = if tt < u { tt } else { tt + 1 };
                let x = pre.chains@[b][o];
                assert(ch[bb][tt] == x);
                assert(pre.next_index@[x as int] == succ_of(c, o));
                if u > 0 {
                    let y = pre.chains@[b][u - 1];
                    if tt == u - 1 {
                        assert(pre.next_index@[pre.chains@[b][u] as int] == succ_of(c, u));
                    } else {
                        assert(x != y);
                    }
                }
            } else {
                let x = pre.chains@[bb][tt];
                assert(ch[bb][tt] == x);
                assert(pre.next_index@[x as int] == succ_of(pre.chains@[bb], tt));
                if u > 0 {
                    let y = pre.chains@[b][u - 1];
                    assert(x != y);
                }
            }
        }
    }

    proof fn lemma_remove_at_distinct(&self, pre: Self, b: int, u: int)
        requires
            Self::removal_step(*self, pre, b, u),
        ensures
            forall|b1: int, t1: int, b2: int, t2: int|
                0 <= b1 < self.chains@.len() && 0 <= t1 < self.chains@[b1].len() && 0 <= b2 < self.chains@.len()
                    && 0 <= t2 < self.chains@[b2].len() && #[trigger] self.chains@[b1][t1]
                    == #[trigger] self.chains@[b2][t2] ==> b1 == b2 && t1 == t2,
    {
        let ch = self.chains@;
        assert forall|b1: int, t1: int, b2: int, t2: int|
            0 <= b1 < ch.len() && 0 <= t1 < ch[b1].len() && 0 <= b2 < ch.len() && 0 <= t2 < ch[b2].len()
                && #[trigger] ch[b1][t1] == #[trigger] ch[b2][t2] implies b1 == b2 && t1 == t2 by {
            let o1 = if b1 == b && t1 >= u { t1 + 1 } else { t1 };
            let o2 = if b2 == b && t2 >= u { t2 + 1 } else { t2 };
            assert(ch[b1][t1] == pre.chains@[b1][o1]);
            assert(ch[b2][t2] == pre.chains@[b2][o2]);
        }
    }
}


/// Adding an index that is on no chain and then removing it under the same key
/// gives back the table's chains and bucket heads, and the index is again on no
/// chain.
pub proof fn lemma_remove_undoes_add(t0: FHashTable, t1: FHashTable, t2: FHashTable, key: u32, index: u32)
    requires
        t0.wf(),
        !t0.is_member(index),
        t0.add_effect(t1, key, index),
        t1.remove_effect(t2, key, index),
    ensures
        t2.wf(),
        t2.chains() == t0.chains(),
        t2.heads() == t0.heads(),
        !t2.is_member(index),
{
    let b = t0.bucket_of(key);
    let c0 = t0.chains()[b];
    let c1 = t1.chains()[b];
    t0.lemma_wf_inv();
    t0.lemma_bucket_in_range(key);
    assert(c1 == seq![index] + c0);
    assert(c1[0] == index);
    assert(c1.remove(0) =~= c0);
    assert(t2.chains() =~= t0.chains());
    assert(t1.links()[index as int] == t0.heads()[b]);
    assert(t2.heads() =~= t0.heads());
}

} // verus!
