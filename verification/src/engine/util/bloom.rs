//! Bloom filters: membership tests that may say yes to a key that was never
//! inserted, and never say no to one that was.
use crate::engine::codec;
use std::collections::hash_map::DefaultHasher;
use std::hash::Hasher;
use vstd::prelude::*;
use vstd::std_specs::hash::DefaultHasherAdditionalSpecFns;

verus! {

/// Whether bit `pos` is set, counted from the lowest bit of the first word.
pub open spec fn bit(words: Seq<u64>, pos: int) -> bool {
    (words[pos / 64] >> ((pos % 64) as u64)) & 1u64 == 1u64
}

/// The number of words that hold `num_bits` bits.
pub open spec fn words_for(num_bits: u32) -> nat {
    ((num_bits + 63) / 64) as nat
}

/// The number of set bits among the first `n`.
pub open spec fn ones(words: Seq<u64>, n: nat) -> nat
    decreases n,
{
    if n == 0 {
        0
    } else {
        ones(words, (n - 1) as nat) + if bit(words, n - 1) {
            1nat
        } else {
            0nat
        }
    }
}

/// The first hash of a key: its length and its bytes are written to the hasher.
pub open spec fn first_hash(key: Seq<u8>) -> u64 {
    DefaultHasher::spec_finish(seq![codec::u64_le(key.len() as u64), key])
}

/// The second hash of a key: the first hash and a salt go in front.
pub open spec fn second_hash(key: Seq<u8>) -> u64 {
    DefaultHasher::spec_finish(
        seq![
            codec::u64_le(first_hash(key)),
            seq![0x9eu8, 0x37u8, 0x79u8, 0xb9u8],
            codec::u64_le(key.len() as u64),
            key,
        ],
    )
}

/// The bit that the `i`-th hash function gives a key: the two hashes are combined
/// as `h1 + i * h2`, modulo 2^64 and then modulo the number of bits.
pub open spec fn position(key: Seq<u8>, i: int, num_bits: u32) -> int {
    ((first_hash(key) + i * second_hash(key)) % 0x1_0000_0000_0000_0000) % (num_bits as int)
}

/// Whether one of the first `n` hash functions gives a key bit `pos`.
pub open spec fn hit_among(key: Seq<u8>, n: int, num_bits: u32, pos: int) -> bool {
    exists|i: int| 0 <= i < n && #[trigger] position(key, i, num_bits) == pos
}

/// One more hash function adds one more bit.
proof fn lemma_hit_among_next(key: Seq<u8>, n: int, num_bits: u32, pos: int)
    requires
        0 <= n,
    ensures
        hit_among(key, n + 1, num_bits, pos) == (hit_among(key, n, num_bits, pos) || position(
            key,
            n,
            num_bits,
        ) == pos),
{
    if hit_among(key, n + 1, num_bits, pos) {
        let i = choose|i: int| 0 <= i < n + 1 && #[trigger] position(key, i, num_bits) == pos;
        if i < n {
            assert(hit_among(key, n, num_bits, pos));
        }
    }
    if hit_among(key, n, num_bits, pos) {
        let i = choose|i: int| 0 <= i < n && #[trigger] position(key, i, num_bits) == pos;
        assert(0 <= i < n + 1);
    }
}

/// The bytes of a list of 64-bit words.
pub open spec fn long_bytes(words: Seq<u64>) -> Seq<u8>
    decreases words.len(),
{
    if words.len() == 0 {
        Seq::empty()
    } else {
        long_bytes(words.drop_last()) + codec::u64_le(words.last())
    }
}

/// What a filter holds.
#[verifier::ext_equal]
pub struct BloomView {
    pub words: Seq<u64>,
    pub num_bits: u32,
    pub num_hashes: u8,
}

impl BloomView {
    /// The words are as many as the bits need.
    pub open spec fn wf(self) -> bool {
        self.words.len() == words_for(self.num_bits)
    }

    /// Whether keys can be inserted and looked up.
    pub open spec fn usable(self) -> bool {
        self.wf() && (self.num_bits > 0 || self.num_hashes == 0)
    }

    /// Whether one of the key's hash functions gives bit `pos`.
    pub open spec fn hits(self, key: Seq<u8>, pos: int) -> bool {
        hit_among(key, self.num_hashes as int, self.num_bits, pos)
    }

    /// Whether all bits of a key are set.
    pub open spec fn contains(self, key: Seq<u8>) -> bool {
        forall|i: int|
            0 <= i < self.num_hashes ==> bit(self.words, #[trigger] position(key, i, self.num_bits))
    }

    /// Whether `self` is `before` with the bits of `key` set and nothing else
    /// changed.
    pub open spec fn is_inserted(self, before: BloomView, key: Seq<u8>) -> bool {
        &&& self.num_bits == before.num_bits
        &&& self.num_hashes == before.num_hashes
        &&& self.words.len() == before.words.len()
        &&& forall|p: int|
            #![trigger bit(self.words, p)]
            #![trigger bit(before.words, p)]
            0 <= p < 64 * before.words.len() ==> bit(self.words, p) == (bit(before.words, p)
                || before.hits(key, p))
    }

    /// The filter as bytes: the number of bits, the number of hash functions and
    /// the words.
    pub open spec fn bytes(self) -> Seq<u8> {
        codec::u32_le(self.num_bits) + seq![self.num_hashes] + long_bytes(self.words)
    }
}

/// The filter that bytes hold; bytes behind it are ignored.
pub open spec fn decoded(data: Seq<u8>) -> Option<BloomView> {
    if data.len() < 5 {
        None
    } else {
        let num_bits = codec::u32_at(data, 0);
        let n = words_for(num_bits);
        if data.len() < 5 + 8 * n {
            None
        } else {
            Some(
                BloomView {
                    words: Seq::new(n, |i: int| codec::u64_at(data, 5 + 8 * i)),
                    num_bits,
                    num_hashes: data[4],
                },
            )
        }
    }
}

/// Setting one bit of a word leaves the others as they are.
proof fn lemma_set_bit(w: u64, b: u64, c: u64)
    by (bit_vector)
    requires
        b < 64,
        c < 64,
    ensures
        ((w | (1u64 << b)) >> c) & 1u64 == 1u64 <==> ((w >> c) & 1u64 == 1u64 || b == c),
{
}

/// A Bloom filter.
#[derive(Clone, Debug)]
pub struct BloomFilter {
    bits: Vec<u64>,
    num_bits: u32,
    num_hashes: u8,
}

impl View for BloomFilter {
    type V = BloomView;

    closed spec fn view(&self) -> BloomView {
        BloomView { words: self.bits@, num_bits: self.num_bits, num_hashes: self.num_hashes }
    }
}

impl BloomFilter {
    /// An empty filter of `num_bits` bits and `num_hashes` hash functions.
    pub fn with_params(num_bits: u32, num_hashes: u8) -> (r: Self)
        requires
            num_bits + 63 <= usize::MAX,
        ensures
            r@ == (BloomView {
                words: Seq::new(words_for(num_bits), |i: int| 0u64),
                num_bits,
                num_hashes,
            }),
            r@.wf(),
    {
        let num_words: usize = (num_bits as usize + 63) / 64;
        let bits = vec![0u64; num_words];
        assert(bits@ =~= Seq::new(words_for(num_bits), |i: int| 0u64));
        BloomFilter { bits, num_bits, num_hashes }
    }

    /// The two hashes of a key.
    pub fn hash_key(&self, key: &[u8]) -> (r: (u64, u64))
        ensures
            r == (first_hash(key@), second_hash(key@)),
    {
        let mut length: Vec<u8> = Vec::new();
        codec::put_u64(&mut length, key.len() as u64);
        assert(length@ =~= codec::u64_le(key@.len() as u64));

        let mut hasher1 = DefaultHasher::new();
        hasher1.write(length.as_slice());
        hasher1.write(key);
        assert(hasher1@ =~= seq![codec::u64_le(key@.len() as u64), key@]);
        let h1: u64 = hasher1.finish();

        let mut seed: Vec<u8> = Vec::new();
        codec::put_u64(&mut seed, h1);
        assert(seed@ =~= codec::u64_le(h1));
        let mut salt: Vec<u8> = Vec::new();
        salt.push(0x9e);
        salt.push(0x37);
        salt.push(0x79);
        salt.push(0xb9);
        assert(salt@ =~= seq![0x9eu8, 0x37u8, 0x79u8, 0xb9u8]);
        let mut hasher2 = DefaultHasher::new();
        hasher2.write(seed.as_slice());
        hasher2.write(salt.as_slice());
        hasher2.write(length.as_slice());
        hasher2.write(key);
        assert(hasher2@ =~= seq![
            codec::u64_le(h1),
            seq![0x9eu8, 0x37u8, 0x79u8, 0xb9u8],
            codec::u64_le(key@.len() as u64),
            key@,
        ]);
        let h2: u64 = hasher2.finish();
        (h1, h2)
    }

    /// The bit that the `i`-th combination of two hashes gives.
    pub fn get_bit_position(&self, h1: u64, h2: u64, i: u64) -> (r: usize)
        requires
            self@.num_bits > 0,
        ensures
            r == ((h1 + i * h2) % 0x1_0000_0000_0000_0000) % (self@.num_bits as int),
            r < self@.num_bits,
    {
        let hash: u64 = h1.wrapping_add(i.wrapping_mul(h2));
        proof {
            let m: int = 0x1_0000_0000_0000_0000;
            vstd::arithmetic::div_mod::lemma_add_mod_noop_right(h1 as int, i * h2, m);
            vstd::arithmetic::div_mod::lemma_mod_bound(h1 + i * h2, m);
            vstd::arithmetic::div_mod::lemma_mod_bound(hash as int, self.num_bits as int);
        }
        (hash % self.num_bits as u64) as usize
    }

    /// Sets a bit.
    pub fn set_bit(&mut self, pos: usize)
        requires
            pos < 64 * old(self)@.words.len(),
        ensures
            final(self)@.num_bits == old(self)@.num_bits,
            final(self)@.num_hashes == old(self)@.num_hashes,
            final(self)@.words.len() == old(self)@.words.len(),
            forall|p: int|
                0 <= p < 64 * old(self)@.words.len() ==> bit(final(self)@.words, p) == (bit(
                    old(self)@.words,
                    p,
                ) || p == pos),
    {
        let word_idx: usize = pos / 64;
        let bit_idx: u64 = (pos % 64) as u64;
        let word: u64 = self.bits[word_idx];
        self.bits.set(word_idx, word | (1u64 << bit_idx));
        proof {
            assert forall|p: int| 0 <= p < 64 * old(self)@.words.len() implies bit(
                self@.words,
                p,
            ) == (bit(old(self)@.words, p) || p == pos) by {
                if p / 64 == word_idx {
                    lemma_set_bit(word, bit_idx, (p % 64) as u64);
                }
            }
        }
    }

    /// Whether a bit is set.
    pub fn get_bit(&self, pos: usize) -> (r: bool)
        requires
            pos < 64 * self@.words.len(),
        ensures
            r == bit(self@.words, pos as int),
    {
        let word_idx: usize = pos / 64;
        let bit_idx: u64 = (pos % 64) as u64;
        (self.bits[word_idx] >> bit_idx) & 1u64 == 1u64
    }

    /// Inserts a key.
    pub fn insert(&mut self, key: &[u8])
        requires
            old(self)@.usable(),
        ensures
            final(self)@.is_inserted(old(self)@, key@),
            final(self)@.usable(),
            final(self)@.contains(key@),
    {
        let ghost before = self@;
        let (h1, h2) = self.hash_key(key);
        let n: u64 = self.num_hashes as u64;
        let mut i: u64 = 0;
        while i < n
            invariant
                i <= n == before.num_hashes,
                before.usable(),
                h1 == first_hash(key@),
                h2 == second_hash(key@),
                self@.num_bits == before.num_bits,
                self@.num_hashes == before.num_hashes,
                self@.words.len() == before.words.len(),
                forall|p: int|
                    0 <= p < 64 * before.words.len() ==> bit(self@.words, p) == (bit(
                        before.words,
                        p,
                    ) || hit_among(key@, i as int, before.num_bits, p)),
            decreases n - i,
        {
            let pos: usize = self.get_bit_position(h1, h2, i);
            let ghost words = self@.words;
            assert(pos == position(key@, i as int, before.num_bits));
            self.set_bit(pos);
            i = i + 1;
            proof {
                assert forall|p: int| 0 <= p < 64 * before.words.len() implies bit(
                    self@.words,
                    p,
                ) == (bit(before.words, p) || hit_among(key@, i as int, before.num_bits, p)) by {
                    lemma_hit_among_next(key@, i - 1, before.num_bits, p);
                    assert(bit(words, p) == (bit(before.words, p) || hit_among(
                        key@,
                        i - 1,
                        before.num_bits,
                        p,
                    )));
                }
            }
        }
        proof {
            assert(self@.is_inserted(before, key@));
            law_no_false_negatives(before, self@, key@, key@);
        }
    }

    /// Whether a key may have been inserted: no is certain, yes is not.
    pub fn may_contain(&self, key: &[u8]) -> (r: bool)
        requires
            self@.usable(),
        ensures
            r == self@.contains(key@),
    {
        let (h1, h2) = self.hash_key(key);
        let n: u64 = self.num_hashes as u64;
        let mut i: u64 = 0;
        while i < n
            invariant
                i <= n == self@.num_hashes,
                self@.usable(),
                h1 == first_hash(key@),
                h2 == second_hash(key@),
                forall|j: int|
                    0 <= j < i ==> bit(
                        self@.words,
                        #[trigger] position(key@, j, self@.num_bits),
                    ),
            decreases n - i,
        {
            let pos: usize = self.get_bit_position(h1, h2, i);
            assert(pos == position(key@, i as int, self@.num_bits));
            if !self.get_bit(pos) {
                return false;
            }
            i = i + 1;
        }
        true
    }

    /// The number of bits.
    pub fn num_bits(&self) -> (r: u32)
        ensures
            r == self@.num_bits,
    {
        self.num_bits
    }

    /// The number of hash functions.
    pub fn num_hashes(&self) -> (r: u8)
        ensures
            r == self@.num_hashes,
    {
        self.num_hashes
    }

    /// The filter as bytes.
    pub fn encode(&self) -> (r: Vec<u8>)
        ensures
            r@ == self@.bytes(),
    {
        let mut buf: Vec<u8> = Vec::new();
        codec::put_u32(&mut buf, self.num_bits);
        buf.push(self.num_hashes);
        let ghost head = buf@;
        assert(head =~= codec::u32_le(self.num_bits) + seq![self.num_hashes]);
        let mut i: usize = 0;
        assert(buf@ =~= head + long_bytes(self.bits@.take(0)));
        while i < self.bits.len()
            invariant
                i <= self.bits@.len(),
                buf@ == head + long_bytes(self.bits@.take(i as int)),
            decreases self.bits@.len() - i,
        {
            codec::put_u64(&mut buf, self.bits[i]);
            proof {
                let next = self.bits@.take(i + 1);
                assert(next.drop_last() =~= self.bits@.take(i as int));
                assert(buf@ =~= head + long_bytes(next));
            }
            i = i + 1;
        }
        assert(self.bits@.take(i as int) =~= self.bits@);
        buf
    }

    /// Reads a filter from bytes.
    pub fn decode(data: &[u8]) -> (r: Option<Self>)
        ensures
            decoded(data@) == (match r {
                Some(filter) => Some(filter@),
                None => None,
            }),
            r matches Some(filter) ==> filter@.wf(),
    {
        if data.len() < 5 {
            return None;
        }
        let num_bits: u32 = codec::get_u32(data, 0);
        let num_hashes: u8 = data[4];
        let num_words: u64 = (num_bits as u64 + 63) / 64;
        if ((data.len() - 5) as u64) / 8 < num_words {
            return None;
        }
        let mut bits: Vec<u64> = Vec::new();
        let mut i: usize = 0;
        while i < num_words as usize
            invariant
                i <= num_words == words_for(num_bits),
                5 + 8 * num_words <= data@.len(),
                num_words <= usize::MAX,
                bits@ == Seq::new(i as nat, |j: int| codec::u64_at(data@, 5 + 8 * j)),
            decreases num_words - i,
        {
            assert(data@.len() == data.len());
            bits.push(codec::get_u64(data, 5 + 8 * i));
            i = i + 1;
            assert(bits@ =~= Seq::new(i as nat, |j: int| codec::u64_at(data@, 5 + 8 * j)));
        }
        Some(BloomFilter { bits, num_bits, num_hashes })
    }

    /// The number of set bits.
    pub fn set_bits(&self) -> (r: usize)
        requires
            64 * self@.words.len() <= usize::MAX,
        ensures
            r == ones(self@.words, 64 * self@.words.len()),
    {
        let total: usize = 64 * self.bits.len();
        let mut n: usize = 0;
        let mut count: usize = 0;
        while n < total
            invariant
                n <= total == 64 * self@.words.len(),
                count == ones(self@.words, n as nat),
                count <= n,
            decreases total - n,
        {
            if self.get_bit(n) {
                count = count + 1;
            }
            n = n + 1;
        }
        count
    }

    /// Whether no bit is set.
    pub fn is_empty(&self) -> (r: bool)
        ensures
            r == (forall|i: int| 0 <= i < self@.words.len() ==> self@.words[i] == 0),
    {
        let mut i: usize = 0;
        while i < self.bits.len()
            invariant
                i <= self.bits@.len(),
                forall|j: int| 0 <= j < i ==> self.bits@[j] == 0,
            decreases self.bits@.len() - i,
        {
            if self.bits[i] != 0 {
                assert(self@.words[i as int] != 0);
                return false;
            }
            i = i + 1;
        }
        true
    }

    /// Clears all bits.
    pub fn clear(&mut self)
        ensures
            final(self)@ == (BloomView {
                words: Seq::new(old(self)@.words.len(), |i: int| 0u64),
                ..old(self)@
            }),
    {
        let ghost before = self@;
        let mut i: usize = 0;
        while i < self.bits.len()
            invariant
                i <= self.bits@.len() == before.words.len(),
                self.num_bits == before.num_bits,
                self.num_hashes == before.num_hashes,
                forall|j: int| 0 <= j < i ==> self.bits@[j] == 0,
            decreases self.bits@.len() - i,
        {
            self.bits.set(i, 0);
            i = i + 1;
        }
        assert(self.bits@ =~= Seq::new(before.words.len(), |i: int| 0u64));
    }
}

/// A key's bits lie in the filter.
proof fn lemma_position_in_range(key: Seq<u8>, i: int, num_bits: u32)
    requires
        num_bits > 0,
    ensures
        0 <= position(key, i, num_bits) < num_bits,
        position(key, i, num_bits) < 64 * words_for(num_bits),
{
    vstd::arithmetic::div_mod::lemma_mod_bound(
        (first_hash(key) + i * second_hash(key)) % 0x1_0000_0000_0000_0000,
        num_bits as int,
    );
}

/// There are no false negatives: once a key is inserted, the filter contains it,
/// and it still contains every key that it contained before.
pub proof fn law_no_false_negatives(before: BloomView, after: BloomView, key: Seq<u8>, other: Seq<u8>)
    requires
        before.usable(),
        after.is_inserted(before, key),
    ensures
        after.contains(key),
        before.contains(other) ==> after.contains(other),
{
    assert forall|i: int| 0 <= i < after.num_hashes implies bit(
        after.words,
        #[trigger] position(key, i, after.num_bits),
    ) by {
        lemma_position_in_range(key, i, before.num_bits);
        assert(before.hits(key, position(key, i, before.num_bits)));
    }
    if before.contains(other) {
        assert forall|i: int| 0 <= i < after.num_hashes implies bit(
            after.words,
            #[trigger] position(other, i, after.num_bits),
        ) by {
            lemma_position_in_range(other, i, before.num_bits);
            assert(bit(before.words, position(other, i, before.num_bits)));
        }
    }
}

/// The words of a filter read back as they were written.
proof fn lemma_longs(d: Seq<u8>, at: int, words: Seq<u64>)
    requires
        0 <= at,
        at + long_bytes(words).len() <= d.len(),
        d.subrange(at, at + long_bytes(words).len()) == long_bytes(words),
    ensures
        long_bytes(words).len() == 8 * words.len(),
        Seq::new(words.len(), |i: int| codec::u64_at(d, at + 8 * i)) == words,
    decreases words.len(),
{
    let read = Seq::new(words.len(), |i: int| codec::u64_at(d, at + 8 * i));
    if words.len() > 0 {
        let init = words.drop_last();
        codec::lemma_two_pieces(d, at, long_bytes(init), codec::u64_le(words.last()));
        lemma_longs(d, at, init);
        codec::lemma_u64_at(d, at + long_bytes(init).len(), words.last());
        let init_read = Seq::new(init.len(), |i: int| codec::u64_at(d, at + 8 * i));
        assert forall|i: int| 0 <= i < words.len() implies read[i] == words[i] by {
            if i < init.len() {
                assert(init_read[i] == init[i]);
            }
        }
    }
    assert(read =~= words);
}

/// A filter reads back from the bytes it was written as, whatever follows them.
pub proof fn law_filter_roundtrip(filter: BloomView, rest: Seq<u8>)
    requires
        filter.wf(),
    ensures
        decoded(filter.bytes() + rest) == Some(filter),
{
    let d = filter.bytes() + rest;
    let count = codec::u32_le(filter.num_bits);
    let long = long_bytes(filter.words);
    assert(d.subrange(0, 4) =~= count);
    codec::lemma_u32_at(d, 0, filter.num_bits);
    assert(d[4] == filter.num_hashes);
    assert(d.subrange(5, 5int + long.len()) =~= long);
    lemma_longs(d, 5, filter.words);
}

/// There are enough words for the bits, and not one too many.
pub proof fn law_words_for(num_bits: u32)
    ensures
        num_bits <= 64 * words_for(num_bits),
        64 * words_for(num_bits) < num_bits + 64,
{
}

/// No bit of zero is set.
proof fn lemma_no_bit(at: u64)
    by (bit_vector)
    requires
        at < 64,
    ensures
        (0u64 >> at) & 1u64 == 0u64,
{
}

/// A filter that nothing was inserted into contains nothing.
pub proof fn law_empty_filter(filter: BloomView, key: Seq<u8>)
    requires
        filter.usable(),
        filter.num_hashes > 0,
        forall|i: int| 0 <= i < filter.words.len() ==> #[trigger] filter.words[i] == 0,
    ensures
        !filter.contains(key),
{
    let p = position(key, 0, filter.num_bits);
    lemma_position_in_range(key, 0, filter.num_bits);
    assert(filter.words[p / 64] == 0);
    lemma_no_bit((p % 64) as u64);
    assert(!bit(filter.words, p));
}

/// A key is contained only if each of its hash functions gives a bit that is set.
pub proof fn law_one_missing_bit(filter: BloomView, key: Seq<u8>, i: int)
    requires
        0 <= i < filter.num_hashes,
        !bit(filter.words, position(key, i, filter.num_bits)),
    ensures
        !filter.contains(key),
{
}

/// Inserting a key sets bits of that key, leaves all other bits as they are, and changes
/// neither the number of bits nor that of the hash functions.
pub proof fn law_insertion(before: BloomView, after: BloomView, key: Seq<u8>, p: int)
    requires
        after.is_inserted(before, key),
        0 <= p < 64 * before.words.len(),
    ensures
        after.num_bits == before.num_bits,
        after.num_hashes == before.num_hashes,
        after.words.len() == before.words.len(),
        bit(before.words, p) ==> bit(after.words, p),
        bit(after.words, p) && !bit(before.words, p) ==> exists|i: int|
            0 <= i < before.num_hashes && #[trigger] position(key, i, before.num_bits) == p,
{
}

/// The set bits are counted one by one.
pub proof fn law_ones(words: Seq<u64>, n: nat)
    ensures
        ones(words, n) == Seq::new(n, |i: int| bit(words, i)).filter(|b: bool| b).len(),
        ones(words, n) <= n,
    decreases n,
{
    reveal(Seq::filter);
    let all = Seq::new(n, |i: int| bit(words, i));
    if n > 0 {
        let m = (n - 1) as nat;
        law_ones(words, m);
        assert(all.drop_last() =~= Seq::new(m, |i: int| bit(words, i)));
        assert(all.last() == bit(words, n - 1));
    }
}

/// The filter as bytes: four of the number of bits, one of the number of hash functions,
/// and eight of each word.
pub proof fn law_filter_layout(filter: BloomView, i: int)
    requires
        0 <= i < filter.words.len(),
    ensures
        filter.bytes().len() == 5 + 8 * filter.words.len(),
        codec::u32_at(filter.bytes(), 0) == filter.num_bits,
        filter.bytes()[4] == filter.num_hashes,
        codec::u64_at(filter.bytes(), 5 + 8 * i) == filter.words[i],
{
    let d = filter.bytes();
    let long = long_bytes(filter.words);
    assert(d.subrange(0, 4) =~= codec::u32_le(filter.num_bits));
    codec::lemma_u32_at(d, 0, filter.num_bits);
    assert(d.subrange(5, 5int + long.len()) =~= long);
    lemma_longs(d, 5, filter.words);
    let read = Seq::new(filter.words.len(), |k: int| codec::u64_at(d, 5 + 8 * k));
    assert(read[i] == filter.words[i]);
}

} // verus!
