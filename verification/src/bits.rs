//! An immutable packed bit sequence addressed `0..n`, stored LSB-first in
//! 64-bit words, together with the spec-level functions that the rank and
//! select contracts are written in: `ones` (popcount of a range) and
//! `bits_value` (integer value of a bit window).

use vstd::prelude::*;

verus! {

use vstd::arithmetic::power2::{pow2, lemma_pow2_unfold, lemma2_to64, lemma2_to64_rest};
use vstd::arithmetic::div_mod::{
    lemma_fundamental_div_mod, lemma_div_plus_one, lemma_div_is_ordered,
    lemma_hoist_over_denominator, lemma_mod_multiples_vanish,
};
use crate::math::popcnt;

/// Bit `o` of the word `w` (LSB is bit 0).
pub open spec fn word_bit(w: u64, o: u64) -> bool {
    (w >> o) & 1u64 == 1u64
}

/// Number of set bits among positions `[i, j)` of `s`.
pub open spec fn ones(s: Seq<bool>, i: int, j: int) -> int
    decreases j - i,
{
    if i >= j {
        0
    } else {
        ones(s, i, j - 1) + if s[j - 1] { 1int } else { 0int }
    }
}

/// Integer value of the bit window `[i, i + k)` of `s`, bit `i` least
/// significant.
pub open spec fn bits_value(s: Seq<bool>, i: int, k: nat) -> nat
    decreases k,
{
    if k == 0 {
        0
    } else {
        (if s[i] { 1nat } else { 0nat }) + 2 * bits_value(s, i + 1, (k - 1) as nat)
    }
}

/// A range holds between zero and its width in set bits.
pub proof fn lemma_ones_bounds(s: Seq<bool>, i: int, j: int)
    requires
        i <= j,
    ensures
        0 <= ones(s, i, j) <= j - i,
    decreases j - i,
{
    if i < j {
        lemma_ones_bounds(s, i, j - 1);
    }
}

/// Counting a range splits at any interior point.
pub proof fn lemma_ones_split(s: Seq<bool>, i: int, k: int, j: int)
    requires
        i <= k <= j,
    ensures
        ones(s, i, j) == ones(s, i, k) + ones(s, k, j),
    decreases j - k,
{
    if k < j {
        lemma_ones_split(s, i, k, j - 1);
    }
}

/// Peeling the lowest position off a non-empty range.
pub proof fn lemma_ones_low_step(s: Seq<bool>, i: int, j: int)
    requires
        i < j,
    ensures
        ones(s, i, j) == (if s[i] { 1int } else { 0int }) + ones(s, i + 1, j),
    decreases j - i,
{
    if i + 1 == j {
        assert(ones(s, i, i) == 0);
        assert(ones(s, i + 1, j) == 0);
    } else {
        lemma_ones_low_step(s, i, j - 1);
    }
}

/// `ones` only looks at the positions it counts.
pub proof fn lemma_ones_congruence(s1: Seq<bool>, s2: Seq<bool>, i: int, j: int)
    requires
        forall|p: int| i <= p < j ==> s1[p] == s2[p],
    ensures
        ones(s1, i, j) == ones(s2, i, j),
    decreases j - i,
{
    if i < j {
        assert(s1[j - 1] == s2[j - 1]);
        lemma_ones_congruence(s1, s2, i, j - 1);
    }
}

/// A `k`-bit window encodes a value below `pow2(k)`.
pub proof fn lemma_bits_value_bound(s: Seq<bool>, i: int, k: nat)
    ensures
        bits_value(s, i, k) < pow2(k),
    decreases k,
{
    if k == 0 {
        lemma2_to64();
    } else {
        lemma_bits_value_bound(s, i + 1, (k - 1) as nat);
        lemma_pow2_unfold(k);
    }
}

/// Extending a window by its new highest bit adds that bit's weight.
pub proof fn lemma_bits_value_snoc(s: Seq<bool>, i: int, k: nat)
    ensures
        bits_value(s, i, k + 1) == bits_value(s, i, k) + (if s[i + k] { 1int } else { 0int })
            * pow2(k),
    decreases k,
{
    if k == 0 {
        lemma2_to64();
        assert(bits_value(s, i, 1) == (if s[i] { 1nat } else { 0nat }) + 2 * bits_value(
            s,
            i + 1,
            0,
        ));
    } else {
        lemma_bits_value_snoc(s, i + 1, (k - 1) as nat);
        lemma_pow2_unfold(k);
        assert(bits_value(s, i, (k + 1) as nat) == (if s[i] { 1nat } else { 0nat }) + 2
            * bits_value(s, i + 1, k));
        assert(s[(i + 1) + (k - 1)] == s[i + k]);
    }
}

/// `bits_value` only looks at the window it reads.
pub proof fn lemma_bits_value_congruence(s1: Seq<bool>, i1: int, s2: Seq<bool>, i2: int, k: nat)
    requires
        0 <= i1 && i1 + k <= s1.len(),
        0 <= i2 && i2 + k <= s2.len(),
        s1.subrange(i1, i1 + k) == s2.subrange(i2, i2 + k),
    ensures
        bits_value(s1, i1, k) == bits_value(s2, i2, k),
    decreases k,
{
    if k > 0 {
        assert(s1[i1] == s2[i2]) by {
            assert(s1.subrange(i1, i1 + k)[0] == s1[i1]);
            assert(s2.subrange(i2, i2 + k)[0] == s2[i2]);
            assert(s1.subrange(i1, i1 + k)[0] == s2.subrange(i2, i2 + k)[0]);
        }
        assert(s1.subrange(i1 + 1, i1 + k) =~= s2.subrange(i2 + 1, i2 + k)) by {
            assert forall|j: int| 0 <= j < k - 1 implies #[trigger] s1.subrange(i1 + 1, i1 + k)[j]
                == s2.subrange(i2 + 1, i2 + k)[j] by {
                assert(s1.subrange(i1 + 1, i1 + k)[j] == s1[i1 + 1 + j]);
                assert(s2.subrange(i2 + 1, i2 + k)[j] == s2[i2 + 1 + j]);
                assert(s1.subrange(i1, i1 + k)[j + 1] == s1[i1 + (j + 1)]);
                assert(s2.subrange(i2, i2 + k)[j + 1] == s2[i2 + (j + 1)]);
                assert(s1.subrange(i1, i1 + k)[j + 1] == s2.subrange(i2, i2 + k)[j + 1]);
            }
        }
        lemma_bits_value_congruence(s1, i1 + 1, s2, i2 + 1, (k - 1) as nat);
    }
}

/// The popcount of a window's value counts exactly the set bits of the window.
pub proof fn lemma_popcnt_bits_value(s: Seq<bool>, i: int, k: nat)
    ensures
        popcnt(bits_value(s, i, k)) == ones(s, i, i + k),
    decreases k,
{
    if k == 0 {
    } else {
        let b: nat = if s[i] { 1nat } else { 0nat };
        let rest = bits_value(s, i + 1, (k - 1) as nat);
        lemma_popcnt_bits_value(s, i + 1, (k - 1) as nat);
        lemma_ones_low_step(s, i, i + k);
        if b + 2 * rest == 0 {
        } else {
            lemma_mod_multiples_vanish(rest as int, b as int, 2);
            lemma_hoist_over_denominator(b as int, rest as int, 2);
            assert((b + 2 * rest) as nat % 2 == b);
            assert((b + 2 * rest) as nat / 2 == rest);
        }
    }
}

/// An immutable packed bit sequence: `n` bits stored LSB-first in
/// `⌈n/64⌉` words.
pub struct BitStore {
    words: Vec<u64>,
    num_bits: u64,
}

impl View for BitStore {
    type V = Seq<bool>;

    closed spec fn view(&self) -> Seq<bool> {
        Seq::new(
            self.num_bits as nat,
            |i: int| word_bit(self.words[i / 64], (i % 64) as u64),
        )
    }
}

impl BitStore {
    /// The word array holds exactly the words the bit length calls for.
    pub closed spec fn wf(&self) -> bool {
        self.words@.len() == (self.num_bits + 63) as int / 64
    }

    /// The backing words, exposed for the byte codec.
    pub closed spec fn word_seq(&self) -> Seq<u64> {
        self.words@
    }

    /// Reassemble a store from backing words and a bit length; refused
    /// unless the word count matches the length exactly.
    pub fn from_words(words: Vec<u64>, num_bits: u64) -> (r: Option<BitStore>)
        ensures
            r is Some <==> words@.len() == (num_bits + 63) as int / 64,
            r matches Some(st) ==> st.wf() && st.word_seq() == words@ && st@.len() == num_bits,
    {
        let expected = crate::math::ceil_div(num_bits, 64);
        if words.len() as u64 == expected {
            Some(BitStore { words, num_bits })
        } else {
            None
        }
    }

    /// Number of backing words.
    pub fn num_words(&self) -> (r: usize)
        ensures
            r == self.word_seq().len(),
    {
        self.words.len()
    }

    /// Word `i` of the backing array.
    pub fn word_at(&self, i: usize) -> (r: u64)
        requires
            i < self.word_seq().len(),
        ensures
            r == self.word_seq()[i as int],
    {
        self.words[i]
    }

    /// A well-formed store has exactly `⌈n/64⌉` backing words.
    pub proof fn lemma_wf_words(&self)
        requires
            self.wf(),
        ensures
            self.word_seq().len() == (self@.len() + 63) as int / 64,
    {
    }

    /// Two stores with the same words and the same length hold the same
    /// bits.
    pub proof fn lemma_view_from_parts(&self, other: &BitStore)
        requires
            self.word_seq() == other.word_seq(),
            self@.len() == other@.len(),
        ensures
            self@ == other@,
    {
        assert(self@ =~= other@);
    }

    /// A store never holds more than `u64::MAX` bits.
    pub proof fn lemma_len_fits(&self)
        ensures
            self@.len() <= u64::MAX,
    {
    }

    proof fn lemma_word_index(&self, i: int)
        requires
            self.wf(),
            0 <= i < self@.len(),
        ensures
            0 <= i / 64 < self.words@.len(),
            0 <= i % 64 < 64,
            self@[i] == word_bit(self.words@[i / 64], (i % 64) as u64),
    {
        lemma_fundamental_div_mod(i, 64);
        lemma_div_plus_one(i, 64);
        lemma_div_is_ordered(i + 64, self.num_bits + 63, 64);
        vstd::arithmetic::div_mod::lemma_div_pos_is_pos(i, 64);
    }

    /// An all-zero store of `n` bits.
    pub fn zeros(n: u64) -> (r: BitStore)
        ensures
            r.wf(),
            r@.len() == n,
            forall|i: int| 0 <= i < n ==> !r@[i],
            r.word_seq() == Seq::new(((n + 63) as int / 64) as nat, |w: int| 0u64),
    {
        let m = crate::math::ceil_div(n, 64);
        let mut words: Vec<u64> = Vec::new();
        let mut w: u64 = 0;
        while w < m
            invariant
                w <= m,
                words@.len() == w,
                forall|q: int| 0 <= q < w ==> words@[q] == 0u64,
            decreases m - w,
        {
            words.push(0u64);
            w = w + 1;
        }
        let r = BitStore { words, num_bits: n };
        proof {
            assert(m == (n + 63) as int / 64);
            assert(forall|o: u64| o < 64 ==> ((0u64 >> o) & 1u64) == 0u64) by (bit_vector);
            assert forall|i: int| 0 <= i < n implies !r@[i] by {
                r.lemma_word_index(i);
            }
            assert(r.word_seq() =~= Seq::new(((n + 63) as int / 64) as nat, |q: int| 0u64));
        }
        r
    }

    /// Number of bits in the store.
    pub fn len(&self) -> (r: u64)
        ensures
            r == self@.len(),
    {
        self.num_bits
    }

    /// Bit `i` of the store.
    pub fn get_bit(&self, i: u64) -> (r: bool)
        requires
            self.wf(),
            i < self@.len(),
        ensures
            r == self@[i as int],
    {
        proof {
            self.lemma_word_index(i as int);
        }
        let wl = self.words.len();
        let idx = (i / 64) as usize;
        let o = i % 64;
        let w = self.words[idx];
        (w >> o) & 1u64 == 1u64
    }

    /// Write bit `i`; the rest of the store is untouched.
    pub fn set_bit(&mut self, i: u64, v: bool)
        requires
            old(self).wf(),
            i < old(self)@.len(),
        ensures
            final(self).wf(),
            final(self)@ == old(self)@.update(i as int, v),
            final(self)@.len() == old(self)@.len(),
    {
        proof {
            self.lemma_word_index(i as int);
        }
        let wl = self.words.len();
        let idx = (i / 64) as usize;
        let o = i % 64;
        let w = self.words[idx];
        proof {
            assert(forall|x: u64, b: u64, j: u64|
                b < 64 && j < 64 ==> #[trigger] word_bit(x | (1u64 << b), j) == (j == b
                    || word_bit(x, j))) by (bit_vector);
            assert(forall|x: u64, b: u64, j: u64|
                b < 64 && j < 64 ==> #[trigger] word_bit(x & (!(1u64 << b)), j) == (j != b
                    && word_bit(x, j))) by (bit_vector);
        }
        let nw = if v {
            w | (1u64 << o)
        } else {
            w & (!(1u64 << o))
        };
        self.words[idx] = nw;
        proof {
            let sold = old(self)@;
            let snew = self@;
            assert forall|p: int| 0 <= p < snew.len() implies snew[p] == sold.update(i as int, v)[p]
                by {
                old(self).lemma_word_index(p);
                self.lemma_word_index(p);
                let j = (p % 64) as u64;
                if p / 64 == i as int / 64 {
                    assert(self.words@[p / 64] == nw);
                    assert(word_bit(w | (1u64 << o), j) == (j == o || word_bit(w, j)));
                    assert(word_bit(w & (!(1u64 << o)), j) == (j != o && word_bit(w, j)));
                    if p != i as int {
                        lemma_fundamental_div_mod(p, 64);
                        lemma_fundamental_div_mod(i as int, 64);
                        assert(j != o);
                    }
                } else {
                    assert(self.words@[p / 64] == old(self).words@[p / 64]);
                }
            }
            assert(snew =~= sold.update(i as int, v));
        }
    }

    /// Append one bit at position `n`.
    pub fn push_bit(&mut self, v: bool)
        requires
            old(self).wf(),
            old(self)@.len() < u64::MAX - 63,
        ensures
            final(self).wf(),
            final(self)@ == old(self)@.push(v),
    {
        let o = self.num_bits % 64;
        if o == 0 {
            self.words.push(0u64);
        }
        self.num_bits = self.num_bits + 1;
        proof {
            let n = old(self).num_bits as int;
            lemma_fundamental_div_mod(n, 64);
            lemma_fundamental_div_mod(n + 64, 64);
            lemma_div_plus_one(n, 64);
            lemma_fundamental_div_mod(n + 63, 64);
            lemma_fundamental_div_mod(n + 1 + 63, 64);
            assert(self.wf());
            assert forall|p: int| 0 <= p < n implies self@[p] == old(self)@[p] by {
                old(self).lemma_word_index(p);
                self.lemma_word_index(p);
            }
        }
        let ghost mid = *self;
        self.set_bit(self.num_bits - 1, v);
        proof {
            assert(self@ =~= old(self)@.push(v));
        }
    }

    /// The bits of `bits`, in order, as a store.
    pub fn from_bits(bits: Vec<bool>) -> (r: BitStore)
        requires
            bits@.len() < u64::MAX - 63,
        ensures
            r.wf(),
            r@ == bits@,
    {
        let mut r = BitStore { words: Vec::new(), num_bits: 0 };
        proof {
            assert(r@ =~= Seq::<bool>::empty());
        }
        let n = bits.len();
        let mut i: usize = 0;
        while i < n
            invariant
                n == bits@.len() < u64::MAX - 63,
                i <= n,
                r.wf(),
                r@ == bits@.take(i as int),
            decreases n - i,
        {
            r.push_bit(bits[i]);
            proof {
                assert(r@ =~= bits@.take(i + 1));
            }
            i = i + 1;
        }
        proof {
            assert(bits@.take(n as int) =~= bits@);
        }
        r
    }

    /// The integer formed by bits `[i, i + k)`, bit `i` least significant;
    /// 0 when `k == 0`.
    pub fn get_bits(&self, i: u64, k: u64) -> (r: u64)
        requires
            self.wf(),
            k <= 64,
            i + k <= self@.len(),
        ensures
            r == bits_value(self@, i as int, k as nat),
    {
        let mut acc: u64 = 0;
        let mut j: u64 = 0;
        while j < k
            invariant
                self.wf(),
                k <= 64,
                i + k <= self@.len(),
                j <= k,
                acc == bits_value(self@, i as int, j as nat),
            decreases k - j,
        {
            proof {
                lemma_bits_value_bound(self@, i as int, j as nat);
                lemma_bits_value_snoc(self@, i as int, j as nat);
                lemma_pow2_unfold((j + 1) as nat);
                if j + 1 < 64 {
                    vstd::arithmetic::power2::lemma_pow2_strictly_increases((j + 1) as nat, 64);
                }
                lemma2_to64();
                lemma2_to64_rest();
            }
            if self.get_bit(i + j) {
                let p = crate::math::two_pow(j);
                acc = acc + p;
            }
            j = j + 1;
        }
        acc
    }
}

} // verus!
