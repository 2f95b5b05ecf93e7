//! A sequence of fixed-width non-negative integers stored bit-adjacent in
//! 64-bit words: `m` values of exactly `w` bits each (`1 <= w <= 64`),
//! LSB-first within each value and packed across word boundaries.

use vstd::prelude::*;

verus! {

use vstd::arithmetic::power2::{pow2, lemma_pow2_unfold, lemma_pow2_pos};
use vstd::arithmetic::div_mod::{lemma_fundamental_div_mod, lemma_div_denominator};
use crate::bits::{BitStore, bits_value, lemma_bits_value_congruence, lemma_bits_value_bound};

/// The bits of `x` from weight `pow2(0)` up to weight `pow2(w - 1)`, lowest
/// first.
pub open spec fn value_bits(x: nat, w: nat) -> Seq<bool> {
    Seq::new(w, |d: int| (x / pow2(d as nat)) % 2 == 1)
}

/// A window that spells out the binary digits of `x < pow2(k)` has value `x`.
pub proof fn lemma_bits_value_of_digits(s: Seq<bool>, i: int, x: nat, k: nat)
    requires
        x < pow2(k),
        forall|d: int| 0 <= d < k ==> s[i + d] == ((x / #[trigger] pow2(d as nat)) % 2 == 1),
    ensures
        bits_value(s, i, k) == x,
    decreases k,
{
    if k == 0 {
        vstd::arithmetic::power2::lemma2_to64();
    } else {
        let half = x / 2;
        lemma_pow2_unfold(k);
        assert(half < pow2((k - 1) as nat));
        assert forall|d: int| 0 <= d < k - 1 implies s[(i + 1) + d] == ((half / #[trigger] pow2(
            d as nat,
        )) % 2 == 1) by {
            assert(s[i + (d + 1)] == ((x / pow2((d + 1) as nat)) % 2 == 1));
            lemma_pow2_unfold((d + 1) as nat);
            lemma_pow2_pos(d as nat);
            lemma_div_denominator(x as int, 2, pow2(d as nat) as int);
            assert(x / pow2((d + 1) as nat) == half / pow2(d as nat));
        }
        lemma_bits_value_of_digits(s, i + 1, half, (k - 1) as nat);
        let d0: int = 0;
        assert(s[i + d0] == ((x / pow2(d0 as nat)) % 2 == 1));
        vstd::arithmetic::power2::lemma2_to64();
        vstd::arithmetic::div_mod::lemma_div_basics(x as int);
        assert(x / pow2(0) == x);
        vstd::arithmetic::power2::lemma2_to64();
        assert(bits_value(s, i, k) == (if s[i] { 1nat } else { 0nat }) + 2 * bits_value(
            s,
            i + 1,
            (k - 1) as nat,
        ));
        lemma_fundamental_div_mod(x as int, 2);
    }
}

/// A packed vector of `m` values, each stored in exactly `width` bits of the
/// backing store.
pub struct PackedIntVector {
    data: BitStore,
    width: u64,
    num_values: u64,
}

impl View for PackedIntVector {
    type V = Seq<u64>;

    closed spec fn view(&self) -> Seq<u64> {
        Seq::new(
            self.num_values as nat,
            |i: int| bits_value(self.data@, i * self.width, self.width as nat) as u64,
        )
    }
}

impl PackedIntVector {
    /// The width is in range and the store holds exactly `m * width` bits.
    pub closed spec fn wf(&self) -> bool {
        &&& 1 <= self.width <= 64
        &&& self.data.wf()
        &&& self.data@.len() == self.num_values * self.width
    }

    /// Bit width every stored value is packed into.
    pub closed spec fn spec_width(&self) -> u64 {
        self.width
    }

    /// The backing bit store, exposed for the byte codec.
    pub closed spec fn spec_data(&self) -> BitStore {
        self.data
    }

    /// An empty vector of `width`-bit values; `capacity` is only a sizing
    /// hint.
    pub fn with_capacity(capacity: u64, width: u64) -> (r: PackedIntVector)
        requires
            1 <= width <= 64,
        ensures
            r.wf(),
            r@.len() == 0,
            r.spec_width() == width,
    {
        let r = PackedIntVector { data: BitStore::zeros(0), width, num_values: 0 };
        r
    }

    /// Number of stored values.
    pub fn len(&self) -> (r: u64)
        requires
            self.wf(),
        ensures
            r == self@.len(),
    {
        self.num_values
    }

    /// Bit width every stored value is packed into.
    pub fn width(&self) -> (r: u64)
        ensures
            r == self.spec_width(),
    {
        self.width
    }

    /// Append `x`, which must fit in the vector's width.
    pub fn push(&mut self, x: u64)
        requires
            old(self).wf(),
            x < pow2(old(self).spec_width() as nat),
            old(self)@.len() * old(self).spec_width() + 64 < u64::MAX - 63,
        ensures
            final(self).wf(),
            final(self)@ == old(self)@.push(x),
            final(self).spec_width() == old(self).spec_width(),
    {
        let w = self.width;
        let ghost old_bits = self.data@;
        let mut j: u64 = 0;
        while j < w
            invariant
                1 <= w <= 64,
                j <= w,
                self.width == w,
                self.num_values == old(self).num_values,
                old_bits.len() + 64 < u64::MAX - 63,
                self.data.wf(),
                self.data@.len() == old_bits.len() + j,
                self.data@ == old_bits + value_bits(x as nat, w as nat).take(j as int),
            decreases w - j,
        {
            let p = crate::math::two_pow(j);
            proof {
                lemma_pow2_pos(j as nat);
            }
            let b = (x / p) % 2 == 1;
            self.data.push_bit(b);
            proof {
                assert(self.data@ =~= old_bits + value_bits(x as nat, w as nat).take(j + 1));
            }
            j = j + 1;
        }
        self.num_values = self.num_values + 1;
        proof {
            assert(value_bits(x as nat, w as nat).take(w as int) =~= value_bits(
                x as nat,
                w as nat,
            ));
            let nv = self.num_values as int;
            let sold = old(self)@;
            let snew = self@;
            let old_count = old(self).num_values;
            assert(self.data@.len() == old_count * w + w);
            assert(self.num_values * self.width == old_count * w + w) by (nonlinear_arith)
                requires
                    self.num_values == old_count + 1,
                    self.width == w,
            ;
            assert(self.wf());
            assert forall|i: int| 0 <= i < nv implies snew[i] == sold.push(x)[i] by {
                assert(0 <= i * w && i * w + w <= nv * w) by (nonlinear_arith)
                    requires
                        0 <= i < nv,
                        1 <= w,
                ;
                if i < nv - 1 {
                    assert(i * w + w <= (nv - 1) * w) by (nonlinear_arith)
                        requires
                            i < nv - 1,
                            1 <= w,
                    ;
                    assert(self.data@.subrange(i * w, i * w + w as int) =~= old_bits.subrange(
                        i * w,
                        i * w + w as int,
                    ));
                    lemma_bits_value_congruence(
                        self.data@,
                        i * w,
                        old_bits,
                        i * w,
                        w as nat,
                    );
                } else {
                    assert(i * w == old_bits.len());
                    assert forall|d: int| 0 <= d < w implies self.data@[i * w + d] == ((x as nat
                        / #[trigger] pow2(d as nat)) % 2 == 1) by {
                        assert(self.data@[old_bits.len() + d] == value_bits(
                            x as nat,
                            w as nat,
                        )[d]);
                    }
                    lemma_bits_value_of_digits(self.data@, i * w, x as nat, w as nat);
                }
            }
            assert(snew =~= sold.push(x));
        }
    }

    /// Reassemble a packed vector from its backing store, width and count;
    /// refused unless the store holds exactly `count * width` bits.
    pub fn from_parts(data: BitStore, width: u64, count: u64) -> (r: Option<PackedIntVector>)
        requires
            data.wf(),
        ensures
            r is Some <==> (1 <= width <= 64 && data@.len() == count * width),
            r matches Some(pv) ==> {
                &&& pv.wf()
                &&& pv.spec_width() == width
                &&& pv.spec_data() == data
                &&& pv@ == Seq::new(
                    count as nat,
                    |i: int| bits_value(data@, i * width, width as nat) as u64,
                )
            },
    {
        if width < 1 || width > 64 {
            proof {
                assert(count * width != data@.len() || !(1 <= width <= 64));
            }
            return None;
        }
        if count > u64::MAX / width {
            proof {
                data.lemma_len_fits();
                lemma_mul_div_bound(count as int, width as int, u64::MAX as int);
            }
            return None;
        }
        proof {
            lemma_mul_div_le(count as int, width as int, u64::MAX as int);
        }
        let expected = count * width;
        if data.len() == expected {
            let pv = PackedIntVector { data, width, num_values: count };
            proof {
                assert(pv@ =~= Seq::new(
                    count as nat,
                    |i: int| bits_value(data@, i * width, width as nat) as u64,
                ));
            }
            Some(pv)
        } else {
            None
        }
    }

    /// The backing bit store.
    pub fn data(&self) -> (r: &BitStore)
        ensures
            *r == self.spec_data(),
    {
        &self.data
    }

    /// A well-formed vector's width sits in `1..=64`.
    pub proof fn lemma_wf_width(&self)
        requires
            self.wf(),
        ensures
            1 <= self.spec_width() <= 64,
    {
    }

    /// Total bits of backing storage used by the stored values.
    pub fn size_in_bits(&self) -> (r: u64)
        requires
            self.wf(),
        ensures
            r == self@.len() * self.spec_width(),
    {
        self.data.len()
    }

    /// Value at index `i`.
    pub fn get(&self, i: u64) -> (r: u64)
        requires
            self.wf(),
            i < self@.len(),
        ensures
            r == self@[i as int],
    {
        proof {
            self.data.lemma_len_fits();
            assert(i * self.width + self.width <= self.num_values * self.width) by (
            nonlinear_arith)
                requires
                    i < self.num_values,
                    1 <= self.width,
            ;
            assert(0 <= i * self.width) by (nonlinear_arith)
                requires
                    0 <= i,
                    1 <= self.width,
            ;
        }
        let start = i * self.width;
        self.data.get_bits(start, self.width)
    }

    /// A well-formed vector's backing store is well formed and holds
    /// exactly `count * width` bits.
    pub proof fn lemma_data_shape(&self)
        requires
            self.wf(),
        ensures
            self.spec_data().wf(),
            self.spec_data()@.len() == self@.len() * self.spec_width(),
    {
    }

    /// Two well-formed vectors with the same width, count and backing bits
    /// hold the same values.
    pub proof fn lemma_view_determined(&self, other: &PackedIntVector)
        requires
            self.spec_width() == other.spec_width(),
            self@.len() == other@.len(),
            self.spec_data()@ == other.spec_data()@,
        ensures
            self@ == other@,
    {
        assert(self@ =~= other@);
    }

    /// Every stored value fits under `pow2(width)`.
    pub proof fn lemma_values_in_range(&self)
        requires
            self.wf(),
        ensures
            forall|i: int| 0 <= i < self@.len() ==> (#[trigger] self@[i]) < pow2(
                self.spec_width() as nat,
            ),
    {
        assert forall|i: int| 0 <= i < self@.len() implies (#[trigger] self@[i]) < pow2(
            self.spec_width() as nat,
        ) by {
            lemma_bits_value_bound(self.data@, i * self.width, self.width as nat);
        }
    }
}

/// If `c > m / w` then `c * w` exceeds `m` (for positive `w`).
pub(crate) proof fn lemma_mul_div_bound(c: int, w: int, m: int)
    requires
        1 <= w,
        0 <= m,
        c > m / w,
    ensures
        c * w > m,
{
    lemma_fundamental_div_mod(m, w);
    assert(c * w >= (m / w + 1) * w) by (nonlinear_arith)
        requires
            c >= m / w + 1,
            w >= 1,
    ;
    assert((m / w + 1) * w == (m / w) * w + w) by (nonlinear_arith);
    assert((m / w) * w == w * (m / w)) by (nonlinear_arith);
}

/// If `c <= m / w` then `c * w` stays within `m` (for positive `w`).
pub(crate) proof fn lemma_mul_div_le(c: int, w: int, m: int)
    requires
        1 <= w,
        0 <= m,
        0 <= c <= m / w,
    ensures
        c * w <= m,
{
    lemma_fundamental_div_mod(m, w);
    assert(c * w <= (m / w) * w) by (nonlinear_arith)
        requires
            0 <= c <= m / w,
            w >= 1,
    ;
    assert((m / w) * w == w * (m / w)) by (nonlinear_arith);
}

} // verus!
