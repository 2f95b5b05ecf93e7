//! A sparse array: a dense values vector plus a rank/select index over the
//! occupancy bitmap.  A logical array of length `N` with `k` occupied
//! positions stores only the `k` values; rank queries recover each value's
//! position in the dense vector.

use vstd::prelude::*;

verus! {

use crate::bits::{BitStore, ones, lemma_ones_bounds, lemma_ones_split, lemma_ones_congruence};
use crate::rank_support::{RankSupport, rank_spec, MAX_BITS};
use crate::select_support::{SelectSupport, lemma_select1_inverse};
use crate::serial::{
    ValueCodec, DecodeError, RankParse, le_bytes, le_value, rank_encoding, rank_dec,
    push_le_bytes, read_le_bytes,
};

/// The dense logical array described by an occupancy bitmap and the packed
/// values of its occupied positions, in position order.
pub open spec fn dense_view<T>(values: Seq<T>, bits: Seq<bool>) -> Seq<Option<T>> {
    Seq::new(bits.len(), |i: int| if bits[i] { Some(values[ones(bits, 0, i)]) } else { None })
}

/// The occupancy bitmap a dense vector induces: set exactly at its present
/// entries.
pub open spec fn occupancy<T>(values: Seq<Option<T>>) -> Seq<bool> {
    Seq::new(values.len(), |i: int| values[i] is Some)
}

/// The present entries of a dense vector, in order.
pub open spec fn present_values<T>(values: Seq<Option<T>>) -> Seq<T>
    decreases values.len(),
{
    if values.len() == 0 {
        Seq::empty()
    } else if values.last() is Some {
        present_values(values.drop_last()).push(values.last().unwrap())
    } else {
        present_values(values.drop_last())
    }
}

/// Mutable construction phase of a sparse array: a zeroed bitmap of the full
/// logical length and an empty values vector, filled by `append` at strictly
/// increasing positions.
pub struct SparseArrayBuilder<T> {
    vector: Vec<T>,
    store: BitStore,
}

impl<T> View for SparseArrayBuilder<T> {
    type V = Seq<Option<T>>;

    closed spec fn view(&self) -> Seq<Option<T>> {
        dense_view(self.vector@, self.store@)
    }
}

impl<T> SparseArrayBuilder<T> {
    /// The values vector holds exactly one entry per set bit.
    pub closed spec fn wf(&self) -> bool {
        &&& self.store.wf()
        &&& self.store@.len() <= MAX_BITS
        &&& self.vector@.len() == ones(self.store@, 0, self.store@.len() as int)
    }

    /// The occupancy bitmap built so far.
    pub closed spec fn spec_bits(&self) -> Seq<bool> {
        self.store@
    }

    /// The values appended so far, in append order.
    pub closed spec fn spec_values(&self) -> Seq<T> {
        self.vector@
    }

    /// An empty builder for a logical array of length `size`.
    pub fn new(size: u64) -> (r: SparseArrayBuilder<T>)
        requires
            size <= MAX_BITS,
        ensures
            r.wf(),
            r@.len() == size,
            forall|i: int| 0 <= i < size ==> r@[i] is None,
            forall|i: int| 0 <= i < size ==> !r.spec_bits()[i],
            r.spec_values().len() == 0,
    {
        let store = BitStore::zeros(size);
        proof {
            lemma_ones_all_zero(store@, 0, size as int);
        }
        let r = SparseArrayBuilder { vector: Vec::new(), store };
        r
    }

    /// Append `value` at position `pos`, which must lie past every position
    /// appended so far.
    pub fn append(&mut self, value: T, pos: u64)
        requires
            old(self).wf(),
            pos < old(self)@.len(),
            forall|j: int| pos <= j < old(self)@.len() ==> !old(self).spec_bits()[j],
        ensures
            final(self).wf(),
            final(self)@ == old(self)@.update(pos as int, Some(value)),
            final(self).spec_bits() == old(self).spec_bits().update(pos as int, true),
            final(self).spec_values() == old(self).spec_values().push(value),
    {
        let ghost oldbits = self.store@;
        let ghost oldvals = self.vector@;
        let ghost n = oldbits.len() as int;
        let ghost p = pos as int;
        self.vector.push(value);
        self.store.set_bit(pos, true);
        proof {
            let newbits = self.store@;
            let newvals = self.vector@;
            assert forall|j: int| p <= j < n implies !oldbits[j] by {
                assert(!old(self).spec_bits()[j]);
            }
            // counts around the updated position
            lemma_ones_split(oldbits, 0, p, n);
            lemma_ones_split(oldbits, p, p + 1, n);
            lemma_ones_all_zero(oldbits, p, n);
            lemma_ones_split(newbits, 0, p, n);
            lemma_ones_split(newbits, p, p + 1, n);
            lemma_ones_congruence(oldbits, newbits, 0, p);
            lemma_ones_congruence(oldbits, newbits, p + 1, n);
            assert(ones(newbits, p, p) == 0);
            assert(ones(newbits, p, p + 1) == 1);
            assert(ones(oldbits, p, p) == 0);
            assert(ones(oldbits, p, p + 1) == 0);
            assert(ones(oldbits, p + 1, n) == 0);
            assert(ones(oldbits, 0, p) == oldvals.len());
            assert(ones(newbits, 0, n) == oldvals.len() + 1);
            assert(self.wf());
            assert forall|i: int| 0 <= i < n implies self@[i] == old(self)@.update(
                p,
                Some(value),
            )[i] by {
                if i < p {
                    lemma_ones_congruence(oldbits, newbits, 0, i);
                    if oldbits[i] {
                        lemma_ones_split(oldbits, 0, i, p);
                        lemma_ones_bounds(oldbits, 0, i);
                        lemma_ones_bounds(oldbits, i, p);
                        assert(ones(oldbits, 0, i) < oldvals.len()) by {
                            lemma_ones_split(oldbits, 0, i + 1, p);
                            lemma_ones_bounds(oldbits, i + 1, p);
                        }
                    }
                } else if i == p {
                    lemma_ones_congruence(oldbits, newbits, 0, p);
                } else {
                    assert(!oldbits[i] && !newbits[i]);
                }
            }
            assert(self@ =~= old(self)@.update(p, Some(value)));
            assert(self.spec_values() =~= old(self).spec_values().push(value));
        }
    }

    /// Freeze the bitmap, build the rank index, and seal the array.
    pub fn finalize(self) -> (r: SparseArray<T>)
        requires
            self.wf(),
        ensures
            r.wf(),
            r@ == self@,
            r.spec_bits() == self.spec_bits(),
            r.spec_values() == self.spec_values(),
    {
        let ghost gview = self@;
        let rank_support = RankSupport::new(self.store);
        let r = SparseArray { vector: self.vector, rank_support };
        proof {
            assert(r@ =~= gview);
        }
        r
    }
}

/// An immutable sparse array: values for the occupied positions of a dense
/// logical array, with rank/select answering positional queries.
pub struct SparseArray<T> {
    vector: Vec<T>,
    rank_support: RankSupport,
}

impl<T> View for SparseArray<T> {
    type V = Seq<Option<T>>;

    closed spec fn view(&self) -> Seq<Option<T>> {
        dense_view(self.vector@, self.rank_support@)
    }
}

impl<T> SparseArray<T> {
    /// The values vector holds exactly one entry per set bit of a
    /// well-formed rank index.
    pub closed spec fn wf(&self) -> bool {
        &&& self.rank_support.wf()
        &&& self.vector@.len() == ones(
            self.rank_support@,
            0,
            self.rank_support@.len() as int,
        )
    }

    /// The occupancy bitmap.
    pub closed spec fn spec_bits(&self) -> Seq<bool> {
        self.rank_support@
    }

    /// The dense values, in position order.
    pub closed spec fn spec_values(&self) -> Seq<T> {
        self.vector@
    }

    /// The shared rank index, exposed for overhead accounting.
    pub closed spec fn spec_rank(&self) -> RankSupport {
        self.rank_support
    }

    /// The logical view is exactly the dense view of the stored values over
    /// the occupancy bitmap; the bitmap spans the whole view, and the values
    /// vector holds one entry per set bit.
    pub proof fn lemma_view_parts(&self)
        requires
            self.wf(),
        ensures
            self@ == dense_view(self.spec_values(), self.spec_bits()),
            self@.len() == self.spec_bits().len(),
            self.spec_values().len() == rank_spec(
                self.spec_bits(),
                self.spec_bits().len() as int,
            ),
    {
    }

    /// Seal a sparse array from parts: `store` marks the occupied positions
    /// and `vector` holds their values in order.
    pub fn new(vector: Vec<T>, store: BitStore) -> (r: SparseArray<T>)
        requires
            store.wf(),
            store@.len() <= MAX_BITS,
            vector@.len() == ones(store@, 0, store@.len() as int),
        ensures
            r.wf(),
            r@ == dense_view(vector@, store@),
            r.spec_bits() == store@,
            r.spec_values() == vector@,
    {
        let builder = SparseArrayBuilder { vector, store };
        builder.finalize()
    }

    /// Open a builder for a logical array of length `size`.
    pub fn create(size: u64) -> (r: SparseArrayBuilder<T>)
        requires
            size <= MAX_BITS,
        ensures
            r.wf(),
            r@.len() == size,
            forall|i: int| 0 <= i < size ==> r@[i] is None,
            forall|i: int| 0 <= i < size ==> !r.spec_bits()[i],
            r.spec_values().len() == 0,
    {
        SparseArrayBuilder::new(size)
    }

    /// Lower a dense vector of optional values into a sparse array with the
    /// same logical contents.
    pub fn from_dense_vec(values: Vec<Option<T>>) -> (r: SparseArray<T>)
        requires
            values@.len() <= MAX_BITS,
        ensures
            r.wf(),
            r@ == values@,
            r.spec_bits() == occupancy(values@),
            r.spec_values() == present_values(values@),
    {
        let ghost orig = values@;
        let n = values.len();
        let mut builder = Self::create(n as u64);
        let mut rest = values;
        let mut pos: usize = 0;
        proof {
            assert(orig.take(0) =~= Seq::<Option<T>>::empty());
        }
        while pos < n
            invariant
                n == orig.len() <= MAX_BITS,
                pos + rest@.len() == n,
                rest@ == orig.subrange(pos as int, n as int),
                builder.wf(),
                builder@.len() == n,
                builder.spec_bits().len() == n,
                forall|i: int| 0 <= i < pos ==> builder@[i] == orig[i],
                forall|i: int| pos <= i < n ==> builder@[i] is None,
                forall|i: int| pos <= i < n ==> !builder.spec_bits()[i],
                forall|i: int| 0 <= i < pos ==> builder.spec_bits()[i] == (orig[i] is Some),
                builder.spec_values() == present_values(orig.take(pos as int)),
            decreases n - pos,
        {
            let v = rest.remove(0);
            proof {
                assert(orig.subrange(pos as int, n as int)[0] == orig[pos as int]);
                assert(rest@ =~= orig.subrange(pos + 1, n as int));
                assert(orig.take(pos + 1).drop_last() =~= orig.take(pos as int));
                assert(orig.take(pos + 1).last() == orig[pos as int]);
            }
            match v {
                Option::Some(inner) => {
                    builder.append(inner, pos as u64);
                    proof {
                        assert(present_values(orig.take(pos + 1)) == present_values(
                            orig.take(pos as int),
                        ).push(inner));
                    }
                },
                Option::None => {
                    proof {
                        assert(present_values(orig.take(pos + 1)) == present_values(
                            orig.take(pos as int),
                        ));
                    }
                },
            }
            pos = pos + 1;
        }
        let r = builder.finalize();
        proof {
            assert(r@ =~= orig);
            assert(r.spec_bits() =~= occupancy(orig));
            assert(orig.take(n as int) =~= orig);
        }
        r
    }

    /// Length of the dense logical array.
    pub fn size(&self) -> (r: u64)
        requires
            self.wf(),
        ensures
            r == self@.len(),
    {
        self.rank_support.store_len()
    }

    /// Number of occupied positions.
    pub fn num_elem(&self) -> (r: u64)
        requires
            self.wf(),
        ensures
            r == self.spec_values().len(),
            r == rank_spec(self.spec_bits(), self.spec_bits().len() as int),
    {
        proof {
            assert(self.vector@.len() <= u64::MAX) by {
                lemma_ones_bounds(self.rank_support@, 0, self.rank_support@.len() as int);
                self.rank_support.store.lemma_len_fits();
            }
        }
        self.vector.len() as u64
    }

    /// Number of occupied positions in `[0, index]`, inclusive.
    pub fn num_elem_at(&self, index: u64) -> (r: u64)
        requires
            self.wf(),
            index < self@.len(),
        ensures
            r == rank_spec(self.spec_bits(), index + 1),
    {
        self.rank_support.rank1(index + 1)
    }

    /// The value of rank `rank` in the dense values vector, if any.
    pub fn get_at_rank(&self, rank: u64) -> (r: Option<&T>)
        requires
            self.wf(),
        ensures
            match r {
                Some(v) => rank < self.spec_values().len() && *v == self.spec_values()[rank as int],
                None => rank >= self.spec_values().len(),
            },
    {
        let len = self.vector.len();
        if rank < len as u64 {
            Some(&self.vector[rank as usize])
        } else {
            None
        }
    }

    /// The value at dense position `index`, if that position is occupied.
    pub fn get_at_index(&self, index: u64) -> (r: Option<&T>)
        requires
            self.wf(),
        ensures
            match r {
                Some(v) => index < self@.len() && self@[index as int] == Some(*v),
                None => index >= self@.len() || self@[index as int] is None,
            },
    {
        if index >= self.size() {
            return None;
        }
        if self.rank_support.store.get_bit(index) {
            proof {
                let bits = self.spec_bits();
                let i = index as int;
                lemma_ones_split(bits, 0, i, i + 1);
                lemma_ones_split(bits, 0, i + 1, bits.len() as int);
                lemma_ones_bounds(bits, i + 1, bits.len() as int);
                lemma_ones_bounds(bits, 0, i);
                assert(ones(bits, 0, i) < self.spec_values().len());
            }
            let rank = self.rank_support.rank1(index);
            self.get_at_rank(rank)
        } else {
            None
        }
    }

    /// The dense position of the `rank`-th occupied entry (1-based), if
    /// `1 <= rank <= num_elem()`.
    pub fn get_index_of(&self, rank: u64) -> (r: Option<u64>)
        requires
            self.wf(),
        ensures
            match r {
                Some(j) => {
                    &&& 1 <= rank <= self.spec_values().len()
                    &&& j < self@.len()
                    &&& self.spec_bits()[j as int]
                    &&& rank_spec(self.spec_bits(), j as int) == rank - 1
                },
                None => rank == 0 || rank > self.spec_values().len(),
            },
    {
        let num_elem = self.num_elem();
        if rank > num_elem || rank == 0 {
            return None;
        }
        let select_support = SelectSupport::new(&self.rank_support);
        let s = select_support.select1(rank);
        proof {
            lemma_select1_inverse(self.spec_bits(), rank as int, s as int);
        }
        Some(s - 1)
    }

    /// Total bits of the occupancy store plus the select layer's overhead
    /// plus a constant 64 bits.
    pub fn overhead(&self) -> (r: u64)
        requires
            self.wf(),
        ensures
            r == self.spec_rank().store.word_seq().len() * 64 + self.spec_rank().superblocks@.len()
                * self.spec_rank().superblocks.spec_width() + self.spec_rank().blocks@.len()
                * self.spec_rank().blocks.spec_width() + 24 + 64,
    {
        proof {
            self.rank_support.store.lemma_len_fits();
            self.lemma_overhead_fits();
        }
        let store_bits = self.rank_support.store.num_words() as u64 * 64;
        let select_support = SelectSupport::new(&self.rank_support);
        store_bits + select_support.overhead() + 64
    }

    /// The summed overhead terms stay inside `u64` arithmetic.
    proof fn lemma_overhead_fits(&self)
        requires
            self.wf(),
        ensures
            self.rank_support.store.word_seq().len() * 64 <= MAX_BITS + 63,
            0 <= self.rank_support.superblocks@.len()
                * self.rank_support.superblocks.spec_width(),
            0 <= self.rank_support.blocks@.len() * self.rank_support.blocks.spec_width(),
            self.rank_support.store.word_seq().len() * 64 + self.rank_support.superblocks@.len()
                * self.rank_support.superblocks.spec_width() + self.rank_support.blocks@.len()
                * self.rank_support.blocks.spec_width() + 24 + 64 <= u64::MAX,
    {
        let n = self.rank_support@.len() as int;
        let s = self.rank_support.s as int;
        let words = self.rank_support.store.word_seq().len() as int;
        let sbl = self.rank_support.superblocks@.len() as int;
        let bl = self.rank_support.blocks@.len() as int;
        self.rank_support.store.lemma_wf_words();
        self.rank_support.superblocks.lemma_wf_width();
        self.rank_support.blocks.lemma_wf_width();
        vstd::arithmetic::div_mod::lemma_div_pos_is_pos(n, s);
        vstd::arithmetic::div_mod::lemma_div_nonincreasing(n, s);
        vstd::arithmetic::div_mod::lemma_div_is_ordered(n + 63, MAX_BITS + 63, 64);
        assert(words <= (MAX_BITS + 63) / 64);
        assert(words * 64 <= MAX_BITS + 63) by (nonlinear_arith)
            requires
                0 <= words <= (MAX_BITS + 63) / 64,
                ((MAX_BITS + 63) / 64) * 64 <= MAX_BITS + 63,
        ;
        vstd::arithmetic::div_mod::lemma_fundamental_div_mod(MAX_BITS + 63, 64);
        assert(0 <= sbl * self.rank_support.superblocks.spec_width()) by (nonlinear_arith)
            requires
                0 <= sbl,
                0 <= self.rank_support.superblocks.spec_width(),
        ;
        assert(0 <= bl * self.rank_support.blocks.spec_width()) by (nonlinear_arith)
            requires
                0 <= bl,
                0 <= self.rank_support.blocks.spec_width(),
        ;
        assert(sbl * self.rank_support.superblocks.spec_width() <= (n + 1) * 64) by (
        nonlinear_arith)
            requires
                0 <= sbl <= n + 1,
                0 < self.rank_support.superblocks.spec_width() <= 64,
        ;
        assert(bl * self.rank_support.blocks.spec_width() <= (n + s) * 64) by (nonlinear_arith)
            requires
                0 <= bl <= n + s,
                0 < self.rank_support.blocks.spec_width() <= 64,
        ;
    }
}

/// Concatenated encodings of the values, in order.
pub open spec fn values_encoding<T: ValueCodec>(vs: Seq<T>) -> Seq<u8>
    decreases vs.len(),
{
    if vs.len() == 0 {
        Seq::empty()
    } else {
        values_encoding(vs.drop_last()) + vs.last().encoding()
    }
}

/// Parse of `k` consecutive values starting at `pos`: the values and the
/// position after them, or `None` where any of the reads fails.
pub open spec fn values_dec<T: ValueCodec>(bs: Seq<u8>, pos: int, k: nat) -> Option<(Seq<T>, int)>
    decreases k,
{
    if k == 0 {
        Some((Seq::empty(), pos))
    } else {
        match T::decode_spec(bs, pos) {
            Option::None => None,
            Option::Some(first) => match values_dec::<T>(bs, first.1, (k - 1) as nat) {
                Option::None => None,
                Option::Some(rest) => Some((Seq::empty().push(first.0) + rest.0, rest.1)),
            },
        }
    }
}

/// Byte form of a sparse array: rank-bundle byte length, the rank bundle,
/// the value count, then each value's encoding.
pub open spec fn sparse_encoding<T: ValueCodec>(sa: SparseArray<T>) -> Seq<u8> {
    le_bytes(rank_encoding(sa.spec_rank()).len(), 8) + (rank_encoding(sa.spec_rank()) + (le_bytes(
        sa.spec_values().len(),
        8,
    ) + values_encoding(sa.spec_values())))
}

/// Parse of a sparse-array byte string, `None` unless every layer reads
/// cleanly and the bytes end exactly after the last value.
pub open spec fn sparse_dec<T: ValueCodec>(bs: Seq<u8>) -> Option<(RankParse, Seq<T>)> {
    if bs.len() < 8 {
        None
    } else {
        let bl = le_value(bs.subrange(0, 8)) as int;
        if bs.len() < 8 + bl + 8 {
            None
        } else {
            match rank_dec(bs.subrange(8, 8 + bl)) {
                Option::None => None,
                Option::Some(rp) => {
                    let cnt = le_value(bs.subrange(8 + bl, 8 + bl + 8));
                    match values_dec::<T>(bs, 8 + bl + 8, cnt) {
                        Option::None => None,
                        Option::Some(vr) => if vr.1 == bs.len() {
                            Some((rp, vr.0))
                        } else {
                            None
                        },
                    }
                },
            }
        }
    }
}

impl<T: ValueCodec> SparseArray<T> {
    /// The sparse array as its persisted byte form.
    pub fn to_bytes(&self) -> (r: Vec<u8>)
        requires
            self.wf(),
        ensures
            r@ == sparse_encoding(*self),
    {
        let ghost vals = self.vector@;
        let mut bundle = self.rank_support.to_bytes();
        let mut out: Vec<u8> = Vec::new();
        proof {
            crate::serial::lemma_p256_fits_u64();
        }
        push_le_bytes(&mut out, bundle.len() as u64, 8);
        out.append(&mut bundle);
        let count = self.vector.len();
        push_le_bytes(&mut out, count as u64, 8);
        let ghost head = out@;
        let mut i: usize = 0;
        proof {
            assert(vals.take(0) =~= Seq::<T>::empty());
            assert(out@ =~= head + values_encoding(vals.take(0)));
        }
        while i < count
            invariant
                i <= count,
                count == vals.len(),
                vals == self.vector@,
                out@ == head + values_encoding(vals.take(i as int)),
            decreases count - i,
        {
            self.vector[i].write_to(&mut out);
            proof {
                assert(vals.take(i + 1).drop_last() =~= vals.take(i as int));
                assert(vals.take(i + 1).last() == vals[i as int]);
                assert(out@ =~= head + values_encoding(vals.take(i + 1)));
            }
            i = i + 1;
        }
        proof {
            assert(vals.take(vals.len() as int) =~= vals);
            assert(out@ =~= sparse_encoding(*self));
        }
        out
    }

    /// Reconstruct a sparse array from its persisted byte form.  Succeeds
    /// exactly when the bytes parse as [`sparse_dec`] describes; the values
    /// and the rank index's fields are the parsed components.
    pub fn from_bytes(bytes: &[u8]) -> (r: Result<SparseArray<T>, DecodeError>)
        ensures
            r is Ok <==> sparse_dec::<T>(bytes@) is Some,
            r matches Ok(sa) ==> {
                let p = sparse_dec::<T>(bytes@).unwrap();
                &&& sa.spec_values() == p.1
                &&& sa.spec_rank().wf_structural()
                &&& sa.spec_rank().store@.len() == p.0.n
                &&& sa.spec_rank().store.word_seq() == p.0.store_words
                &&& sa.spec_rank().superblocks@.len() == p.0.sb_count
                &&& sa.spec_rank().superblocks.spec_width() == p.0.sb_width
                &&& sa.spec_rank().superblocks.spec_data().word_seq() == p.0.sb_words
                &&& sa.spec_rank().blocks@.len() == p.0.blk_count
                &&& sa.spec_rank().blocks.spec_width() == p.0.blk_width
                &&& sa.spec_rank().blocks.spec_data().word_seq() == p.0.blk_words
                &&& sa.spec_rank().s == p.0.s
                &&& sa.spec_rank().b == p.0.b
            },
    {
        let blen = bytes.len();
        if blen < 16 {
            return Err(DecodeError);
        }
        let bl = read_le_bytes(bytes, 0, 8);
        if (blen as u64) - 16 < bl {
            return Err(DecodeError);
        }
        let bundle = crate::serial::copy_range(bytes, 8, 8 + bl as usize);
        let rk = match RankSupport::from_bytes(bundle.as_slice()) {
            Ok(rk) => rk,
            Err(_) => {
                return Err(DecodeError);
            },
        };
        let cnt = read_le_bytes(bytes, 8 + bl as usize, 8);
        let ghost gbl = bl as int;
        let ghost start = 16 + bl as int;
        let mut vector: Vec<T> = Vec::new();
        let mut cursor: usize = 16 + bl as usize;
        let mut i: u64 = 0;
        proof {
            assert(Seq::<T>::empty() + values_dec::<T>(bytes@, start, cnt as nat).unwrap().0
                =~= values_dec::<T>(bytes@, start, cnt as nat).unwrap().0);
        }
        while i < cnt
            invariant
                i <= cnt,
                vector@.len() == i,
                start <= cursor <= blen,
                blen == bytes@.len(),
                blen >= 16 + gbl,
                gbl == le_value(bytes@.subrange(0, 8)),
                rank_dec(bytes@.subrange(8, 8 + gbl)) is Some,
                cnt == le_value(bytes@.subrange(8 + gbl, 8 + gbl + 8)),
                start == 8 + gbl + 8,
                values_dec::<T>(bytes@, start, cnt as nat) == (match values_dec::<T>(
                    bytes@,
                    cursor as int,
                    (cnt - i) as nat,
                ) {
                    Option::None => None::<(Seq<T>, int)>,
                    Option::Some(rest) => Some((vector@ + rest.0, rest.1)),
                }),
            decreases cnt - i,
        {
            match T::read_from(bytes, cursor) {
                Option::None => {
                    return Err(DecodeError);
                },
                Option::Some(pair) => {
                    let ghost oldvec = vector@;
                    proof {
                        let rest0 = values_dec::<T>(bytes@, pair.1 as int, (cnt - i - 1) as nat);
                        if rest0 is Some {
                            assert(oldvec + (Seq::<T>::empty().push(pair.0)
                                + rest0.unwrap().0) =~= oldvec.push(pair.0)
                                + rest0.unwrap().0);
                        }
                    }
                    vector.push(pair.0);
                    cursor = pair.1;
                    i = i + 1;
                },
            }
        }
        if cursor != blen {
            return Err(DecodeError);
        }
        let sa = SparseArray { vector, rank_support: rk };
        proof {
            assert(values_dec::<T>(bytes@, cursor as int, 0) == Some(
                (Seq::<T>::empty(), cursor as int),
            ));
            assert(sa.vector@ + Seq::<T>::empty() =~= sa.vector@);
            assert(sparse_dec::<T>(bytes@) is Some);
        }
        Ok(sa)
    }
}

/// Splitting a dense vector at its first element splits its encoding.
proof fn lemma_values_encoding_cons<T: ValueCodec>(vs: Seq<T>)
    requires
        vs.len() > 0,
    ensures
        values_encoding(vs) == vs.first().encoding() + values_encoding(vs.drop_first()),
    decreases vs.len(),
{
    if vs.len() == 1 {
        assert(vs.drop_last() =~= Seq::<T>::empty());
        assert(vs.drop_first() =~= Seq::<T>::empty());
        assert(vs.last() == vs.first());
        assert(values_encoding(vs) =~= vs.first().encoding() + values_encoding(
            vs.drop_first(),
        ));
    } else {
        let dl = vs.drop_last();
        lemma_values_encoding_cons::<T>(dl);
        assert(dl.first() == vs.first());
        assert(dl.drop_first() =~= vs.drop_first().drop_last());
        assert(vs.drop_first().last() == vs.last());
        assert(values_encoding(vs) =~= vs.first().encoding() + values_encoding(
            vs.drop_first(),
        ));
    }
}

/// Reading where a dense vector's encodings were written recovers exactly
/// those values, ending right after them.
pub proof fn lemma_values_dec_of_encoding<T: ValueCodec>(bs: Seq<u8>, pos: int, vs: Seq<T>)
    requires
        0 <= pos,
        pos + values_encoding(vs).len() <= bs.len(),
        bs.subrange(pos, pos + values_encoding(vs).len() as int) == values_encoding(vs),
    ensures
        values_dec::<T>(bs, pos, vs.len()) == Some(
            (vs, pos + values_encoding(vs).len() as int),
        ),
    decreases vs.len(),
{
    if vs.len() == 0 {
        assert(values_encoding(vs).len() == 0);
        assert(vs =~= Seq::<T>::empty());
    } else {
        let x = vs.first();
        let enc0 = x.encoding();
        let restvs = vs.drop_first();
        let renc = values_encoding(restvs);
        lemma_values_encoding_cons::<T>(vs);
        assert(bs.subrange(pos, pos + enc0.len() as int) =~= enc0) by {
            assert forall|i: int| 0 <= i < enc0.len() implies #[trigger] bs.subrange(
                pos,
                pos + enc0.len() as int,
            )[i] == enc0[i] by {
                assert(bs.subrange(pos, pos + values_encoding(vs).len() as int)[i] == (enc0
                    + renc)[i]);
                assert(bs.subrange(pos, pos + enc0.len() as int)[i] == bs[pos + i]);
                assert(bs.subrange(pos, pos + values_encoding(vs).len() as int)[i] == bs[pos
                    + i]);
            }
        }
        T::lemma_decode_inverts(x, bs, pos);
        let pos2 = pos + enc0.len() as int;
        assert(bs.subrange(pos2, pos2 + renc.len() as int) =~= renc) by {
            assert forall|i: int| 0 <= i < renc.len() implies #[trigger] bs.subrange(
                pos2,
                pos2 + renc.len() as int,
            )[i] == renc[i] by {
                assert(bs.subrange(pos, pos + values_encoding(vs).len() as int)[enc0.len() + i]
                    == (enc0 + renc)[enc0.len() + i]);
                assert(bs.subrange(pos2, pos2 + renc.len() as int)[i] == bs[pos2 + i]);
                assert(bs.subrange(pos, pos + values_encoding(vs).len() as int)[enc0.len() + i]
                    == bs[pos + (enc0.len() + i)]);
            }
        }
        lemma_values_dec_of_encoding::<T>(bs, pos2, restvs);
        assert(Seq::<T>::empty().push(x) + restvs =~= vs);
    }
}

/// Decoding what the sparse encoder produced recovers the rank index's
/// fields and every stored value: the sparse byte format loses nothing.
pub proof fn lemma_sparse_dec_of_encoding<T: ValueCodec>(sa: SparseArray<T>)
    requires
        sa.wf(),
    ensures
        sparse_dec::<T>(sparse_encoding(sa)) is Some,
        ({
            let p = sparse_dec::<T>(sparse_encoding(sa)).unwrap();
            &&& p.1 == sa.spec_values()
            &&& p.0.n == sa.spec_rank().store@.len()
            &&& p.0.store_words == sa.spec_rank().store.word_seq()
            &&& p.0.sb_count == sa.spec_rank().superblocks@.len()
            &&& p.0.sb_width == sa.spec_rank().superblocks.spec_width()
            &&& p.0.sb_words == sa.spec_rank().superblocks.spec_data().word_seq()
            &&& p.0.blk_count == sa.spec_rank().blocks@.len()
            &&& p.0.blk_width == sa.spec_rank().blocks.spec_width()
            &&& p.0.blk_words == sa.spec_rank().blocks.spec_data().word_seq()
            &&& p.0.s == sa.spec_rank().s
            &&& p.0.b == sa.spec_rank().b
        }),
{
    let bs = sparse_encoding(sa);
    let rk = sa.spec_rank();
    let renc = rank_encoding(rk);
    let bl = renc.len() as int;
    let vals = sa.spec_values();
    let venc = values_encoding(vals);
    let cnt = vals.len() as nat;
    crate::serial::lemma_p256_u64();
    crate::serial::lemma_rank_encoding_len(rk);
    rk.store.lemma_len_fits();
    lemma_ones_bounds(rk@, 0, rk@.len() as int);
    assert(vals.len() <= rk@.len());
    assert(bs.subrange(0, bs.len() as int) =~= le_bytes(bl as nat, 8) + (renc + (le_bytes(
        cnt,
        8,
    ) + venc)));
    crate::serial::lemma_peel(bs, 0, le_bytes(bl as nat, 8), renc + (le_bytes(cnt, 8) + venc));
    crate::serial::lemma_le_value_of_bytes(bl as nat, 8);
    crate::serial::lemma_peel(bs, 8, renc, le_bytes(cnt, 8) + venc);
    crate::serial::lemma_rank_dec_of_encoding(rk);
    assert(bs.subrange(8, 8 + bl) == renc);
    crate::serial::lemma_peel(bs, 8 + bl, le_bytes(cnt, 8), venc);
    crate::serial::lemma_le_value_of_bytes(cnt, 8);
    lemma_values_dec_of_encoding::<T>(bs, 16 + bl, vals);
}

/// Round-trip law for the sparse array: an array reconstructed from the
/// byte form of `orig` (value for value and rank field for rank field, as
/// `from_bytes` ensures) is fully well formed and presents the same dense
/// logical array.
pub proof fn lemma_sparse_round_trip<T: ValueCodec>(orig: SparseArray<T>, loaded: SparseArray<T>)
    requires
        orig.wf(),
        loaded.spec_rank().wf_structural(),
        sparse_dec::<T>(sparse_encoding(orig)) is Some,
        ({
            let p = sparse_dec::<T>(sparse_encoding(orig)).unwrap();
            &&& loaded.spec_values() == p.1
            &&& loaded.spec_rank().store@.len() == p.0.n
            &&& loaded.spec_rank().store.word_seq() == p.0.store_words
            &&& loaded.spec_rank().superblocks@.len() == p.0.sb_count
            &&& loaded.spec_rank().superblocks.spec_width() == p.0.sb_width
            &&& loaded.spec_rank().superblocks.spec_data().word_seq() == p.0.sb_words
            &&& loaded.spec_rank().blocks@.len() == p.0.blk_count
            &&& loaded.spec_rank().blocks.spec_width() == p.0.blk_width
            &&& loaded.spec_rank().blocks.spec_data().word_seq() == p.0.blk_words
            &&& loaded.spec_rank().s == p.0.s
            &&& loaded.spec_rank().b == p.0.b
        }),
    ensures
        loaded.wf(),
        loaded@ == orig@,
        loaded.spec_bits() == orig.spec_bits(),
        loaded.spec_values() == orig.spec_values(),
{
    lemma_sparse_dec_of_encoding::<T>(orig);
    crate::serial::lemma_rank_restored(orig.spec_rank(), loaded.spec_rank());
    assert(loaded.spec_bits() == orig.spec_bits());
    assert(loaded.wf());
}

/// A range with no set bits counts zero ones.
proof fn lemma_ones_all_zero(s: Seq<bool>, i: int, j: int)
    requires
        forall|p: int| i <= p < j ==> !s[p],
    ensures
        ones(s, i, j) == 0,
    decreases j - i,
{
    if i < j {
        lemma_ones_all_zero(s, i, j - 1);
    }
}

} // verus!
