//! The persisted byte format: little-endian, no alignment padding.  A bit
//! store is its bit length (`u64`) followed by its words; a packed vector is
//! its value count and bit width (both `u64`) followed by its words; a rank
//! index is store, superblock table, block table, `s` (`u16`) and `b` (`u8`)
//! in that order.

use vstd::prelude::*;

verus! {

use vstd::arithmetic::power2::{pow2, lemma_pow2_adds, lemma_pow2_pos, lemma2_to64, lemma2_to64_rest};
use vstd::arithmetic::div_mod::{lemma_fundamental_div_mod, lemma_div_denominator};

/// `256^e`, the weight of byte `e` in a little-endian number.
pub open spec fn p256(e: nat) -> nat {
    pow2(8 * e)
}

/// The `k` little-endian bytes of `x`.
pub open spec fn le_bytes(x: nat, k: nat) -> Seq<u8> {
    Seq::new(k, |i: int| ((x / p256(i as nat)) % 256) as u8)
}

/// The number a little-endian byte string denotes.
pub open spec fn le_value(bs: Seq<u8>) -> nat
    decreases bs.len(),
{
    if bs.len() == 0 {
        0
    } else {
        bs[0] as nat + 256 * le_value(bs.subrange(1, bs.len() as int))
    }
}

/// A `k`-byte string denotes a value below `256^k`.
pub proof fn lemma_le_value_bound(bs: Seq<u8>)
    ensures
        le_value(bs) < p256(bs.len()),
    decreases bs.len(),
{
    if bs.len() == 0 {
        lemma2_to64();
    } else {
        lemma_le_value_bound(bs.subrange(1, bs.len() as int));
        lemma_pow2_adds(8, 8 * (bs.len() - 1) as nat);
        lemma2_to64();
        assert(p256(bs.len()) == 256 * p256((bs.len() - 1) as nat));
    }
}

/// Appending a byte adds it at the next weight.
pub proof fn lemma_le_value_snoc(bs: Seq<u8>, b: u8)
    ensures
        le_value(bs.push(b)) == le_value(bs) + b * p256(bs.len()),
    decreases bs.len(),
{
    let ext = bs.push(b);
    if bs.len() == 0 {
        lemma2_to64();
        assert(ext.subrange(1, 1) =~= Seq::<u8>::empty());
        assert(le_value(ext.subrange(1, 1)) == 0);
        assert(p256(0) == 1);
        assert(b * p256(0) == b) by (nonlinear_arith)
            requires
                p256(0) == 1,
        ;
    } else {
        assert(ext.subrange(1, ext.len() as int) =~= bs.subrange(1, bs.len() as int).push(b));
        lemma_le_value_snoc(bs.subrange(1, bs.len() as int), b);
        lemma_pow2_adds(8, 8 * (bs.len() - 1) as nat);
        lemma2_to64();
        assert(p256(bs.len()) == 256 * p256((bs.len() - 1) as nat));
        assert(256 * (le_value(bs.subrange(1, bs.len() as int)) + b * p256(
            (bs.len() - 1) as nat,
        )) == 256 * le_value(bs.subrange(1, bs.len() as int)) + b * (256 * p256(
            (bs.len() - 1) as nat,
        ))) by (nonlinear_arith);
    }
}

/// Reading back the little-endian bytes of `x < 256^k` yields `x`.
pub proof fn lemma_le_value_of_bytes(x: nat, k: nat)
    requires
        x < p256(k),
    ensures
        le_value(le_bytes(x, k)) == x,
    decreases k,
{
    if k == 0 {
        lemma2_to64();
    } else {
        let bs = le_bytes(x, k);
        let half = x / 256;
        lemma_pow2_adds(8, 8 * (k - 1) as nat);
        lemma2_to64();
        assert(p256(k) == 256 * p256((k - 1) as nat));
        assert(half < p256((k - 1) as nat)) by (nonlinear_arith)
            requires
                x < 256 * p256((k - 1) as nat),
                half == x / 256,
                x >= 0,
        ;
        assert(bs.subrange(1, k as int) =~= le_bytes(half, (k - 1) as nat)) by {
            assert forall|i: int| 0 <= i < k - 1 implies bs.subrange(1, k as int)[i] == le_bytes(
                half,
                (k - 1) as nat,
            )[i] by {
                assert(bs.subrange(1, k as int)[i] == bs[i + 1]);
                lemma_pow2_adds(8, 8 * i as nat);
                lemma2_to64();
                lemma_pow2_pos(8 * i as nat);
                lemma_div_denominator(x as int, 256, p256(i as nat) as int);
                assert(p256((i + 1) as nat) == 256 * p256(i as nat));
                assert(x / p256((i + 1) as nat) == half / p256(i as nat));
            }
        }
        lemma_le_value_of_bytes(half, (k - 1) as nat);
        assert(bs[0] == (x / p256(0)) % 256);
        assert(p256(0) == 1) by {
            lemma2_to64();
        }
        vstd::arithmetic::div_mod::lemma_div_basics(x as int);
        assert(bs[0] == x % 256);
        lemma_fundamental_div_mod(x as int, 256);
    }
}

/// The words of `ws`, each as eight little-endian bytes, in order.
pub open spec fn words_bytes(ws: Seq<u64>) -> Seq<u8>
    decreases ws.len(),
{
    if ws.len() == 0 {
        Seq::empty()
    } else {
        words_bytes(ws.drop_last()) + le_bytes(ws.last() as nat, 8)
    }
}

/// Word encodings occupy eight bytes apiece.
pub proof fn lemma_words_bytes_len(ws: Seq<u64>)
    ensures
        words_bytes(ws).len() == 8 * ws.len(),
    decreases ws.len(),
{
    if ws.len() > 0 {
        lemma_words_bytes_len(ws.drop_last());
    }
}

/// Word `i` occupies bytes `[8i, 8i + 8)` of the word encoding.
pub proof fn lemma_words_bytes_index(ws: Seq<u64>, i: int)
    requires
        0 <= i < ws.len(),
    ensures
        words_bytes(ws).subrange(8 * i, 8 * i + 8) == le_bytes(ws[i] as nat, 8),
    decreases ws.len(),
{
    lemma_words_bytes_len(ws);
    lemma_words_bytes_len(ws.drop_last());
    if i == ws.len() - 1 {
        assert(words_bytes(ws).subrange(8 * i, 8 * i + 8) =~= le_bytes(ws[i] as nat, 8));
    } else {
        lemma_words_bytes_index(ws.drop_last(), i);
        assert(words_bytes(ws).subrange(8 * i, 8 * i + 8) =~= words_bytes(
            ws.drop_last(),
        ).subrange(8 * i, 8 * i + 8));
    }
}

/// `p256` is positive and fits the familiar values for small exponents.
pub(crate) proof fn lemma_p256_u64()
    ensures
        p256(0) == 1,
        p256(1) == 0x100,
        p256(2) == 0x10000,
        p256(7) == 0x100_0000_0000_0000,
        p256(8) == 0x1_0000_0000_0000_0000,
{
    lemma2_to64();
    lemma2_to64_rest();
    lemma_pow2_adds(8, 48);
    lemma_pow2_adds(8, 56);
}

/// Every `u64` fits under `p256(8)`.
pub proof fn lemma_p256_fits_u64()
    ensures
        p256(8) == 0x1_0000_0000_0000_0000,
{
    lemma_p256_u64();
}

/// Append the `k` little-endian bytes of `x`.
pub fn push_le_bytes(out: &mut Vec<u8>, x: u64, k: u64)
    requires
        k <= 8,
        x < p256(k as nat),
    ensures
        final(out)@ == old(out)@ + le_bytes(x as nat, k as nat),
{
    let ghost base = out@;
    let mut v = x;
    let mut j: u64 = 0;
    proof {
        lemma_p256_u64();
        vstd::arithmetic::div_mod::lemma_div_basics(x as int);
        assert(le_bytes(x as nat, k as nat).take(0) =~= base.take(0));
        assert(out@ =~= base + le_bytes(x as nat, k as nat).take(0));
    }
    while j < k
        invariant
            j <= k <= 8,
            v == x as nat / p256(j as nat),
            out@ == base + le_bytes(x as nat, k as nat).take(j as int),
        decreases k - j,
    {
        out.push((v % 256) as u8);
        proof {
            lemma_pow2_adds(8, 8 * j as nat);
            lemma2_to64();
            lemma_pow2_pos(8 * j as nat);
            lemma_div_denominator(x as int, p256(j as nat) as int, 256);
            assert(p256((j + 1) as nat) == p256(j as nat) * 256);
            assert((x as nat / p256(j as nat)) / 256 == x as nat / p256((j + 1) as nat));
            assert(out@ =~= base + le_bytes(x as nat, k as nat).take(j + 1));
        }
        v = v / 256;
        j = j + 1;
    }
    proof {
        assert(le_bytes(x as nat, k as nat).take(k as int) =~= le_bytes(x as nat, k as nat));
    }
}

/// Read the value of the `k` little-endian bytes at `pos`.
pub fn read_le_bytes(bytes: &[u8], pos: usize, k: usize) -> (r: u64)
    requires
        k <= 8,
        pos + k <= bytes@.len(),
    ensures
        r == le_value(bytes@.subrange(pos as int, pos as int + k as int)),
{
    let blen = bytes.len();
    let mut acc: u64 = 0;
    let mut j: usize = 0;
    proof {
        lemma_p256_u64();
        assert(bytes@.subrange(pos as int, pos as int) =~= Seq::<u8>::empty());
        assert(le_value(bytes@.subrange(pos as int, pos as int)) == 0);
    }
    while j < k
        invariant
            j <= k <= 8,
            pos + k <= blen,
            blen == bytes@.len(),
            acc == le_value(bytes@.subrange(pos as int, pos as int + j as int)),
            acc < p256(j as nat),
        decreases k - j,
    {
        let b = bytes[pos + j];
        proof {
            lemma_p256_u64();
            lemma_pow2_pos(8 * j as nat);
            lemma_pow2_adds(8, 8 * j as nat);
            assert(p256((j + 1) as nat) == 256 * p256(j as nat));
            if j < 7 {
                vstd::arithmetic::power2::lemma_pow2_strictly_increases(8 * j as nat, 56);
            }
            assert(p256(j as nat) <= p256(7));
            if j + 1 < 8 {
                vstd::arithmetic::power2::lemma_pow2_strictly_increases(8 * (j + 1) as nat, 64);
            }
            assert(p256((j + 1) as nat) <= p256(8));
            assert(b * p256(j as nat) <= 255 * p256(7)) by (nonlinear_arith)
                requires
                    0 <= b <= 255,
                    0 <= p256(j as nat) <= p256(7),
            ;
            let prefix = bytes@.subrange(pos as int, pos as int + j as int);
            assert(bytes@.subrange(pos as int, pos as int + j + 1) =~= prefix.push(b));
            lemma_le_value_snoc(prefix, b);
            assert(acc + b * p256(j as nat) < p256((j + 1) as nat)) by (nonlinear_arith)
                requires
                    acc < p256(j as nat),
                    0 <= b <= 255,
                    p256((j + 1) as nat) == 256 * p256(j as nat),
                    p256(j as nat) >= 1,
            ;
        }
        let w = crate::math::two_pow(8 * (j as u64));
        acc = acc + (b as u64) * w;
        j = j + 1;
    }
    acc
}

use crate::bits::BitStore;
use crate::packed::PackedIntVector;
use crate::rank_support::{RankSupport, MAX_BITS};

/// Corrupted or truncated persisted bytes.
#[derive(Debug, Clone, Copy, PartialEq, Eq, Structural)]
pub struct DecodeError;

/// Byte form of a bit store: bit length, then the backing words.
pub open spec fn store_encoding(st: BitStore) -> Seq<u8> {
    le_bytes(st@.len() as nat, 8) + words_bytes(st.word_seq())
}

/// Byte form of a packed vector: value count, bit width, then the backing
/// words.
pub open spec fn packed_encoding(pv: PackedIntVector) -> Seq<u8> {
    le_bytes(pv@.len() as nat, 8) + (le_bytes(pv.spec_width() as nat, 8) + words_bytes(
        pv.spec_data().word_seq(),
    ))
}

/// Byte form of a rank index: store, superblock table, block table, `s`,
/// `b`.
pub open spec fn rank_encoding(rk: RankSupport) -> Seq<u8> {
    store_encoding(rk.store) + (packed_encoding(rk.superblocks) + (packed_encoding(rk.blocks) + (
    le_bytes(rk.s as nat, 2) + le_bytes(rk.b as nat, 1))))
}

/// Append every backing word of `st`, eight bytes each.
fn write_words(st: &BitStore, out: &mut Vec<u8>)
    ensures
        final(out)@ == old(out)@ + words_bytes(st.word_seq()),
{
    let ghost base = out@;
    let ghost ws = st.word_seq();
    let wc = st.num_words();
    let mut i: usize = 0;
    proof {
        assert(ws.take(0) =~= Seq::<u64>::empty());
        assert(out@ =~= base + words_bytes(ws.take(0)));
    }
    while i < wc
        invariant
            i <= wc,
            wc == ws.len(),
            ws == st.word_seq(),
            out@ == base + words_bytes(ws.take(i as int)),
        decreases wc - i,
    {
        let w = st.word_at(i);
        proof {
            lemma_p256_u64();
        }
        push_le_bytes(out, w, 8);
        proof {
            assert(ws.take(i + 1).drop_last() =~= ws.take(i as int));
            assert(ws.take(i + 1).last() == ws[i as int]);
            assert(words_bytes(ws.take(i + 1)) == words_bytes(ws.take(i as int)) + le_bytes(
                ws[i as int] as nat,
                8,
            ));
            assert(out@ =~= base + words_bytes(ws.take(i + 1)));
        }
        i = i + 1;
    }
    proof {
        assert(ws.take(ws.len() as int) =~= ws);
    }
}

/// Append the byte form of a bit store.
fn write_store(st: &BitStore, out: &mut Vec<u8>)
    ensures
        final(out)@ == old(out)@ + store_encoding(*st),
{
    proof {
        lemma_p256_u64();
    }
    let n = st.len();
    push_le_bytes(out, n, 8);
    write_words(st, out);
    proof {
        assert(final(out)@ =~= old(out)@ + store_encoding(*st));
    }
}

/// Append the byte form of a packed vector.
fn write_packed(pv: &PackedIntVector, out: &mut Vec<u8>)
    requires
        pv.wf(),
    ensures
        final(out)@ == old(out)@ + packed_encoding(*pv),
{
    proof {
        lemma_p256_u64();
    }
    let count = pv.len();
    push_le_bytes(out, count, 8);
    let width = pv.width();
    push_le_bytes(out, width, 8);
    write_words(pv.data(), out);
    proof {
        assert(final(out)@ =~= old(out)@ + packed_encoding(*pv));
    }
}

impl RankSupport {
    /// The rank index as its persisted byte form.
    pub fn to_bytes(&self) -> (r: Vec<u8>)
        requires
            self.wf_structural(),
        ensures
            r@ == rank_encoding(*self),
    {
        let mut out: Vec<u8> = Vec::new();
        write_store(&self.store, &mut out);
        write_packed(&self.superblocks, &mut out);
        write_packed(&self.blocks, &mut out);
        proof {
            lemma_p256_u64();
        }
        push_le_bytes(&mut out, self.s as u64, 2);
        push_le_bytes(&mut out, self.b as u64, 1);
        proof {
            assert(out@ =~= rank_encoding(*self));
        }
        out
    }

    /// Consuming variant of [`RankSupport::to_bytes`].
    pub fn into_bytes(self) -> (r: Vec<u8>)
        requires
            self.wf_structural(),
        ensures
            r@ == rank_encoding(self),
    {
        self.to_bytes()
    }
}

/// The words at byte offset `off`: `wc` of them, little-endian.
pub open spec fn words_at(bs: Seq<u8>, off: int, wc: int) -> Seq<u64> {
    Seq::new(wc as nat, |i: int| le_value(bs.subrange(off + 8 * i, off + 8 * i + 8)) as u64)
}

/// What a rank-index byte string parses into.
pub ghost struct RankParse {
    pub n: u64,
    pub store_words: Seq<u64>,
    pub sb_count: u64,
    pub sb_width: u64,
    pub sb_words: Seq<u64>,
    pub blk_count: u64,
    pub blk_width: u64,
    pub blk_words: Seq<u64>,
    pub s: u16,
    pub b: u8,
}

/// Parse of a rank-index byte string: the unique successful reading, or
/// `None` for bytes that no structurally well-formed index serialises to.
pub open spec fn rank_dec(bs: Seq<u8>) -> Option<RankParse> {
    if bs.len() < 8 {
        None
    } else {
        let n = le_value(bs.subrange(0, 8));
        let wc = (n + 63) as int / 64;
        let p1 = 8 + 8 * wc;
        if n > MAX_BITS || bs.len() < p1 + 16 {
            None
        } else {
            let sb_count = le_value(bs.subrange(p1, p1 + 8));
            let sb_width = le_value(bs.subrange(p1 + 8, p1 + 16));
            if !(1 <= sb_width <= 64) || sb_count * sb_width > u64::MAX {
                None
            } else {
                let sb_wc = (sb_count * sb_width + 63) as int / 64;
                let p2 = p1 + 16 + 8 * sb_wc;
                if bs.len() < p2 + 16 {
                    None
                } else {
                    let blk_count = le_value(bs.subrange(p2, p2 + 8));
                    let blk_width = le_value(bs.subrange(p2 + 8, p2 + 16));
                    if !(1 <= blk_width <= 64) || blk_count * blk_width > u64::MAX {
                        None
                    } else {
                        let blk_wc = (blk_count * blk_width + 63) as int / 64;
                        let p3 = p2 + 16 + 8 * blk_wc;
                        if bs.len() != p3 + 3 {
                            None
                        } else {
                            let s_val = le_value(bs.subrange(p3, p3 + 2));
                            let b_val = le_value(bs.subrange(p3 + 2, p3 + 3));
                            if !(1 <= b_val <= 64) || s_val < b_val || s_val % b_val != 0
                                || sb_count != n / s_val + 1 || blk_count != (s_val as int
                                / b_val as int) * (n as int / s_val as int + 1) {
                                None
                            } else {
                                Some(
                                    RankParse {
                                        n: n as u64,
                                        store_words: words_at(bs, 8, wc),
                                        sb_count: sb_count as u64,
                                        sb_width: sb_width as u64,
                                        sb_words: words_at(bs, p1 + 16, sb_wc),
                                        blk_count: blk_count as u64,
                                        blk_width: blk_width as u64,
                                        blk_words: words_at(bs, p2 + 16, blk_wc),
                                        s: s_val as u16,
                                        b: b_val as u8,
                                    },
                                )
                            }
                        }
                    }
                }
            }
        }
    }
}

/// Read `count` consecutive little-endian words.
fn read_words(bytes: &[u8], off: u64, count: u64) -> (r: Vec<u64>)
    requires
        off + 8 * count <= bytes@.len(),
    ensures
        r@ == words_at(bytes@, off as int, count as int),
{
    let blen = bytes.len();
    let mut out: Vec<u64> = Vec::new();
    let mut i: u64 = 0;
    while i < count
        invariant
            i <= count,
            off + 8 * count <= blen,
            blen == bytes@.len(),
            out@.len() == i,
            forall|q: int|
                0 <= q < i ==> out@[q] == words_at(bytes@, off as int, count as int)[q],
        decreases count - i,
    {
        let w = read_le_bytes(bytes, (off + 8 * i) as usize, 8);
        proof {
            lemma_le_value_bound(
                bytes@.subrange(off + 8 * i as int, off + 8 * i as int + 8),
            );
            lemma_p256_u64();
        }
        out.push(w);
        i = i + 1;
    }
    proof {
        assert(out@ =~= words_at(bytes@, off as int, count as int));
    }
    out
}

impl RankSupport {
    /// Reconstruct a rank index from its persisted byte form.  Succeeds
    /// exactly when the bytes parse as [`rank_dec`] describes; the result's
    /// fields are the parsed components.
    pub fn from_bytes(bytes: &[u8]) -> (r: Result<RankSupport, DecodeError>)
        ensures
            r is Ok <==> rank_dec(bytes@) is Some,
            r matches Ok(rk) ==> {
                let p = rank_dec(bytes@).unwrap();
                &&& rk.wf_structural()
                &&& rk.store@.len() == p.n
                &&& rk.store.word_seq() == p.store_words
                &&& rk.superblocks@.len() == p.sb_count
                &&& rk.superblocks.spec_width() == p.sb_width
                &&& rk.superblocks.spec_data().word_seq() == p.sb_words
                &&& rk.blocks@.len() == p.blk_count
                &&& rk.blocks.spec_width() == p.blk_width
                &&& rk.blocks.spec_data().word_seq() == p.blk_words
                &&& rk.s == p.s
                &&& rk.b == p.b
            },
    {
        let blen = bytes.len() as u64;
        proof {
            lemma_p256_u64();
        }
        if blen < 8 {
            return Err(DecodeError);
        }
        let n = read_le_bytes(bytes, 0, 8);
        proof {
            lemma_le_value_bound(bytes@.subrange(0, 8));
        }
        if n > MAX_BITS {
            return Err(DecodeError);
        }
        let wc = crate::math::ceil_div(n, 64);
        let p1 = 8 + 8 * wc;
        if blen < p1 + 16 {
            return Err(DecodeError);
        }
        let store_words = read_words(bytes, 8, wc);
        let sb_count = read_le_bytes(bytes, p1 as usize, 8);
        let sb_width = read_le_bytes(bytes, (p1 + 8) as usize, 8);
        proof {
            lemma_le_value_bound(bytes@.subrange(p1 as int, p1 + 8));
            lemma_le_value_bound(bytes@.subrange(p1 + 8, p1 + 16));
        }
        if sb_width < 1 || sb_width > 64 {
            return Err(DecodeError);
        }
        if sb_count > u64::MAX / sb_width {
            proof {
                crate::packed::lemma_mul_div_bound(
                    sb_count as int,
                    sb_width as int,
                    u64::MAX as int,
                );
            }
            return Err(DecodeError);
        }
        proof {
            crate::packed::lemma_mul_div_le(sb_count as int, sb_width as int, u64::MAX as int);
        }
        let sb_bits = sb_count * sb_width;
        let sb_wc = crate::math::ceil_div(sb_bits, 64);
        let p2 = p1 + 16 + 8 * sb_wc;
        if blen < p2 + 16 {
            return Err(DecodeError);
        }
        let sb_words = read_words(bytes, p1 + 16, sb_wc);
        let blk_count = read_le_bytes(bytes, p2 as usize, 8);
        let blk_width = read_le_bytes(bytes, (p2 + 8) as usize, 8);
        proof {
            lemma_le_value_bound(bytes@.subrange(p2 as int, p2 + 8));
            lemma_le_value_bound(bytes@.subrange(p2 + 8, p2 + 16));
        }
        if blk_width < 1 || blk_width > 64 {
            return Err(DecodeError);
        }
        if blk_count > u64::MAX / blk_width {
            proof {
                crate::packed::lemma_mul_div_bound(
                    blk_count as int,
                    blk_width as int,
                    u64::MAX as int,
                );
            }
            return Err(DecodeError);
        }
        proof {
            crate::packed::lemma_mul_div_le(blk_count as int, blk_width as int, u64::MAX as int);
        }
        let blk_bits = blk_count * blk_width;
        let blk_wc = crate::math::ceil_div(blk_bits, 64);
        let p3 = p2 + 16 + 8 * blk_wc;
        if blen != p3 + 3 {
            return Err(DecodeError);
        }
        let blk_words = read_words(bytes, p2 + 16, blk_wc);
        let s_val = read_le_bytes(bytes, p3 as usize, 2);
        let b_val = read_le_bytes(bytes, (p3 + 2) as usize, 1);
        proof {
            lemma_le_value_bound(bytes@.subrange(p3 as int, p3 + 2));
            lemma_le_value_bound(bytes@.subrange(p3 + 2, p3 + 3));
        }
        if b_val < 1 || b_val > 64 || s_val < b_val || s_val % b_val != 0 {
            return Err(DecodeError);
        }
        proof {
            vstd::arithmetic::div_mod::lemma_div_non_zero(s_val as int, b_val as int);
        }
        let bps = s_val / b_val;
        let q = n / s_val + 1;
        if sb_count != q {
            return Err(DecodeError);
        }
        if q > u64::MAX / bps {
            proof {
                crate::packed::lemma_mul_div_bound(q as int, bps as int, u64::MAX as int);
                assert((bps as int) * (q as int) == (q as int) * (bps as int)) by (
                nonlinear_arith);
            }
            return Err(DecodeError);
        }
        proof {
            crate::packed::lemma_mul_div_le(q as int, bps as int, u64::MAX as int);
        }
        if blk_count != bps * q {
            return Err(DecodeError);
        }
        let store = match BitStore::from_words(store_words, n) {
            Some(st) => st,
            None => {
                return Err(DecodeError);
            },
        };
        let sb_store = match BitStore::from_words(sb_words, sb_bits) {
            Some(st) => st,
            None => {
                return Err(DecodeError);
            },
        };
        let superblocks = match PackedIntVector::from_parts(sb_store, sb_width, sb_count) {
            Some(pv) => pv,
            None => {
                return Err(DecodeError);
            },
        };
        let blk_store = match BitStore::from_words(blk_words, blk_bits) {
            Some(st) => st,
            None => {
                return Err(DecodeError);
            },
        };
        let blocks = match PackedIntVector::from_parts(blk_store, blk_width, blk_count) {
            Some(pv) => pv,
            None => {
                return Err(DecodeError);
            },
        };
        let rk = RankSupport { store, superblocks, blocks, s: s_val as u16, b: b_val as u8 };
        proof {
            lemma_blocks_len_bound(n as int, s_val as int, b_val as int);
            assert(rk.wf_structural());
            assert(rank_dec(bytes@) is Some);
            let p = rank_dec(bytes@).unwrap();
            assert(rk.store.word_seq() =~= p.store_words);
            assert(rk.superblocks.spec_data().word_seq() =~= p.sb_words);
            assert(rk.blocks.spec_data().word_seq() =~= p.blk_words);
        }
        Ok(rk)
    }
}

/// The block-table length formula stays within `n + s`.
proof fn lemma_blocks_len_bound(n: int, s: int, b: int)
    requires
        1 <= b,
        b <= s,
        s % b == 0,
        n >= 0,
    ensures
        (s / b) * (n / s + 1) <= n + s,
{
    let bps = s / b;
    vstd::arithmetic::div_mod::lemma_div_non_zero(s, b);
    lemma_fundamental_div_mod(s, b);
    assert(s == b * bps);
    vstd::arithmetic::div_mod::lemma_div_pos_is_pos(n, s);
    lemma_div_denominator(n, b, bps);
    assert(n / s == (n / b) / bps);
    lemma_fundamental_div_mod(n / b, bps);
    assert(bps * (n / s) <= n / b);
    vstd::arithmetic::div_mod::lemma_div_nonincreasing(n, b);
    vstd::arithmetic::div_mod::lemma_div_nonincreasing(s, b);
    assert(bps * (n / s + 1) == bps * (n / s) + bps) by (nonlinear_arith);
    assert(bps * (n / s + 1) == (n / s + 1) * bps) by (nonlinear_arith);
}

/// Splitting a byte string at a known concatenation.
pub(crate) proof fn lemma_peel(bs: Seq<u8>, off: int, x: Seq<u8>, rest: Seq<u8>)
    requires
        0 <= off <= bs.len(),
        bs.subrange(off, bs.len() as int) == x + rest,
    ensures
        off + x.len() + rest.len() == bs.len(),
        bs.subrange(off, off + x.len()) == x,
        bs.subrange(off + x.len(), bs.len() as int) == rest,
{
    assert(bs.subrange(off, bs.len() as int).len() == x.len() + rest.len());
    assert(bs.subrange(off, off + x.len()) =~= x) by {
        assert forall|i: int| 0 <= i < x.len() implies bs.subrange(off, off + x.len())[i] == x[i]
            by {
            assert(bs.subrange(off, bs.len() as int)[i] == (x + rest)[i]);
        }
    }
    assert(bs.subrange(off + x.len(), bs.len() as int) =~= rest) by {
        assert forall|i: int| 0 <= i < rest.len() implies bs.subrange(
            off + x.len(),
            bs.len() as int,
        )[i] == rest[i] by {
            assert(bs.subrange(off, bs.len() as int)[x.len() + i] == (x + rest)[x.len() + i]);
            assert(bs.subrange(off + x.len(), bs.len() as int)[i] == bs[off + x.len() + i]);
            assert(bs.subrange(off, bs.len() as int)[x.len() + i] == bs[off + (x.len() + i)]);
        }
    }
}

/// Bytes carrying `words_bytes(ws)` read back as `ws`.
proof fn lemma_words_at_of_words_bytes(bs: Seq<u8>, off: int, ws: Seq<u64>)
    requires
        0 <= off,
        off + 8 * ws.len() <= bs.len(),
        bs.subrange(off, off + 8 * ws.len()) == words_bytes(ws),
    ensures
        words_at(bs, off, ws.len() as int) == ws,
{
    lemma_words_bytes_len(ws);
    lemma_p256_u64();
    assert(words_at(bs, off, ws.len() as int) =~= ws) by {
        assert forall|i: int| 0 <= i < ws.len() implies words_at(bs, off, ws.len() as int)[i]
            == ws[i] by {
            lemma_words_bytes_index(ws, i);
            assert(bs.subrange(off + 8 * i, off + 8 * i + 8) =~= words_bytes(ws).subrange(
                8 * i,
                8 * i + 8,
            )) by {
                assert forall|t: int| 0 <= t < 8 implies #[trigger] bs.subrange(
                    off + 8 * i,
                    off + 8 * i + 8,
                )[t] == words_bytes(ws).subrange(8 * i, 8 * i + 8)[t] by {
                    assert(bs.subrange(off, off + 8 * ws.len())[8 * i + t] == words_bytes(
                        ws,
                    )[8 * i + t]);
                }
            }
            lemma_le_value_of_bytes(ws[i] as nat, 8);
        }
    }
}

/// Decoding what the encoder produced recovers every field of a
/// structurally well-formed rank index: the byte format loses nothing.
#[verifier::rlimit(100)]
pub proof fn lemma_rank_dec_of_encoding(rk: RankSupport)
    requires
        rk.wf_structural(),
    ensures
        rank_dec(rank_encoding(rk)) is Some,
        ({
            let p = rank_dec(rank_encoding(rk)).unwrap();
            &&& p.n == rk.store@.len()
            &&& p.store_words == rk.store.word_seq()
            &&& p.sb_count == rk.superblocks@.len()
            &&& p.sb_width == rk.superblocks.spec_width()
            &&& p.sb_words == rk.superblocks.spec_data().word_seq()
            &&& p.blk_count == rk.blocks@.len()
            &&& p.blk_width == rk.blocks.spec_width()
            &&& p.blk_words == rk.blocks.spec_data().word_seq()
            &&& p.s == rk.s
            &&& p.b == rk.b
        }),
{
    let bs = rank_encoding(rk);
    lemma_p256_u64();
    let n = rk.store@.len() as nat;
    let sws = rk.store.word_seq();
    let sbc = rk.superblocks@.len() as nat;
    let sbw = rk.superblocks.spec_width() as nat;
    let sbws = rk.superblocks.spec_data().word_seq();
    let blc = rk.blocks@.len() as nat;
    let blw = rk.blocks.spec_width() as nat;
    let blws = rk.blocks.spec_data().word_seq();

    rk.store.lemma_wf_words();
    rk.store.lemma_len_fits();
    rk.superblocks.lemma_wf_width();
    rk.blocks.lemma_wf_width();
    rk.superblocks.lemma_data_shape();
    rk.blocks.lemma_data_shape();
    rk.superblocks.spec_data().lemma_wf_words();
    rk.blocks.spec_data().lemma_wf_words();
    rk.superblocks.spec_data().lemma_len_fits();
    rk.blocks.spec_data().lemma_len_fits();
    lemma_words_bytes_len(sws);
    lemma_words_bytes_len(sbws);
    lemma_words_bytes_len(blws);

    let wc = (n + 63) as int / 64;
    assert(sws.len() == wc);
    let sb_bits = rk.superblocks.spec_data()@.len() as nat;
    let sb_wc = (sb_bits + 63) as int / 64;
    assert(sbws.len() == sb_wc);
    let blk_bits = rk.blocks.spec_data()@.len() as nat;
    let blk_wc = (blk_bits + 63) as int / 64;
    assert(blws.len() == blk_wc);
    assert(sb_bits == sbc * sbw);
    assert(blk_bits == blc * blw);

    // peel the store header and words
    let r1 = packed_encoding(rk.superblocks) + (packed_encoding(rk.blocks) + (le_bytes(
        rk.s as nat,
        2,
    ) + le_bytes(rk.b as nat, 1)));
    assert(bs.subrange(0, bs.len() as int) =~= le_bytes(n, 8) + (words_bytes(sws) + r1));
    lemma_peel(bs, 0, le_bytes(n, 8), words_bytes(sws) + r1);
    lemma_le_value_of_bytes(n, 8);
    assert(le_value(bs.subrange(0, 8)) == n);
    lemma_peel(bs, 8, words_bytes(sws), r1);
    lemma_words_at_of_words_bytes(bs, 8, sws);
    let p1 = 8 + 8 * wc;

    // peel the superblock table
    let r2 = packed_encoding(rk.blocks) + (le_bytes(rk.s as nat, 2) + le_bytes(rk.b as nat, 1));
    assert(bs.subrange(p1, bs.len() as int) =~= le_bytes(sbc, 8) + (le_bytes(sbw, 8) + (
    words_bytes(sbws) + r2)));
    lemma_peel(bs, p1, le_bytes(sbc, 8), le_bytes(sbw, 8) + (words_bytes(sbws) + r2));
    lemma_le_value_of_bytes(sbc, 8);
    lemma_peel(bs, p1 + 8, le_bytes(sbw, 8), words_bytes(sbws) + r2);
    lemma_le_value_of_bytes(sbw, 8);
    lemma_peel(bs, p1 + 16, words_bytes(sbws), r2);
    lemma_words_at_of_words_bytes(bs, p1 + 16, sbws);
    let p2 = p1 + 16 + 8 * sb_wc;

    // peel the block table
    let r3 = le_bytes(rk.s as nat, 2) + le_bytes(rk.b as nat, 1);
    assert(bs.subrange(p2, bs.len() as int) =~= le_bytes(blc, 8) + (le_bytes(blw, 8) + (
    words_bytes(blws) + r3)));
    lemma_peel(bs, p2, le_bytes(blc, 8), le_bytes(blw, 8) + (words_bytes(blws) + r3));
    lemma_le_value_of_bytes(blc, 8);
    lemma_peel(bs, p2 + 8, le_bytes(blw, 8), words_bytes(blws) + r3);
    lemma_le_value_of_bytes(blw, 8);
    lemma_peel(bs, p2 + 16, words_bytes(blws), r3);
    lemma_words_at_of_words_bytes(bs, p2 + 16, blws);
    let p3 = p2 + 16 + 8 * blk_wc;

    // the trailing s and b fields
    assert(bs.subrange(p3, bs.len() as int) =~= le_bytes(rk.s as nat, 2) + le_bytes(
        rk.b as nat,
        1,
    ));
    lemma_peel(bs, p3, le_bytes(rk.s as nat, 2), le_bytes(rk.b as nat, 1));
    lemma_le_value_of_bytes(rk.s as nat, 2);
    lemma_le_value_of_bytes(rk.b as nat, 1);
    assert(bs.len() == p3 + 3);
}

/// Round-trip law: an index reconstructed from the byte form of `orig`
/// (field for field, as `from_bytes` ensures) is fully well formed, reads
/// the same bit sequence, and answers every rank query identically.
pub proof fn lemma_rank_round_trip(orig: RankSupport, loaded: RankSupport)
    requires
        orig.wf(),
        loaded.wf_structural(),
        rank_dec(rank_encoding(orig)) is Some,
        ({
            let p = rank_dec(rank_encoding(orig)).unwrap();
            &&& loaded.store@.len() == p.n
            &&& loaded.store.word_seq() == p.store_words
            &&& loaded.superblocks@.len() == p.sb_count
            &&& loaded.superblocks.spec_width() == p.sb_width
            &&& loaded.superblocks.spec_data().word_seq() == p.sb_words
            &&& loaded.blocks@.len() == p.blk_count
            &&& loaded.blocks.spec_width() == p.blk_width
            &&& loaded.blocks.spec_data().word_seq() == p.blk_words
            &&& loaded.s == p.s
            &&& loaded.b == p.b
        }),
    ensures
        loaded.wf(),
        loaded@ == orig@,
        forall|i: int|
            0 <= i <= orig@.len() ==> crate::rank_support::rank_spec(loaded@, i)
                == crate::rank_support::rank_spec(orig@, i),
{
    lemma_rank_dec_of_encoding(orig);
    lemma_rank_restored(orig, loaded);
}

/// An index whose fields equal those of a fully well-formed one, component
/// for component, is itself fully well formed, reads the same bit sequence,
/// and answers every rank query identically.
pub proof fn lemma_rank_restored(orig: RankSupport, loaded: RankSupport)
    requires
        orig.wf(),
        loaded.wf_structural(),
        loaded.store@.len() == orig.store@.len(),
        loaded.store.word_seq() == orig.store.word_seq(),
        loaded.superblocks@.len() == orig.superblocks@.len(),
        loaded.superblocks.spec_width() == orig.superblocks.spec_width(),
        loaded.superblocks.spec_data().word_seq() == orig.superblocks.spec_data().word_seq(),
        loaded.blocks@.len() == orig.blocks@.len(),
        loaded.blocks.spec_width() == orig.blocks.spec_width(),
        loaded.blocks.spec_data().word_seq() == orig.blocks.spec_data().word_seq(),
        loaded.s == orig.s,
        loaded.b == orig.b,
    ensures
        loaded.wf(),
        loaded@ == orig@,
        forall|i: int|
            0 <= i <= orig@.len() ==> crate::rank_support::rank_spec(loaded@, i)
                == crate::rank_support::rank_spec(orig@, i),
{
    loaded.store.lemma_view_from_parts(&orig.store);
    assert(loaded.store@ == orig.store@);
    orig.superblocks.lemma_data_shape();
    loaded.superblocks.lemma_data_shape();
    orig.blocks.lemma_data_shape();
    loaded.blocks.lemma_data_shape();
    loaded.superblocks.spec_data().lemma_view_from_parts(&orig.superblocks.spec_data());
    loaded.blocks.spec_data().lemma_view_from_parts(&orig.blocks.spec_data());
    loaded.superblocks.lemma_view_determined(&orig.superblocks);
    loaded.blocks.lemma_view_determined(&orig.blocks);
    assert(loaded.superblocks@ == orig.superblocks@);
    assert(loaded.blocks@ == orig.blocks@);
    assert(loaded.wf());
}

/// The byte form of a structurally well-formed index has fewer than `2^64`
/// bytes, so its length fits a `u64` length prefix.
pub proof fn lemma_rank_encoding_len(rk: RankSupport)
    requires
        rk.wf_structural(),
    ensures
        rank_encoding(rk).len() == 43 + 8 * rk.store.word_seq().len() + 8
            * rk.superblocks.spec_data().word_seq().len() + 8
            * rk.blocks.spec_data().word_seq().len(),
        rank_encoding(rk).len() < 0x1_0000_0000_0000_0000,
{
    lemma_words_bytes_len(rk.store.word_seq());
    lemma_words_bytes_len(rk.superblocks.spec_data().word_seq());
    lemma_words_bytes_len(rk.blocks.spec_data().word_seq());
    rk.store.lemma_wf_words();
    rk.store.lemma_len_fits();
    rk.superblocks.lemma_data_shape();
    rk.blocks.lemma_data_shape();
    rk.superblocks.spec_data().lemma_wf_words();
    rk.blocks.spec_data().lemma_wf_words();
    rk.superblocks.spec_data().lemma_len_fits();
    rk.blocks.spec_data().lemma_len_fits();
    let wc = rk.store.word_seq().len() as int;
    let swc = rk.superblocks.spec_data().word_seq().len() as int;
    let bwc = rk.blocks.spec_data().word_seq().len() as int;
    vstd::arithmetic::div_mod::lemma_div_is_ordered(
        rk.store@.len() as int + 63,
        u64::MAX as int + 63,
        64,
    );
    vstd::arithmetic::div_mod::lemma_div_is_ordered(
        rk.superblocks.spec_data()@.len() as int + 63,
        u64::MAX as int + 63,
        64,
    );
    vstd::arithmetic::div_mod::lemma_div_is_ordered(
        rk.blocks.spec_data()@.len() as int + 63,
        u64::MAX as int + 63,
        64,
    );
    assert((u64::MAX as int + 63) / 64 == 0x400_0000_0000_0000) by {
        vstd::arithmetic::div_mod::lemma_fundamental_div_mod_converse(
            u64::MAX as int + 63,
            64,
            0x400_0000_0000_0000,
            62,
        );
    }
    assert(wc <= 0x400_0000_0000_0000);
    assert(swc <= 0x400_0000_0000_0000);
    assert(bwc <= 0x400_0000_0000_0000);
}

/// The byte-level fields of a rank index, ready to persist: each component
/// in its own buffer, plus the two scalar parameters.
pub struct SaveableRankSupport {
    pub store: Vec<u8>,
    pub superblocks: Vec<u8>,
    pub blocks: Vec<u8>,
    pub s: u16,
    pub b: u8,
}

impl SaveableRankSupport {
    /// Serialise each component of `rk` into its own buffer.
    pub fn from_rank(rk: &RankSupport) -> (r: SaveableRankSupport)
        requires
            rk.wf_structural(),
        ensures
            r.store@ == store_encoding(rk.store),
            r.superblocks@ == packed_encoding(rk.superblocks),
            r.blocks@ == packed_encoding(rk.blocks),
            r.s == rk.s,
            r.b == rk.b,
    {
        let mut store: Vec<u8> = Vec::new();
        write_store(&rk.store, &mut store);
        let mut superblocks: Vec<u8> = Vec::new();
        write_packed(&rk.superblocks, &mut superblocks);
        let mut blocks: Vec<u8> = Vec::new();
        write_packed(&rk.blocks, &mut blocks);
        proof {
            assert(store@ =~= store_encoding(rk.store));
            assert(superblocks@ =~= packed_encoding(rk.superblocks));
            assert(blocks@ =~= packed_encoding(rk.blocks));
        }
        SaveableRankSupport { store, superblocks, blocks, s: rk.s, b: rk.b }
    }

    /// Concatenate the fields into the flat persisted byte form.
    pub fn into_bytes(self) -> (r: Vec<u8>)
        ensures
            r@ == self.store@ + (self.superblocks@ + (self.blocks@ + (le_bytes(self.s as nat, 2)
                + le_bytes(self.b as nat, 1)))),
    {
        let mut out = self.store;
        let mut superblocks = self.superblocks;
        let mut blocks = self.blocks;
        out.append(&mut superblocks);
        out.append(&mut blocks);
        proof {
            lemma_p256_u64();
        }
        push_le_bytes(&mut out, self.s as u64, 2);
        push_le_bytes(&mut out, self.b as u64, 1);
        proof {
            assert(out@ =~= self.store@ + (self.superblocks@ + (self.blocks@ + (le_bytes(
                self.s as nat,
                2,
            ) + le_bytes(self.b as nat, 1)))));
        }
        out
    }
}

/// A value that serialises itself to a deterministic, length-recoverable
/// little-endian byte form, as sparse-array persistence requires of its
/// element type.
pub trait ValueCodec: Sized {
    /// The bytes this value serialises to.
    spec fn encoding(&self) -> Seq<u8>;

    /// The unique reading of a value starting at `pos`, with its end
    /// position, or `None` where no value starts there.
    spec fn decode_spec(bs: Seq<u8>, pos: int) -> Option<(Self, int)>;

    /// Reading where `x`'s encoding was written recovers exactly `x`.
    proof fn lemma_decode_inverts(x: Self, bs: Seq<u8>, pos: int)
        requires
            0 <= pos,
            pos + x.encoding().len() <= bs.len(),
            bs.subrange(pos, pos + x.encoding().len() as int) == x.encoding(),
        ensures
            Self::decode_spec(bs, pos) == Some((x, pos + x.encoding().len() as int)),
    ;

    /// Append this value's encoding.
    fn write_to(&self, out: &mut Vec<u8>)
        ensures
            final(out)@ == old(out)@ + self.encoding(),
    ;

    /// Read one value at `pos`, exactly as [`ValueCodec::decode_spec`]
    /// describes.
    fn read_from(bytes: &[u8], pos: usize) -> (r: Option<(Self, usize)>)
        requires
            pos <= bytes@.len(),
        ensures
            r matches Some(v) ==> Self::decode_spec(bytes@, pos as int) == Some((
                v.0,
                v.1 as int,
            )) && pos < v.1 <= bytes@.len(),
            r is None ==> Self::decode_spec(bytes@, pos as int) is None,
    ;
}

impl ValueCodec for u64 {
    open spec fn encoding(&self) -> Seq<u8> {
        le_bytes(*self as nat, 8)
    }

    open spec fn decode_spec(bs: Seq<u8>, pos: int) -> Option<(u64, int)> {
        if 0 <= pos && pos + 8 <= bs.len() {
            Some(((le_value(bs.subrange(pos, pos + 8)) as u64), pos + 8))
        } else {
            None
        }
    }

    proof fn lemma_decode_inverts(x: u64, bs: Seq<u8>, pos: int) {
        lemma_p256_u64();
        lemma_le_value_of_bytes(x as nat, 8);
    }

    fn write_to(&self, out: &mut Vec<u8>) {
        proof {
            lemma_p256_u64();
        }
        push_le_bytes(out, *self, 8);
    }

    fn read_from(bytes: &[u8], pos: usize) -> (r: Option<(u64, usize)>) {
        let blen = bytes.len();
        if blen - pos >= 8 {
            let v = read_le_bytes(bytes, pos, 8);
            Some((v, pos + 8))
        } else {
            None
        }
    }
}

impl ValueCodec for u32 {
    open spec fn encoding(&self) -> Seq<u8> {
        le_bytes(*self as nat, 4)
    }

    open spec fn decode_spec(bs: Seq<u8>, pos: int) -> Option<(u32, int)> {
        if 0 <= pos && pos + 4 <= bs.len() {
            Some(((le_value(bs.subrange(pos, pos + 4)) as u32), pos + 4))
        } else {
            None
        }
    }

    proof fn lemma_decode_inverts(x: u32, bs: Seq<u8>, pos: int) {
        lemma_p256_u64();
        lemma_pow2_adds(16, 16);
        lemma2_to64();
        assert(p256(4) == 0x1_0000_0000);
        lemma_le_value_of_bytes(x as nat, 4);
    }

    fn write_to(&self, out: &mut Vec<u8>) {
        proof {
            lemma_p256_u64();
            lemma_pow2_adds(16, 16);
            lemma2_to64();
            assert(p256(4) == 0x1_0000_0000);
        }
        push_le_bytes(out, *self as u64, 4);
    }

    fn read_from(bytes: &[u8], pos: usize) -> (r: Option<(u32, usize)>) {
        let blen = bytes.len();
        if blen - pos >= 4 {
            let v = read_le_bytes(bytes, pos, 4);
            proof {
                lemma_le_value_bound(bytes@.subrange(pos as int, pos + 4));
                lemma_pow2_adds(16, 16);
                lemma2_to64();
                assert(p256(4) == 0x1_0000_0000);
            }
            Some((v as u32, pos + 4))
        } else {
            None
        }
    }
}

/// Copy the byte range `[start, end)` into an owned vector.
pub fn copy_range(bytes: &[u8], start: usize, end: usize) -> (r: Vec<u8>)
    requires
        start <= end <= bytes@.len(),
    ensures
        r@ == bytes@.subrange(start as int, end as int),
{
    let mut out: Vec<u8> = Vec::new();
    let mut i: usize = start;
    let blen = bytes.len();
    while i < end
        invariant
            start <= i <= end <= blen,
            blen == bytes@.len(),
            out@ == bytes@.subrange(start as int, i as int),
        decreases end - i,
    {
        out.push(bytes[i]);
        proof {
            assert(out@ =~= bytes@.subrange(start as int, i + 1));
        }
        i = i + 1;
    }
    proof {
        assert(out@ =~= bytes@.subrange(start as int, end as int));
    }
    out
}

} // verus!
