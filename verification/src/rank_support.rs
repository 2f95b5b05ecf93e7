//! Constant-time binary rank over a [`BitStore`]: two levels of cumulative
//! popcount tables (superblocks and blocks) plus one short popcount of the
//! final partial block.

use vstd::prelude::*;

verus! {

use vstd::arithmetic::power2::pow2;
use vstd::arithmetic::div_mod::{
    lemma_fundamental_div_mod, lemma_div_denominator, lemma_div_plus_one, lemma_div_pos_is_pos,
    lemma_mod_multiples_basic, lemma_div_by_multiple,
};
use crate::bits::{
    BitStore, ones, lemma_ones_bounds, lemma_ones_split, lemma_popcnt_bits_value,
};
use crate::math::{clog2, lemma_clog2_bounds};
use crate::packed::PackedIntVector;

/// Largest bit length the index accepts; keeps every intermediate table size
/// and bit count inside `u64` arithmetic.
pub const MAX_BITS: u64 = 0x0040_0000_0000_0000;

/// Number of 1-bits in positions `[0, i)` of `s`.
pub open spec fn rank_spec(s: Seq<bool>, i: int) -> int {
    ones(s, 0, i)
}

/// `x`, capped at `n`.
pub open spec fn capped(x: int, n: int) -> int {
    if x <= n {
        x
    } else {
        n
    }
}

/// `max(⌈log2 n⌉, 1)`: the parameter `L` of the table-size derivation.
pub open spec fn log_param(n: nat) -> nat {
    if clog2(n) < 1 {
        1
    } else {
        clog2(n)
    }
}

/// The default block size, `⌈L / 2⌉` bits.
pub open spec fn default_block_size(n: nat) -> nat {
    (log_param(n) + 1) / 2
}

/// The superblock size `b · ⌈L² / b⌉` that a build with block size `b`
/// derives.
pub open spec fn superblock_size_spec(n: nat, b: nat) -> nat {
    (b * ((log_param(n) * log_param(n) + b - 1) / (b as int))) as nat
}

/// The superblock table width, `max(⌈log2(n + 1)⌉, 1)`: enough bits for
/// every cumulative count in `0..=n`.
pub open spec fn superblock_width_spec(n: nat) -> nat {
    if clog2(n + 1) < 1 {
        1
    } else {
        clog2(n + 1)
    }
}

/// The block table width, `max(⌈log2 s⌉, 1)`: enough bits for every
/// relative count in `0..s`.
pub open spec fn block_width_spec(s: nat) -> nat {
    if clog2(s) < 1 {
        1
    } else {
        clog2(s)
    }
}

/// Two-level cumulative popcount index over an owned bit store.
///
/// `superblocks[S]` holds the popcount of `store[0 .. min(S*s, n))`;
/// `blocks[B]` holds the popcount of `store[min(S_B*s, n) .. min(B*b, n))`
/// where `S_B` is the superblock enclosing block `B`.  One superblock past
/// `n` is always materialised so boundary queries need no branching.
pub struct RankSupport {
    pub store: BitStore,
    pub superblocks: PackedIntVector,
    pub blocks: PackedIntVector,
    pub b: u8,
    pub s: u16,
}

impl RankSupport {
    /// Field-level shape: lengths, widths and size bounds, without the table
    /// contents.  This much is re-established by the byte decoder.
    pub open spec fn wf_structural(&self) -> bool {
        let n = self.store@.len() as int;
        let b = self.b as int;
        let s = self.s as int;
        &&& self.store.wf()
        &&& self.superblocks.wf()
        &&& self.blocks.wf()
        &&& n <= MAX_BITS
        &&& 1 <= b <= 64
        &&& b <= s
        &&& s % b == 0
        &&& self.superblocks@.len() == n / s + 1
        &&& self.blocks@.len() == (s / b) * (n / s + 1)
        &&& self.blocks@.len() <= n + s
    }

    /// The tables hold exactly the cumulative popcounts the rank algorithm
    /// reads.
    pub open spec fn wf(&self) -> bool {
        let n = self.store@.len() as int;
        let b = self.b as int;
        let s = self.s as int;
        let bps = s / b;
        &&& self.wf_structural()
        &&& forall|sb: int|
            0 <= sb < self.superblocks@.len() ==> #[trigger] self.superblocks@[sb] == ones(
                self.store@,
                0,
                capped(sb * s, n),
            )
        &&& forall|blk: int|
            0 <= blk < self.blocks@.len() ==> #[trigger] self.blocks@[blk] == ones(
                self.store@,
                capped((blk / bps) * s, n),
                capped(blk * b, n),
            )
    }

    /// Build the index with an explicit block size of `block_size` bits.
    pub fn with_block_size(block_size: u64, store: BitStore) -> (r: RankSupport)
        requires
            store.wf(),
            1 <= block_size <= 64,
            store@.len() <= MAX_BITS,
        ensures
            r.wf(),
            r.store@ == store@,
            r.b == block_size,
            r.s == superblock_size_spec(store@.len() as nat, block_size as nat),
            r.superblocks.spec_width() == superblock_width_spec(store@.len() as nat),
            r.blocks.spec_width() == block_width_spec(r.s as nat),
    {
        let ghost sv = store@;
        let n = store.len();
        let ghost gn = n as int;
        let ghost gb = block_size as int;
        let l = crate::math::log2_ceil(n);
        let log2_n = if l < 1 {
            1
        } else {
            l
        };
        proof {
            lemma_clog2_bounds(n as nat);
            lemma_clog2_is_small(n as nat);
            assert(log2_n <= 55);
        }
        proof {
            assert(log2_n * log2_n <= 55 * 55) by (nonlinear_arith)
                requires
                    1 <= log2_n <= 55,
            ;
        }
        let log2_n_squared = log2_n * log2_n;
        let blocks_per_superblock = crate::math::ceil_div(log2_n_squared, block_size);
        let ghost gbps = blocks_per_superblock as int;
        proof {
            // bps <= L^2 <= 55 * 55, since (bps - 1) * b < L^2
            assert(log2_n_squared >= 1) by (nonlinear_arith)
                requires
                    log2_n_squared == log2_n * log2_n,
                    log2_n >= 1,
            ;
            assert(gbps >= 1);
            assert(gbps <= log2_n_squared) by {
                assert((gbps - 1) * gb < log2_n_squared);
                assert(gbps - 1 < log2_n_squared) by (nonlinear_arith)
                    requires
                        (gbps - 1) * gb < log2_n_squared,
                        gb >= 1,
                        gbps >= 1,
                ;
            }
        }
        proof {
            assert(gb * gbps < log2_n_squared + gb) by (nonlinear_arith)
                requires
                    (gbps - 1) * gb < log2_n_squared,
                    gb >= 1,
            ;
        }
        let superblock_size = block_size * blocks_per_superblock;
        let ghost gs = superblock_size as int;
        proof {
            assert(gs == gb * gbps);
            assert(gs <= 3025 + 63);
            assert(gs >= gb && gs >= gbps && gs >= 1) by (nonlinear_arith)
                requires
                    gs == gb * gbps,
                    gb >= 1,
                    gbps >= 1,
            ;
        }
        let number_of_superblocks = (n / superblock_size) + 1;
        let ghost gns = number_of_superblocks as int;
        proof {
            assert(gns == gn / gs + 1);
            lemma_div_pos_is_pos(gn, gs);
            // bps * ns <= n/b + bps <= n + bps, so the product fits
            lemma_div_denominator(gn, gb, gbps);
            assert(gn / gs == (gn / gb) / gbps);
            lemma_fundamental_div_mod(gn / gb, gbps);
            assert(gbps * (gn / gs) <= gn / gb);
            assert(gn / gb <= gn) by {
                vstd::arithmetic::div_mod::lemma_div_nonincreasing(gn, gb);
            }
            assert(gbps * gns == gbps * (gn / gs) + gbps) by (nonlinear_arith)
                requires
                    gns == gn / gs + 1,
            ;
            assert(gbps * gns <= gn + gbps);
        }
        let number_of_blocks = blocks_per_superblock * number_of_superblocks;
        let ghost gnb = number_of_blocks as int;
        proof {
            assert(gnb == gbps * gns);
            assert(gnb <= gn + gbps);
        }

        let ws = width_for(n);
        let wb = width_for_span(superblock_size);

        let mut superblock_ranks = PackedIntVector::with_capacity(number_of_superblocks, ws);
        let mut block_ranks = PackedIntVector::with_capacity(number_of_blocks, wb);

        let mut cumulative_rank: u64 = 0;
        let mut previous_cumulative_rank: u64 = 0;
        let mut position: u64 = 0;
        let mut t: u64 = 0;
        proof {
            vstd::arithmetic::div_mod::lemma_basic_div(gbps - 1, gbps);
        }

        while t < number_of_blocks
            invariant
                store.wf(),
                store@ == sv,
                n == gn,
                gn == sv.len(),
                gn <= MAX_BITS,
                1 <= gb <= 64,
                1 <= gbps <= 3025,
                gs == gb * gbps,
                gb <= gs <= 3025 + 64,
                gns == gn / gs + 1,
                gnb == gbps * gns,
                gnb <= gn + gbps,
                number_of_blocks == gnb,
                blocks_per_superblock == gbps,
                block_size == gb,
                superblock_size == gs,
                1 <= ws <= 64,
                gn < pow2(ws as nat),
                1 <= wb <= 64,
                gs <= pow2(wb as nat),
                superblock_ranks.wf(),
                superblock_ranks.spec_width() == ws,
                block_ranks.wf(),
                block_ranks.spec_width() == wb,
                t <= gnb,
                block_ranks@.len() == t,
                superblock_ranks@.len() == (t + gbps - 1) / gbps,
                position == capped(t * gb, gn),
                cumulative_rank == ones(sv, 0, position as int),
                t > 0 ==> previous_cumulative_rank == ones(
                    sv,
                    0,
                    capped(((t - 1) as int / gbps) * gs, gn),
                ),
                t == 0 ==> previous_cumulative_rank == 0,
                forall|sb: int|
                    0 <= sb < superblock_ranks@.len() ==> #[trigger] superblock_ranks@[sb] == ones(
                        sv,
                        0,
                        capped(sb * gs, gn),
                    ),
                forall|blk: int|
                    0 <= blk < t ==> #[trigger] block_ranks@[blk] == ones(
                        sv,
                        capped((blk / gbps) * gs, gn),
                        capped(blk * gb, gn),
                    ),
            decreases gnb - t,
        {
            let ghost gt = t as int;
            proof {
                lemma_ones_bounds(sv, 0, position as int);
                lemma_fundamental_div_mod(gt, gbps);
            }
            if t % blocks_per_superblock == 0 {
                proof {
                    let sbi = gt / gbps;
                    assert(gbps * sbi == sbi * gbps) by (nonlinear_arith);
                    assert(gt == sbi * gbps);
                    assert(superblock_ranks@.len() == sbi) by {
                        assert((sbi * gbps + gbps - 1) / gbps == sbi + (gbps - 1) / gbps) by {
                            vstd::arithmetic::div_mod::lemma_hoist_over_denominator(
                                gbps - 1,
                                sbi,
                                gbps as nat,
                            );
                        }
                        vstd::arithmetic::div_mod::lemma_basic_div(gbps - 1, gbps);
                    }
                    assert(sbi <= gns) by {
                        assert(gt < gbps * gns);
                        assert(sbi < gns) by (nonlinear_arith)
                            requires
                                gt == sbi * gbps,
                                gt < gbps * gns,
                                gbps >= 1,
                        ;
                    }
                    assert(superblock_ranks@.len() * ws + 64 < u64::MAX - 63) by (nonlinear_arith)
                        requires
                            superblock_ranks@.len() <= gns,
                            gns <= gn + 1,
                            gn <= MAX_BITS,
                            1 <= ws <= 64,
                    ;
                    assert(gt * gb == sbi * gs) by (nonlinear_arith)
                        requires
                            gt == sbi * gbps,
                            gs == gb * gbps,
                    ;
                }
                superblock_ranks.push(cumulative_rank);
                previous_cumulative_rank = cumulative_rank;
                proof {
                    assert(superblock_ranks@[gt / gbps] == ones(
                        sv,
                        0,
                        capped((gt / gbps) * gs, gn),
                    ));
                }
            }
            proof {
                // the block's relative rank and its bound below pow2(wb)
                let sbi = gt / gbps;
                assert(gbps * sbi == sbi * gbps) by (nonlinear_arith);
                assert(sbi * gbps <= gt);
                assert(sbi >= 0) by {
                    lemma_div_pos_is_pos(gt, gbps);
                }
                assert(sbi * gs == (sbi * gbps) * gb) by (nonlinear_arith)
                    requires
                        gs == gb * gbps,
                ;
                assert((sbi * gbps) * gb <= gt * gb) by (nonlinear_arith)
                    requires
                        sbi * gbps <= gt,
                        gb >= 1,
                ;
                assert(gt * gb - sbi * gs == (gt - sbi * gbps) * gb) by (nonlinear_arith)
                    requires
                        gs == gb * gbps,
                ;
                assert(gt - sbi * gbps <= gbps - 1);
                assert((gt - sbi * gbps) * gb <= (gbps - 1) * gb) by (nonlinear_arith)
                    requires
                        gt - sbi * gbps <= gbps - 1,
                        gb >= 1,
                        gt - sbi * gbps >= 0,
                ;
                assert((gbps - 1) * gb == gs - gb) by (nonlinear_arith)
                    requires
                        gs == gb * gbps,
                ;
                // previous_cumulative_rank now matches this block's superblock
                if gt % gbps != 0 {
                    assert((gt - 1) / gbps == gt / gbps) by {
                        lemma_fundamental_div_mod(gt - 1, gbps);
                        lemma_fundamental_div_mod(gt, gbps);
                        vstd::arithmetic::div_mod::lemma_fundamental_div_mod_converse(
                            gt - 1,
                            gbps,
                            gt / gbps,
                            gt % gbps - 1,
                        );
                    }
                }
                assert(previous_cumulative_rank == ones(sv, 0, capped(sbi * gs, gn)));
                // monotonicity: capped(sbi*s) <= capped(t*b) and ones splits
                lemma_ones_split(
                    sv,
                    0,
                    capped(sbi * gs, gn),
                    capped(gt * gb, gn),
                );
                lemma_ones_bounds(sv, capped(sbi * gs, gn), capped(gt * gb, gn));
                assert(cumulative_rank - previous_cumulative_rank == ones(
                    sv,
                    capped(sbi * gs, gn),
                    capped(gt * gb, gn),
                ));
                assert(capped(gt * gb, gn) - capped(sbi * gs, gn) <= gs - gb);
                assert(cumulative_rank - previous_cumulative_rank < pow2(wb as nat)) by {
                    assert(gs <= pow2(wb as nat));
                }
                assert(block_ranks@.len() * wb + 64 < u64::MAX - 63) by (nonlinear_arith)
                    requires
                        block_ranks@.len() == gt,
                        gt < gnb,
                        gnb <= gn + gbps,
                        gn <= MAX_BITS,
                        gbps <= 3025,
                        1 <= wb <= 64,
                ;
            }
            block_ranks.push(cumulative_rank - previous_cumulative_rank);
            let block_len = if block_size < n - position {
                block_size
            } else {
                n - position
            };
            let chunk = store.get_bits(position, block_len);
            let pc = crate::math::popcount(chunk);
            proof {
                lemma_popcnt_bits_value(sv, position as int, block_len as nat);
                lemma_ones_split(sv, 0, position as int, position as int + block_len as int);
                lemma_ones_bounds(sv, 0, position as int + block_len as int);
            }
            cumulative_rank = cumulative_rank + pc as u64;
            position = position + block_len;
            t = t + 1;
            proof {
                // position advanced to capped((t+1)*b, n)
                assert((gt + 1) * gb == gt * gb + gb) by (nonlinear_arith);
                assert(position == capped((gt + 1) * gb, gn));
                // superblock count for the next iteration
                if gt % gbps == 0 {
                    assert((gt + gbps) / gbps == gt / gbps + 1) by {
                        lemma_div_plus_one(gt, gbps);
                    }
                } else {
                    assert((gt - 1) / gbps == gt / gbps) by {
                        lemma_fundamental_div_mod(gt - 1, gbps);
                        lemma_fundamental_div_mod(gt, gbps);
                        vstd::arithmetic::div_mod::lemma_fundamental_div_mod_converse(
                            gt - 1,
                            gbps,
                            gt / gbps,
                            gt % gbps - 1,
                        );
                    }
                    assert((gt + gbps) / gbps == (gt + gbps - 1) / gbps) by {
                        lemma_fundamental_div_mod(gt + gbps, gbps);
                        lemma_fundamental_div_mod(gt + gbps - 1, gbps);
                        lemma_div_plus_one(gt, gbps);
                        lemma_div_plus_one(gt - 1, gbps);
                    }
                }
                // previous_cumulative_rank invariant for the next iteration
                assert(((gt + 1) - 1) as int / gbps == gt / gbps);
            }
        }
        proof {
            // the trailing superblock is materialised: len == ns
            assert((gnb + gbps - 1) / gbps == gns) by {
                assert(gnb + gbps - 1 == gns * gbps + (gbps - 1)) by (nonlinear_arith)
                    requires
                        gnb == gbps * gns,
                ;
                vstd::arithmetic::div_mod::lemma_fundamental_div_mod_converse(
                    gnb + gbps - 1,
                    gbps,
                    gns,
                    gbps - 1,
                );
            }
            // s % b == 0 and s / b == bps
            lemma_mod_multiples_basic(gbps, gb);
            lemma_div_by_multiple(gbps, gb);
            assert(gs % gb == 0 && gs / gb == gbps);
            // the derived parameters match their closed forms
            assert(log_param(gn as nat) == log2_n);
            assert(gbps == (log2_n * log2_n + gb - 1) / gb);
            assert(superblock_size_spec(gn as nat, gb as nat) == gs);
        }
        RankSupport {
            store,
            superblocks: superblock_ranks,
            blocks: block_ranks,
            s: superblock_size as u16,
            b: block_size as u8,
        }
    }

    /// Build with the default block size `⌈⌈log2 n⌉ / 2⌉`.
    pub fn new(store: BitStore) -> (r: RankSupport)
        requires
            store.wf(),
            store@.len() <= MAX_BITS,
        ensures
            r.wf(),
            r.store@ == store@,
            r.b == default_block_size(store@.len() as nat),
            r.s == superblock_size_spec(store@.len() as nat, default_block_size(store@.len() as nat)),
            r.superblocks.spec_width() == superblock_width_spec(store@.len() as nat),
            r.blocks.spec_width() == block_width_spec(r.s as nat),
    {
        let n = store.len();
        let l = crate::math::log2_ceil(n);
        let log2_n = if l < 1 {
            1
        } else {
            l
        };
        proof {
            lemma_clog2_is_small(n as nat);
        }
        let block_size = crate::math::ceil_div(log2_n, 2);
        proof {
            assert(log_param(n as nat) == log2_n);
            assert(block_size == default_block_size(n as nat));
        }
        Self::with_block_size(block_size, store)
    }

    /// Build from an owned store; identical to [`RankSupport::new`].
    pub fn new_from_owned(store: BitStore) -> (r: RankSupport)
        requires
            store.wf(),
            store@.len() <= MAX_BITS,
        ensures
            r.wf(),
            r.store@ == store@,
            r.b == default_block_size(store@.len() as nat),
            r.s == superblock_size_spec(store@.len() as nat, default_block_size(store@.len() as nat)),
            r.superblocks.spec_width() == superblock_width_spec(store@.len() as nat),
            r.blocks.spec_width() == block_width_spec(r.s as nat),
    {
        Self::new(store)
    }

    /// Number of 1-bits in positions `[0, elem)` of the store.
    pub fn rank1(&self, elem: u64) -> (r: u64)
        requires
            self.wf(),
            elem <= self@.len(),
        ensures
            r == rank_spec(self@, elem as int),
    {
        let ghost sv = self.store@;
        let ghost gn = sv.len() as int;
        let ghost gi = elem as int;
        let ghost gb = self.b as int;
        let ghost gs = self.s as int;
        let ghost gbps = gs / gb;

        let superblock_position = elem / (self.s as u64);
        let (block_position, offset) = crate::math::div_with_remainder(elem, self.b as u64);
        proof {
            assert(gbps >= 1) by {
                vstd::arithmetic::div_mod::lemma_div_non_zero(gs, gb);
            }
            lemma_fundamental_div_mod(gi, gs);
            lemma_fundamental_div_mod(gi, gb);
            lemma_fundamental_div_mod(gn, gb);
            lemma_fundamental_div_mod(gn / gb, gbps);
            // the enclosing superblock of block i/b is i/s
            lemma_div_denominator(gi, gb, gbps);
            assert(gbps * gb == gs) by {
                lemma_div_by_multiple_cancel(gs, gb);
                assert((gs / gb) * gb == gb * (gs / gb)) by (nonlinear_arith);
            }
            assert(gb * gbps == gs) by (nonlinear_arith)
                requires
                    gbps * gb == gs,
            ;
            assert((gi / gb) / gbps == gi / gs);
            // index bounds in the tables
            vstd::arithmetic::div_mod::lemma_div_is_ordered(gi, gn, gs);
            vstd::arithmetic::div_mod::lemma_div_is_ordered(gi, gn, gb);
            lemma_div_denominator(gn, gb, gbps);
            assert(gn / gb < (gn / gs + 1) * gbps) by (nonlinear_arith)
                requires
                    gn / gs == (gn / gb) / gbps,
                    gn / gb == gbps * ((gn / gb) / gbps) + (gn / gb) % gbps,
                    0 <= (gn / gb) % gbps < gbps,
            ;
            assert((gn / gs + 1) * gbps == gbps * (gn / gs + 1)) by (nonlinear_arith);
            // the table reads below are the two cumulative counts
            assert(gi / gs * gs <= gi) by (nonlinear_arith)
                requires
                    gi == gs * (gi / gs) + gi % gs,
                    0 <= gi % gs,
            ;
            assert(gi / gb * gb <= gi) by (nonlinear_arith)
                requires
                    gi == gb * (gi / gb) + gi % gb,
                    0 <= gi % gb,
            ;
            assert((gi / gs) * gs >= 0) by (nonlinear_arith)
                requires
                    gi / gs >= 0,
                    gs >= 1,
            ;
            assert((gi / gs) * gs <= (gi / gb) * gb) by {
                assert(gi / gs == (gi / gb) / gbps);
                let q = gi / gb;
                assert((q / gbps) * gbps <= q) by {
                    lemma_fundamental_div_mod(q, gbps);
                };
                assert((q / gbps) * (gbps * gb) <= q * gb) by (nonlinear_arith)
                    requires
                        (q / gbps) * gbps <= q,
                        gb >= 1,
                ;
                assert((q / gbps) * (gbps * gb) == (q / gbps) * gbps * gb) by (nonlinear_arith);
            }
        }
        let sb = self.superblocks.get(superblock_position);
        let bb = self.blocks.get(block_position);
        let start = elem - offset;
        let tail = self.store.get_bits(start, offset);
        let tb = crate::math::popcount(tail);
        proof {
            let cs = capped((gi / gs) * gs, gn);
            let cb = capped((gi / gb) * gb, gn);
            assert(cs == (gi / gs) * gs && cb == (gi / gb) * gb);
            assert(self.superblocks@[gi / gs] == ones(sv, 0, cs));
            assert(self.blocks@[gi / gb] == ones(sv, cs, cb));
            lemma_popcnt_bits_value(sv, cb, offset as nat);
            assert(start as int == cb);
            lemma_ones_split(sv, 0, cs, cb);
            lemma_ones_split(sv, 0, cb, gi);
            lemma_ones_bounds(sv, 0, gi);
            lemma_ones_bounds(sv, 0, cs);
            lemma_ones_bounds(sv, cs, cb);
            lemma_ones_bounds(sv, cb, gi);
        }
        sb + bb + tb as u64
    }

    /// Number of 0-bits in positions `[0, elem)` of the store.
    pub fn rank0(&self, elem: u64) -> (r: u64)
        requires
            self.wf(),
            elem <= self@.len(),
        ensures
            r == elem - rank_spec(self@, elem as int),
    {
        proof {
            lemma_ones_bounds(self.store@, 0, elem as int);
        }
        elem - self.rank1(elem)
    }

    /// Auxiliary bits: both packed tables plus the constant-size `s` and `b`
    /// fields.
    pub fn overhead(&self) -> (r: u64)
        requires
            self.wf_structural(),
        ensures
            r == self.superblocks@.len() * self.superblocks.spec_width() + self.blocks@.len()
                * self.blocks.spec_width() + 24,
    {
        proof {
            self.lemma_overhead_fits();
        }
        self.superblocks.size_in_bits() + self.blocks.size_in_bits() + 24
    }

    /// Both table sizes, in bits, stay comfortably inside `u64`.
    proof fn lemma_overhead_fits(&self)
        requires
            self.wf_structural(),
        ensures
            self.superblocks@.len() * self.superblocks.spec_width() + self.blocks@.len()
                * self.blocks.spec_width() + 24 <= u64::MAX,
    {
        let n = self.store@.len() as int;
        let s = self.s as int;
        let sbl = self.superblocks@.len() as int;
        let bl = self.blocks@.len() as int;
        self.superblocks.lemma_wf_width();
        self.blocks.lemma_wf_width();
        lemma_div_pos_is_pos(n, s);
        vstd::arithmetic::div_mod::lemma_div_nonincreasing(n, s);
        assert(sbl <= n + 1);
        assert(bl <= n + s);
        assert(sbl * self.superblocks.spec_width() <= (n + 1) * 64) by (nonlinear_arith)
            requires
                0 <= sbl <= n + 1,
                0 < self.superblocks.spec_width() <= 64,
        ;
        assert(bl * self.blocks.spec_width() <= (n + s) * 64) by (nonlinear_arith)
            requires
                0 <= bl <= n + s,
                0 < self.blocks.spec_width() <= 64,
        ;
    }

    /// The store the index was built over.
    pub fn store_len(&self) -> (r: u64)
        ensures
            r == self@.len(),
    {
        self.store.len()
    }
}

impl View for RankSupport {
    type V = Seq<bool>;

    /// A rank index answers queries about its underlying bit sequence.
    open spec fn view(&self) -> Seq<bool> {
        self.store@
    }
}

/// Number of 0-bits in positions `[0, i)` of `s`.
pub open spec fn rank0_spec(s: Seq<bool>, i: int) -> int {
    i - rank_spec(s, i)
}

/// Zero-rank and one-rank always split a prefix exactly: for every
/// `0 <= i <= n`, `rank0(i) + rank1(i) == i`, and both counts stay within
/// `[0, i]`.
pub proof fn lemma_rank0_rank1_split(s: Seq<bool>, i: int)
    requires
        0 <= i <= s.len(),
    ensures
        rank0_spec(s, i) + rank_spec(s, i) == i,
        0 <= rank_spec(s, i) <= i,
        0 <= rank0_spec(s, i) <= i,
{
    lemma_ones_bounds(s, 0, i);
}

/// Rank at 0 is 0, and rank at `n` counts every set bit of the sequence.
pub proof fn lemma_rank_endpoints(s: Seq<bool>)
    ensures
        rank_spec(s, 0) == 0,
        rank_spec(s, s.len() as int) == s.filter(|b: bool| b).len(),
    decreases s.len(),
{
    reveal(Seq::filter);
    if s.len() == 0 {
    } else {
        let prefix = s.drop_last();
        lemma_rank_endpoints(prefix);
        assert(forall|p: int| 0 <= p < prefix.len() ==> prefix[p] == s[p]);
        crate::bits::lemma_ones_congruence(prefix, s, 0, prefix.len() as int);
        assert(ones(s, 0, s.len() as int) == ones(s, 0, s.len() - 1) + (if s[s.len() - 1] {
            1int
        } else {
            0int
        }));
    }
}

/// Rank never decreases as the prefix grows.
pub proof fn lemma_rank_monotone(s: Seq<bool>, i: int, j: int)
    requires
        0 <= i <= j,
    ensures
        rank_spec(s, i) <= rank_spec(s, j),
        rank_spec(s, j) - rank_spec(s, i) <= j - i,
{
    lemma_ones_split(s, 0, i, j);
    lemma_ones_bounds(s, i, j);
}

/// Growing a prefix by one position adds that position's bit to the rank.
pub proof fn lemma_rank_step(s: Seq<bool>, i: int)
    requires
        0 <= i,
    ensures
        rank_spec(s, i + 1) == rank_spec(s, i) + (if s[i] { 1int } else { 0int }),
{
}

/// The space bound behind the two-level design: for an index built with the
/// default parameters over at least `2^32` bits, the auxiliary tables and
/// constant fields take fewer bits than the store itself.  The superblock
/// table holds `n/s + 1` entries of at most 55 bits over superblocks of at
/// least `1024` bits, and the block table holds at most `n/b + s/b` entries
/// of at most 12 bits over blocks of at least 16 bits, so the total stays
/// under `n`; the same accounting shrinks the ratio further as `n` grows.
pub proof fn lemma_overhead_sublinear(rk: RankSupport)
    requires
        rk.wf_structural(),
        rk.b == default_block_size(rk.store@.len() as nat),
        rk.s == superblock_size_spec(rk.store@.len() as nat, rk.b as nat),
        rk.superblocks.spec_width() == superblock_width_spec(rk.store@.len() as nat),
        rk.blocks.spec_width() == block_width_spec(rk.s as nat),
        rk.store@.len() >= 0x1_0000_0000,
    ensures
        rk.superblocks@.len() * rk.superblocks.spec_width() + rk.blocks@.len()
            * rk.blocks.spec_width() + 24 < rk.store@.len(),
{
    let n = rk.store@.len() as int;
    let b = rk.b as int;
    let s = rk.s as int;
    let bps = s / b;
    let ws = rk.superblocks.spec_width() as int;
    let wb = rk.blocks.spec_width() as int;
    let sbl = rk.superblocks@.len() as int;
    let bll = rk.blocks@.len() as int;
    vstd::arithmetic::power2::lemma2_to64();
    vstd::arithmetic::power2::lemma2_to64_rest();

    // 32 <= L <= 54
    lemma_clog2_bounds(n as nat);
    let gl = log_param(n as nat) as int;
    assert(clog2(n as nat) >= 32) by {
        if clog2(n as nat) < 32 {
            if clog2(n as nat) < 31 {
                vstd::arithmetic::power2::lemma_pow2_strictly_increases(
                    clog2(n as nat),
                    31,
                );
            }
            assert(n <= pow2(clog2(n as nat)) <= pow2(31));
        }
    }
    assert(clog2(n as nat) <= 54) by {
        if clog2(n as nat) > 54 {
            if clog2(n as nat) - 1 > 54 {
                vstd::arithmetic::power2::lemma_pow2_strictly_increases(
                    54,
                    (clog2(n as nat) - 1) as nat,
                );
            }
            assert(pow2((clog2(n as nat) - 1) as nat) >= pow2(54));
            assert(pow2((clog2(n as nat) - 1) as nat) < n);
        }
    }
    assert(32 <= gl <= 54);

    // 16 <= b <= 27
    lemma_fundamental_div_mod(gl + 1, 2);
    assert(16 <= b <= 27);

    // 1024 <= s <= 2942 and s == b * bps
    let q = (gl * gl + b - 1) / b;
    lemma_fundamental_div_mod(gl * gl + b - 1, b);
    assert(1024 <= gl * gl <= 2916) by (nonlinear_arith)
        requires
            32 <= gl <= 54,
    ;
    assert(b * q >= gl * gl && b * q <= gl * gl + b - 1) by (nonlinear_arith)
        requires
            gl * gl + b - 1 == b * q + (gl * gl + b - 1) % b,
            0 <= (gl * gl + b - 1) % b < b,
    ;
    assert(s == b * q);
    assert(1024 <= s <= 2942);
    lemma_div_by_multiple_cancel(s, b);
    assert((s / b) * b == s);
    assert(bps == q) by (nonlinear_arith)
        requires
            (s / b) * b == s,
            s == b * q,
            b >= 1,
            bps == s / b,
    ;

    // wb <= 12, ws <= 55
    lemma_clog2_bounds(s as nat);
    assert(wb <= 12) by {
        if clog2(s as nat) > 12 {
            if clog2(s as nat) - 1 > 12 {
                vstd::arithmetic::power2::lemma_pow2_strictly_increases(
                    12,
                    (clog2(s as nat) - 1) as nat,
                );
            }
            assert(pow2((clog2(s as nat) - 1) as nat) >= pow2(12));
            assert(pow2((clog2(s as nat) - 1) as nat) < s);
        }
    }
    assert(ws <= 55) by {
        lemma_clog2_is_small((n + 1) as nat);
    }
    assert(1 <= ws && 1 <= wb);

    // sbl <= n/1024 + 1 and bll <= n/16 + 183
    assert(sbl == n / s + 1);
    vstd::arithmetic::div_mod::lemma_div_is_ordered_by_denominator(n, 1024, s);
    assert(sbl <= n / 1024 + 1);
    assert(bll == bps * (n / s + 1));
    assert(bps >= 1) by (nonlinear_arith)
        requires
            (s / b) * b == s,
            bps == s / b,
            s >= 1024,
            1 <= b <= 27,
    ;
    lemma_div_denominator(n, b, bps);
    assert(b * bps == s) by (nonlinear_arith)
        requires
            (s / b) * b == s,
            bps == s / b,
    ;
    assert(n / s == (n / b) / bps);
    lemma_fundamental_div_mod(n / b, bps);
    assert(bps * (n / s) <= n / b);
    assert(bll == bps * (n / s) + bps) by (nonlinear_arith)
        requires
            bll == bps * (n / s + 1),
    ;
    vstd::arithmetic::div_mod::lemma_div_is_ordered(s, 2942, b);
    vstd::arithmetic::div_mod::lemma_div_is_ordered_by_denominator(s, 16, b);
    assert(bps <= 183);
    vstd::arithmetic::div_mod::lemma_div_is_ordered_by_denominator(n, 16, b);
    assert(bll <= n / 16 + 183);

    // the two table totals
    lemma_div_pos_is_pos(n, 1024);
    lemma_div_pos_is_pos(n, 16);
    assert(sbl * ws <= (n / 1024 + 1) * 55) by (nonlinear_arith)
        requires
            0 <= sbl <= n / 1024 + 1,
            1 <= ws <= 55,
    ;
    assert(bll * wb <= (n / 16 + 183) * 12) by (nonlinear_arith)
        requires
            0 <= bll <= n / 16 + 183,
            1 <= wb <= 12,
    ;
    assert((n / 1024 + 1) * 55 == 55 * (n / 1024) + 55) by (nonlinear_arith);
    assert((n / 16 + 183) * 12 == 12 * (n / 16) + 2196) by (nonlinear_arith);
    // 55*(n/1024) + 12*(n/16) + 2275 < n
    lemma_fundamental_div_mod(n, 1024);
    lemma_fundamental_div_mod(n, 16);
    assert(55 * (n / 1024) + 12 * (n / 16) + 2275 < n) by (nonlinear_arith)
        requires
            n == 1024 * (n / 1024) + n % 1024,
            0 <= n % 1024 < 1024,
            n == 16 * (n / 16) + n % 16,
            0 <= n % 16 < 16,
            n >= 0x1_0000_0000,
    ;
}

/// `clog2(n) <= 55` whenever `n` is at most `2 * MAX_BITS`.
proof fn lemma_clog2_is_small(n: nat)
    requires
        n <= 2 * MAX_BITS,
    ensures
        clog2(n) <= 55,
{
    lemma_clog2_bounds(n);
    let c = clog2(n);
    if c > 55 {
        if c - 1 > 55 {
            vstd::arithmetic::power2::lemma_pow2_strictly_increases(55, (c - 1) as nat);
        }
        lemma_pow2_55();
        assert(pow2((c - 1) as nat) >= pow2(55));
        assert(pow2((c - 1) as nat) < n);
        assert(false);
    }
}

/// `pow2(55)` written out.
proof fn lemma_pow2_55()
    ensures
        pow2(55) == 0x80_0000_0000_0000,
{
    vstd::arithmetic::power2::lemma2_to64();
    vstd::arithmetic::power2::lemma2_to64_rest();
    vstd::arithmetic::power2::lemma_pow2_adds(32, 23);
}

/// Packed-table width for cumulative counts up to `n`: `max(⌈log2(n+1)⌉, 1)`,
/// so that every count in `0..=n` fits.
fn width_for(n: u64) -> (r: u64)
    requires
        n <= MAX_BITS,
    ensures
        1 <= r <= 64,
        n < pow2(r as nat),
        r == superblock_width_spec(n as nat),
{
    let l = crate::math::log2_ceil(n + 1);
    proof {
        lemma_clog2_bounds((n + 1) as nat);
        lemma_clog2_is_small((n + 1) as nat);
        if l >= 1 {
            assert(n + 1 <= pow2(l as nat));
        } else {
            vstd::arithmetic::power2::lemma2_to64();
            assert(n + 1 <= 1);
            assert(pow2(1) == 2);
        }
    }
    if l < 1 {
        1
    } else {
        l
    }
}

/// Packed-table width for relative counts inside a superblock of `s` bits:
/// `max(⌈log2 s⌉, 1)`, so that every count in `0..s` fits.
fn width_for_span(s: u64) -> (r: u64)
    requires
        1 <= s <= 65535,
    ensures
        1 <= r <= 64,
        s <= pow2(r as nat),
        r == block_width_spec(s as nat),
{
    let l = crate::math::log2_ceil(s);
    proof {
        lemma_clog2_bounds(s as nat);
        vstd::arithmetic::power2::lemma2_to64();
        if l > 16 {
            if l - 1 > 16 {
                vstd::arithmetic::power2::lemma_pow2_strictly_increases(16, (l - 1) as nat);
            }
            assert(pow2((l - 1) as nat) >= pow2(16));
            assert(false);
        }
    }
    if l < 1 {
        1
    } else {
        l
    }
}

/// `(q * b) / b == q` for positive `b`: used to recover `bps` from `s`.
proof fn lemma_div_by_multiple_cancel(s: int, b: int)
    requires
        b >= 1,
        s >= 0,
        s % b == 0,
    ensures
        (s / b) * b == s,
{
    lemma_fundamental_div_mod(s, b);
    assert((s / b) * b == s) by (nonlinear_arith)
        requires
            s == b * (s / b) + s % b,
            s % b == 0,
    ;
}

} // verus!
