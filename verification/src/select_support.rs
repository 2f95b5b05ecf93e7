//! Logarithmic-time binary select over a shared [`RankSupport`]: `select1(k)`
//! finds the smallest prefix whose rank reaches `k`, by lower-bound binary
//! search on the monotone rank function.

use vstd::prelude::*;

verus! {

use crate::rank_support::{
    RankSupport, rank_spec, rank0_spec, lemma_rank_monotone, lemma_rank_step,
    lemma_rank0_rank1_split,
};

/// `r` is the answer of a lower-bound search for `rank1(j) >= k` over
/// `j in [0, n]`: every shorter prefix has rank below `k`, and `r` itself
/// reaches `k` unless `r == n`.
pub open spec fn select1_at(s: Seq<bool>, k: int, r: int) -> bool {
    &&& 0 <= r <= s.len()
    &&& forall|j: int| 0 <= j < r ==> rank_spec(s, j) < k
    &&& (r < s.len() ==> rank_spec(s, r) >= k)
}

/// The `rank0` counterpart of [`select1_at`].
pub open spec fn select0_at(s: Seq<bool>, k: int, r: int) -> bool {
    &&& 0 <= r <= s.len()
    &&& forall|j: int| 0 <= j < r ==> rank0_spec(s, j) < k
    &&& (r < s.len() ==> rank0_spec(s, r) >= k)
}

/// Select queries over a shared rank index; no state of its own.
pub struct SelectSupport<'a> {
    pub rank_support: &'a RankSupport,
}

impl<'a> SelectSupport<'a> {
    /// Wrap a shared rank index.
    pub fn new(rank_support: &'a RankSupport) -> (r: SelectSupport<'a>)
        ensures
            r.rank_support == rank_support,
    {
        SelectSupport { rank_support }
    }

    /// The smallest `j in [0, n]` with `rank1(j) >= value`; `n` when no
    /// prefix reaches `value`.  In particular `select1(0) == 0`.
    pub fn select1(&self, value: u64) -> (r: u64)
        requires
            self.rank_support.wf(),
        ensures
            select1_at(self.rank_support@, value as int, r as int),
    {
        let rs = self.rank_support;
        let ghost sv = rs@;
        let n = rs.store_len();
        let mut left: u64 = 0;
        let mut right: u64 = n;
        while left < right
            invariant
                rs.wf(),
                rs@ == sv,
                n == sv.len(),
                left <= right <= n,
                forall|j: int| 0 <= j < left ==> rank_spec(sv, j) < value,
                forall|j: int| right <= j < n ==> rank_spec(sv, j) >= value,
            decreases right - left,
        {
            let center = left + (right - left) / 2;
            let rank = rs.rank1(center);
            if rank < value {
                proof {
                    assert forall|j: int| 0 <= j < center + 1 implies rank_spec(sv, j) < value by {
                        if left <= j {
                            lemma_rank_monotone(sv, j, center as int);
                        }
                    }
                }
                left = center + 1;
            } else {
                proof {
                    assert forall|j: int| center <= j < n implies rank_spec(sv, j) >= value by {
                        if j < right {
                            lemma_rank_monotone(sv, center as int, j);
                        }
                    }
                }
                right = center;
            }
        }
        left
    }

    /// The smallest `j in [0, n]` with `rank0(j) >= value`; `n` when no
    /// prefix reaches `value`.
    pub fn select0(&self, value: u64) -> (r: u64)
        requires
            self.rank_support.wf(),
        ensures
            select0_at(self.rank_support@, value as int, r as int),
    {
        let rs = self.rank_support;
        let ghost sv = rs@;
        let n = rs.store_len();
        let mut left: u64 = 0;
        let mut right: u64 = n;
        while left < right
            invariant
                rs.wf(),
                rs@ == sv,
                n == sv.len(),
                left <= right <= n,
                forall|j: int| 0 <= j < left ==> rank0_spec(sv, j) < value,
                forall|j: int| right <= j < n ==> rank0_spec(sv, j) >= value,
            decreases right - left,
        {
            let center = left + (right - left) / 2;
            let rank = rs.rank0(center);
            if rank < value {
                proof {
                    assert forall|j: int| 0 <= j < center + 1 implies rank0_spec(sv, j) < value by {
                        if left <= j {
                            lemma_rank0_monotone(sv, j, center as int);
                        }
                    }
                }
                left = center + 1;
            } else {
                proof {
                    assert forall|j: int| center <= j < n implies rank0_spec(sv, j) >= value by {
                        if j < right {
                            lemma_rank0_monotone(sv, center as int, j);
                        }
                    }
                }
                right = center;
            }
        }
        left
    }

    /// Auxiliary space of the select layer: it forwards to the rank index,
    /// having no tables of its own.
    pub fn overhead(&self) -> (r: u64)
        requires
            self.rank_support.wf_structural(),
        ensures
            r == self.rank_support.superblocks@.len() * self.rank_support.superblocks.spec_width()
                + self.rank_support.blocks@.len() * self.rank_support.blocks.spec_width() + 24,
    {
        self.rank_support.overhead()
    }
}

/// Zero-rank never decreases as the prefix grows.
pub proof fn lemma_rank0_monotone(s: Seq<bool>, i: int, j: int)
    requires
        0 <= i <= j,
    ensures
        rank0_spec(s, i) <= rank0_spec(s, j),
{
    lemma_rank_monotone(s, i, j);
}

/// The inverse law between select and rank: if `1 <= k` counts no further
/// than the total number of set bits and `r` answers `select1(k)`, then
/// bit `r - 1` is set, exactly `k - 1` set bits precede it, and the prefix
/// of length `r` holds exactly `k` set bits.
pub proof fn lemma_select1_inverse(s: Seq<bool>, k: int, r: int)
    requires
        1 <= k <= rank_spec(s, s.len() as int),
        select1_at(s, k, r),
    ensures
        1 <= r <= s.len(),
        s[r - 1],
        rank_spec(s, r - 1) == k - 1,
        rank_spec(s, r) == k,
{
    lemma_rank0_rank1_split(s, 0);
    if r == 0 {
        if r < s.len() {
            assert(rank_spec(s, 0) >= k);
        } else {
            assert(rank_spec(s, s.len() as int) >= k);
        }
        assert(false);
    }
    assert(rank_spec(s, r - 1) < k);
    if r < s.len() {
        assert(rank_spec(s, r) >= k);
    }
    lemma_rank_step(s, r - 1);
    lemma_rank_monotone(s, r, s.len() as int);
}

/// `select1(0)` is always 0.
pub proof fn lemma_select1_of_zero(s: Seq<bool>, r: int)
    requires
        select1_at(s, 0, r),
    ensures
        r == 0,
{
    if r > 0 {
        lemma_rank0_rank1_split(s, 0);
        assert(rank_spec(s, 0) < 0);
    }
}

/// `select1(k)` for `k` past the total number of set bits returns `n`.
pub proof fn lemma_select1_past_ones(s: Seq<bool>, k: int, r: int)
    requires
        k > rank_spec(s, s.len() as int),
        select1_at(s, k, r),
    ensures
        r == s.len(),
{
    if r < s.len() {
        lemma_rank_monotone(s, r, s.len() as int);
        assert(rank_spec(s, r) >= k);
    }
}

} // verus!
