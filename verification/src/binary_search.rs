//! Lower- and upper-bound binary search over an abstract monotone probe,
//! phrased with closure contracts: the probe classifies each index as
//! `Less`, `Equal` or `Greater` against the target.

use vstd::prelude::*;

verus! {

use core::cmp::Ordering;

/// Smallest index in `[left, right]` whose probe is not `Less`, or `right`
/// if every probe in the range is `Less`.
///
/// The probe must be monotone: once an index probes not-`Less`, every later
/// index does too.
pub fn bisect_left<F: Fn(u64) -> Ordering>(left: u64, right: u64, f: F) -> (r: u64)
    requires
        left <= right,
        forall|i: u64| left <= i < right ==> call_requires(f, (i,)),
        forall|i: u64, j: u64, ri: Ordering, rj: Ordering|
            left <= i <= j < right && #[trigger] call_ensures(f, (i,), ri) && #[trigger]
            call_ensures(f, (j,), rj) && !(ri is Less) ==> !(rj is Less),
    ensures
        left <= r <= right,
        forall|i: u64, ri: Ordering|
            left <= i < r && #[trigger] call_ensures(f, (i,), ri) ==> ri is Less,
        forall|ri: Ordering| r < right && #[trigger] call_ensures(f, (r,), ri) ==> !(ri is Less),
{
    let ghost left0 = left;
    let ghost right0 = right;
    let mut left = left;
    let mut right = right;
    while left < right
        invariant
            left0 <= left <= right <= right0,
            forall|i: u64| left0 <= i < right0 ==> call_requires(f, (i,)),
            forall|i: u64, j: u64, ri: Ordering, rj: Ordering|
                left0 <= i <= j < right0 && #[trigger] call_ensures(f, (i,), ri) && #[trigger]
                call_ensures(f, (j,), rj) && !(ri is Less) ==> !(rj is Less),
            forall|i: u64, ri: Ordering|
                left0 <= i < left && #[trigger] call_ensures(f, (i,), ri) ==> ri is Less,
            forall|i: u64, ri: Ordering|
                right <= i < right0 && #[trigger] call_ensures(f, (i,), ri) ==> !(ri is Less),
        decreases right - left,
    {
        let center = left + (right - left) / 2;
        let probe = f(center);
        match probe {
            Ordering::Less => {
                proof {
                    assert forall|i: u64, ri: Ordering|
                        left0 <= i < center + 1 && #[trigger] call_ensures(f, (i,), ri) implies ri
                        is Less by {
                        if left <= i && !(ri is Less) {
                            assert(call_ensures(f, (i,), ri));
                            assert(call_ensures(f, (center,), probe));
                        }
                    }
                }
                left = center + 1;
            },
            _ => {
                proof {
                    assert forall|i: u64, ri: Ordering|
                        center <= i < right0 && #[trigger] call_ensures(f, (i,), ri) implies !(ri
                        is Less) by {
                        if i < right {
                            assert(call_ensures(f, (center,), probe));
                            assert(call_ensures(f, (i,), ri));
                        }
                    }
                }
                right = center;
            },
        }
    }
    left
}

/// Smallest index in `[left, right]` whose probe is `Greater`, or `right` if
/// every probe in the range is `Less` or `Equal`.
///
/// The probe must be monotone: once an index probes `Greater`, every later
/// index does too.
pub fn bisect_right<F: Fn(u64) -> Ordering>(left: u64, right: u64, f: F) -> (r: u64)
    requires
        left <= right,
        forall|i: u64| left <= i < right ==> call_requires(f, (i,)),
        forall|i: u64, j: u64, ri: Ordering, rj: Ordering|
            left <= i <= j < right && #[trigger] call_ensures(f, (i,), ri) && #[trigger]
            call_ensures(f, (j,), rj) && ri is Greater ==> rj is Greater,
    ensures
        left <= r <= right,
        forall|i: u64, ri: Ordering|
            left <= i < r && #[trigger] call_ensures(f, (i,), ri) ==> !(ri is Greater),
        forall|ri: Ordering| r < right && #[trigger] call_ensures(f, (r,), ri) ==> ri is Greater,
{
    let ghost left0 = left;
    let ghost right0 = right;
    let mut left = left;
    let mut right = right;
    while left < right
        invariant
            left0 <= left <= right <= right0,
            forall|i: u64| left0 <= i < right0 ==> call_requires(f, (i,)),
            forall|i: u64, j: u64, ri: Ordering, rj: Ordering|
                left0 <= i <= j < right0 && #[trigger] call_ensures(f, (i,), ri) && #[trigger]
                call_ensures(f, (j,), rj) && ri is Greater ==> rj is Greater,
            forall|i: u64, ri: Ordering|
                left0 <= i < left && #[trigger] call_ensures(f, (i,), ri) ==> !(ri is Greater),
            forall|i: u64, ri: Ordering|
                right <= i < right0 && #[trigger] call_ensures(f, (i,), ri) ==> ri is Greater,
        decreases right - left,
    {
        let center = left + (right - left) / 2;
        let probe = f(center);
        match probe {
            Ordering::Less | Ordering::Equal => {
                proof {
                    assert forall|i: u64, ri: Ordering|
                        left0 <= i < center + 1 && #[trigger] call_ensures(f, (i,), ri) implies !(
                        ri is Greater) by {
                        if left <= i && ri is Greater {
                            assert(call_ensures(f, (i,), ri));
                            assert(call_ensures(f, (center,), probe));
                        }
                    }
                }
                left = center + 1;
            },
            _ => {
                proof {
                    assert forall|i: u64, ri: Ordering|
                        center <= i < right0 && #[trigger] call_ensures(f, (i,), ri) implies ri
                        is Greater by {
                        if i < right {
                            assert(call_ensures(f, (center,), probe));
                            assert(call_ensures(f, (i,), ri));
                        }
                    }
                }
                right = center;
            },
        }
    }
    left
}

} // verus!
