//! The integer part of concept induction: the thresholds a numeric column is compared against,
//! the distinct values it takes on the training rows, smallest first, as many as allowed.

use vstd::prelude::*;

verus! {

/// The values of the training rows, in training order.
pub open spec fn train_values(values: Seq<i64>, train: Seq<usize>) -> Seq<i64> {
    Seq::new(train.len(), |k: int| values[train[k] as int])
}

/// `r` is ascending without repeats, holds only values of `vs`, and holds every value of `vs`
/// unless it is full at `max` and the value exceeds all of `r`.
pub open spec fn are_thresholds(r: Seq<i64>, vs: Seq<i64>, max: nat) -> bool {
    &&& r.len() <= max
    &&& forall|i: int, j: int| 0 <= i < j < r.len() ==> r[i] < r[j]
    &&& forall|i: int| 0 <= i < r.len() ==> vs.contains(#[trigger] r[i])
    &&& forall|v: i64| #[trigger] vs.contains(v) ==> r.contains(v) || (r.len() == max && (max == 0 || v > r.last()))
}

/// The candidate thresholds of a numeric column: its distinct values on the training rows,
/// ascending, the first `max` of them.
pub fn candidate_thresholds(values: &[i64], train: &[usize], max: usize) -> (r: Vec<i64>)
    requires
        forall|k: int| 0 <= k < train@.len() ==> (#[trigger] train@[k]) < values@.len(),
    ensures
        are_thresholds(r@, train_values(values@, train@), max as nat),
{
    let ghost vs = train_values(values@, train@);
    let mut all: Vec<i64> = Vec::new();
    let mut k: usize = 0;
    while k < train.len()
        invariant
            vs == train_values(values@, train@),
            forall|x: int| 0 <= x < train@.len() ==> (#[trigger] train@[x]) < values@.len(),
            k <= train@.len(),
            forall|i: int, j: int| 0 <= i < j < all@.len() ==> all@[i] < all@[j],
            forall|v: i64| all@.contains(v) <==> vs.take(k as int).contains(v),
        decreases train@.len() - k,
    {
        let v = values[train[k]];
        let mut p: usize = 0;
        while p < all.len() && all[p] < v
            invariant
                p <= all@.len(),
                forall|i: int| 0 <= i < p ==> all@[i] < v,
            decreases all@.len() - p,
        {
            p = p + 1;
        }
        let ghost before = all@;
        proof {
            assert(vs.take(k + 1) =~= vs.take(k as int).push(v));
        }
        if p < all.len() && all[p] == v {
            proof {
                assert forall|x: i64| all@.contains(x) <==> vs.take(k + 1).contains(x) by {
                    if x == v {
                        assert(all@[p as int] == v);
                        assert(vs.take(k + 1)[k as int] == v);
                    } else if vs.take(k + 1).contains(x) {
                        let y = choose|y: int| 0 <= y < k + 1 && #[trigger] vs.take(k + 1)[y] == x;
                        assert(vs.take(k as int)[y] == x);
                    } else if all@.contains(x) {
                        assert(vs.take(k as int).contains(x));
                        let y = choose|y: int| 0 <= y < k && #[trigger] vs.take(k as int)[y] == x;
                        assert(vs.take(k + 1)[y] == x);
                    }
                }
            }
        } else {
            all.insert(p, v);
            proof {
                let na = all@;
                assert(na =~= before.take(p as int).push(v) + before.skip(p as int));
                assert forall|i: int| 0 <= i < na.len() && i != p implies na[i] == (if i < p {
                    before[i]
                } else {
                    before[i - 1]
                }) by {}
                assert forall|i: int, j: int| 0 <= i < j < na.len() implies na[i] < na[j] by {
                    if i == p {
                        assert(na[j] == before[j - 1]);
                        if j - 1 > p {
                            assert(before[p as int] < before[j - 1]);
                        }
                        assert(before[p as int] >= v);
                        assert(before[p as int] != v);
                    } else if j == p {
                        assert(na[i] == before[i]);
                    } else if i < p && j < p {
                        assert(before[i] < before[j]);
                    } else if i < p {
                        assert(before[i] < v);
                        assert(before[p as int] >= v);
                        if j - 1 > p as int {
                            assert(before[p as int] < before[j - 1]);
                        }
                    } else {
                        assert(before[i - 1] < before[j - 1]);
                    }
                }
                assert forall|x: i64| na.contains(x) <==> vs.take(k + 1).contains(x) by {
                    if na.contains(x) {
                        let z = choose|z: int| 0 <= z < na.len() && #[trigger] na[z] == x;
                        if z == p {
                            assert(vs.take(k + 1)[k as int] == v);
                        } else {
                            let b = if z < p { z } else { z - 1 };
                            assert(before.contains(before[b]));
                            assert(vs.take(k as int).contains(x));
                            let y = choose|y: int| 0 <= y < k && #[trigger] vs.take(k as int)[y] == x;
                            assert(vs.take(k + 1)[y] == x);
                        }
                    }
                    if vs.take(k + 1).contains(x) {
                        let y = choose|y: int| 0 <= y < k + 1 && #[trigger] vs.take(k + 1)[y] == x;
                        if y == k {
                            assert(na[p as int] == x);
                        } else {
                            assert(vs.take(k as int)[y] == x);
                            assert(before.contains(x));
                            let b = choose|b: int| 0 <= b < before.len() && #[trigger] before[b] == x;
                            if b < p {
                                assert(na[b] == x);
                            } else {
                                assert(na[b + 1] == x);
                            }
                        }
                    }
                }
            }
        }
        k = k + 1;
    }
    proof {
        assert(vs.take(train@.len() as int) =~= vs);
    }
    let ghost full = all@;
    if all.len() > max {
        all.truncate(max);
    }
    proof {
        let r = all@;
        assert(r =~= full.take(r.len() as int));
        assert forall|i: int| 0 <= i < r.len() implies vs.contains(#[trigger] r[i]) by {
            assert(r[i] == full[i]);
            assert(full.contains(full[i]));
        }
        assert forall|v: i64| #[trigger] vs.contains(v) implies r.contains(v) || (r.len() == max && (max == 0
            || v > r.last())) by {
            assert(full.contains(v));
            let z = choose|z: int| 0 <= z < full.len() && #[trigger] full[z] == v;
            if z < r.len() {
                assert(r[z] == v);
            } else if max > 0 {
                assert(r.last() == full[max - 1]);
                assert(full[max - 1] < full[z]);
            }
        }
    }
    all
}

} // verus!
