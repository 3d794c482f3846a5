//! Exact integer split arithmetic of the deterministic CART classifier: per-class row counts,
//! their purity numerator `A(R) = Σ_k n_k²`, and the comparison of candidate splits by weighted
//! Gini impurity without floating point.

use vstd::prelude::*;

verus! {

/// Number of the first `m` of `rows` whose label is `k`.
pub open spec fn label_count(labels: Seq<usize>, rows: Seq<usize>, k: int, m: int) -> int
    decreases m,
{
    if m <= 0 {
        0
    } else {
        label_count(labels, rows, k, m - 1) + if labels[rows[m - 1] as int] == k {
            1int
        } else {
            0
        }
    }
}

/// `Σ c²` over the first `m` of `counts`.
pub open spec fn sum_squares(counts: Seq<u128>, m: int) -> int
    decreases m,
{
    if m <= 0 {
        0
    } else {
        sum_squares(counts, m - 1) + counts[m - 1] * counts[m - 1]
    }
}

/// `Σ c` over the first `m` of `counts`.
pub open spec fn sum_counts(counts: Seq<u128>, m: int) -> int
    decreases m,
{
    if m <= 0 {
        0
    } else {
        sum_counts(counts, m - 1) + counts[m - 1]
    }
}

/// `Σ (parent_k - left_k)²` over the first `m` classes.
pub open spec fn sum_right_squares(parent: Seq<u128>, left: Seq<u128>, m: int) -> int
    decreases m,
{
    if m <= 0 {
        0
    } else {
        sum_right_squares(parent, left, m - 1) + (parent[m - 1] - left[m - 1]) * (parent[m - 1]
            - left[m - 1])
    }
}

/// A sum of squares of non-negative counts is at most the square of their sum.
proof fn lemma_sum_squares_bound(counts: Seq<u128>, m: int)
    requires
        0 <= m <= counts.len(),
    ensures
        0 <= sum_squares(counts, m) <= sum_counts(counts, m) * sum_counts(counts, m),
        0 <= sum_counts(counts, m),
    decreases m,
{
    if m > 0 {
        lemma_sum_squares_bound(counts, m - 1);
        let s = sum_counts(counts, m - 1);
        let c = counts[m - 1] as int;
        let q = sum_squares(counts, m - 1);
        assert(q + c * c <= (s + c) * (s + c)) by (nonlinear_arith)
            requires
                0 <= q <= s * s,
                0 <= s,
                0 <= c,
        ;
    }
}

/// Per-class row counts, with the purity numerator `a = Σ_k n_k²` and the size `n`.
pub struct Counts {
    /// Rows per class.
    pub counts: Vec<u128>,
    /// `Σ_k counts[k]²`.
    pub a: u128,
    /// Number of rows.
    pub n: u128,
}

impl Counts {
    /// Counts the classes of `rows` (indices into `labels`), over `n_classes` classes.
    pub fn from_rows(labels: &[usize], rows: &[usize], n_classes: usize) -> (c: Counts)
        requires
            forall|i: int| 0 <= i < rows@.len() ==> (#[trigger] rows@[i]) < labels@.len(),
            forall|i: int| 0 <= i < labels@.len() ==> (#[trigger] labels@[i]) < n_classes,
        ensures
            c.counts@.len() == n_classes,
            forall|k: int|
                0 <= k < n_classes ==> (#[trigger] c.counts@[k]) == label_count(
                    labels@,
                    rows@,
                    k,
                    rows@.len() as int,
                ),
            c.a == sum_squares(c.counts@, n_classes as int),
            c.n == rows@.len(),
            sum_counts(c.counts@, n_classes as int) == rows@.len(),
            c.a <= c.n * c.n,
    {
        let mut counts: Vec<u128> = Vec::new();
        let mut k: usize = 0;
        while k < n_classes
            invariant
                k <= n_classes,
                counts@.len() == k,
                forall|j: int| 0 <= j < k ==> counts@[j] == 0,
            decreases n_classes - k,
        {
            counts.push(0);
            k = k + 1;
        }
        let mut m: usize = 0;
        while m < rows.len()
            invariant
                forall|i: int| 0 <= i < rows@.len() ==> (#[trigger] rows@[i]) < labels@.len(),
                forall|i: int| 0 <= i < labels@.len() ==> (#[trigger] labels@[i]) < n_classes,
                m <= rows@.len(),
                counts@.len() == n_classes,
                forall|j: int|
                    0 <= j < n_classes ==> (#[trigger] counts@[j]) == label_count(labels@, rows@, j, m as int),
                forall|j: int| 0 <= j < n_classes ==> #[trigger] counts@[j] <= m,
            decreases rows@.len() - m,
        {
            let label = labels[rows[m]];
            let count = counts[label];
            counts.set(label, count + 1);
            m = m + 1;
        }
        let ghost cs = counts@;
        let nrows = rows.len();
        proof {
            lemma_sum_label_counts(labels@, rows@, cs, n_classes as int, rows@.len() as int);
        }
        let mut total: u128 = 0;
        let mut a: u128 = 0;
        let mut k: usize = 0;
        while k < n_classes
            invariant
                cs == counts@,
                nrows == rows@.len(),
                counts@.len() == n_classes,
                k <= n_classes,
                a == sum_squares(cs, k as int),
                total == sum_counts(cs, k as int),
                total <= rows@.len(),
                forall|j: int|
                    0 <= j < n_classes ==> (#[trigger] counts@[j]) == label_count(labels@, rows@, j, rows@.len() as int),
                forall|j: int| 0 <= j < n_classes ==> #[trigger] counts@[j] <= rows@.len(),
                sum_counts(cs, n_classes as int) == rows@.len(),
            decreases n_classes - k,
        {
            proof {
                lemma_sum_squares_bound(cs, k + 1);
                lemma_sum_counts_prefix(cs, k + 1, n_classes as int);
                assert(sum_counts(cs, k + 1) * sum_counts(cs, k + 1) <= (nrows as int) * (nrows as int)) by (nonlinear_arith)
                    requires
                        0 <= sum_counts(cs, k + 1) <= nrows,
                ;
                assert((nrows as int) * (nrows as int) <= u64::MAX * u64::MAX) by (nonlinear_arith)
                    requires
                        nrows <= u64::MAX,
                ;
            }
            let c = counts[k];
            a = a + c * c;
            total = total + c;
            k = k + 1;
        }
        proof {
            lemma_sum_squares_bound(cs, n_classes as int);
        }
        Counts { counts, a, n: nrows as u128 }
    }

    /// The class with the most rows, ties to the lowest class; `0` without classes.
    pub fn modal_class(&self) -> (c: usize)
        ensures
            self.counts@.len() > 0 ==> c < self.counts@.len(),
            self.counts@.len() == 0 ==> c == 0,
            forall|k: int| 0 <= k < self.counts@.len() ==> self.counts@[k] <= self.counts@[c as int],
            forall|k: int| 0 <= k < c ==> self.counts@[k] < self.counts@[c as int],
            c == modal(self.counts@),
    {
        if self.counts.len() == 0 {
            proof {
                lemma_modal_unique(self.counts@, 0);
            }
            return 0;
        }
        let mut best_class: usize = 0;
        let mut best_count = self.counts[0];
        let mut k: usize = 1;
        while k < self.counts.len()
            invariant
                1 <= k <= self.counts@.len(),
                best_class < k,
                best_count == self.counts@[best_class as int],
                forall|j: int| 0 <= j < k ==> self.counts@[j] <= best_count,
                forall|j: int| 0 <= j < best_class ==> self.counts@[j] < best_count,
            decreases self.counts@.len() - k,
        {
            if self.counts[k] > best_count {
                best_count = self.counts[k];
                best_class = k;
            }
            k = k + 1;
        }
        proof {
            lemma_modal_unique(self.counts@, best_class as int);
        }
        best_class
    }

    /// Whether at most one class has rows.
    pub fn is_pure(&self) -> (p: bool)
        ensures
            p == all_one_class(self.counts@),
    {
        let mut seen: bool = false;
        let mut first: usize = 0;
        let mut k: usize = 0;
        while k < self.counts.len()
            invariant
                k <= self.counts@.len(),
                seen ==> first < k && self.counts@[first as int] > 0,
                !seen ==> forall|j: int| 0 <= j < k ==> self.counts@[j] == 0,
                !exists|i: int, j: int| 0 <= i < j < k && #[trigger] self.counts@[i] > 0 && #[trigger] self.counts@[j] > 0,
            decreases self.counts@.len() - k,
        {
            if self.counts[k] > 0 {
                if seen {
                    proof {
                        assert(self.counts@[first as int] > 0 && self.counts@[k as int] > 0);
                    }
                    return false;
                }
                seen = true;
                first = k;
            }
            k = k + 1;
        }
        true
    }

    /// Given the running left-side per-class counts, `A(right) = Σ_k (n_k - left_k)²`.
    pub fn right_a_from_counts(&self, left_counts: &[u128]) -> (a: u128)
        requires
            left_counts@.len() == self.counts@.len(),
            forall|k: int| 0 <= k < self.counts@.len() ==> left_counts@[k] <= #[trigger] self.counts@[k],
            sum_counts(self.counts@, self.counts@.len() as int) <= u64::MAX,
        ensures
            a == sum_right_squares(self.counts@, left_counts@, self.counts@.len() as int),
    {
        let ghost rs = Seq::new(self.counts@.len(), |k: int| (self.counts@[k] - left_counts@[k]) as u128);
        let mut a: u128 = 0;
        let mut k: usize = 0;
        while k < self.counts.len()
            invariant
                left_counts@.len() == self.counts@.len(),
                forall|k: int| 0 <= k < self.counts@.len() ==> left_counts@[k] <= #[trigger] self.counts@[k],
                sum_counts(self.counts@, self.counts@.len() as int) <= u64::MAX,
                rs == Seq::new(self.counts@.len(), |k: int| (self.counts@[k] - left_counts@[k]) as u128),
                k <= self.counts@.len(),
                a == sum_right_squares(self.counts@, left_counts@, k as int),
                a == sum_squares(rs, k as int),
            decreases self.counts@.len() - k,
        {
            proof {
                lemma_sum_squares_bound(rs, k + 1);
                lemma_sum_right_bound(self.counts@, left_counts@, rs, k + 1);
                lemma_sum_counts_prefix(self.counts@, k + 1, self.counts@.len() as int);
                let t = sum_counts(rs, k + 1);
                assert(t * t <= u64::MAX * u64::MAX) by (nonlinear_arith)
                    requires
                        0 <= t <= u64::MAX,
                ;
            }
            let r = self.counts[k] - left_counts[k];
            a = a + r * r;
            k = k + 1;
        }
        a
    }
}

proof fn lemma_sum_right_bound(parent: Seq<u128>, left: Seq<u128>, rs: Seq<u128>, m: int)
    requires
        0 <= m <= parent.len(),
        left.len() == parent.len(),
        rs.len() == parent.len(),
        forall|k: int| 0 <= k < parent.len() ==> left[k] <= #[trigger] parent[k],
        forall|k: int| 0 <= k < parent.len() ==> #[trigger] rs[k] == parent[k] - left[k],
    ensures
        sum_counts(rs, m) <= sum_counts(parent, m),
        sum_squares(rs, m) == sum_right_squares(parent, left, m),
    decreases m,
{
    if m > 0 {
        lemma_sum_right_bound(parent, left, rs, m - 1);
    }
}

proof fn lemma_sum_counts_prefix(counts: Seq<u128>, m: int, n: int)
    requires
        0 <= m <= n <= counts.len(),
    ensures
        sum_counts(counts, m) <= sum_counts(counts, n),
    decreases n - m,
{
    if m < n {
        lemma_sum_counts_prefix(counts, m, n - 1);
    }
}

proof fn lemma_sum_label_counts(labels: Seq<usize>, rows: Seq<usize>, cs: Seq<u128>, n_classes: int, m: int)
    requires
        0 <= m <= rows.len(),
        forall|i: int| 0 <= i < rows.len() ==> (#[trigger] rows[i]) < labels.len(),
        forall|i: int| 0 <= i < labels.len() ==> (#[trigger] labels[i]) < n_classes,
        cs.len() == n_classes,
        forall|k: int| 0 <= k < n_classes ==> (#[trigger] cs[k]) == label_count(labels, rows, k, m),
    ensures
        sum_counts(cs, n_classes) == m,
{
    lemma_class_sum(labels, rows, n_classes, m, n_classes);
    lemma_sum_counts_eq(labels, rows, cs, m, n_classes);
}

/// Σ over classes `< c` of the label counts among the first `m` rows.
spec fn class_sum(labels: Seq<usize>, rows: Seq<usize>, m: int, c: int) -> int
    decreases c,
{
    if c <= 0 {
        0
    } else {
        class_sum(labels, rows, m, c - 1) + label_count(labels, rows, c - 1, m)
    }
}

proof fn lemma_sum_counts_eq(labels: Seq<usize>, rows: Seq<usize>, cs: Seq<u128>, m: int, c: int)
    requires
        0 <= c <= cs.len(),
        forall|k: int| 0 <= k < cs.len() ==> (#[trigger] cs[k]) == label_count(labels, rows, k, m),
    ensures
        sum_counts(cs, c) == class_sum(labels, rows, m, c),
    decreases c,
{
    if c > 0 {
        lemma_sum_counts_eq(labels, rows, cs, m, c - 1);
    }
}

proof fn lemma_class_sum(labels: Seq<usize>, rows: Seq<usize>, n_classes: int, m: int, c: int)
    requires
        0 <= m <= rows.len(),
        0 <= c,
        forall|i: int| 0 <= i < rows.len() ==> (#[trigger] rows[i]) < labels.len(),
        forall|i: int| 0 <= i < labels.len() ==> (#[trigger] labels[i]) < n_classes,
        c == n_classes,
    ensures
        class_sum(labels, rows, m, c) == m,
    decreases m,
{
    if m > 0 {
        lemma_class_sum(labels, rows, n_classes, m - 1, c);
        lemma_class_sum_step(labels, rows, m, c);
    } else {
        lemma_class_sum_zero(labels, rows, c);
    }
}

proof fn lemma_class_sum_zero(labels: Seq<usize>, rows: Seq<usize>, c: int)
    requires
        0 <= c,
    ensures
        class_sum(labels, rows, 0, c) == 0,
    decreases c,
{
    if c > 0 {
        lemma_class_sum_zero(labels, rows, c - 1);
    }
}

proof fn lemma_class_sum_step(labels: Seq<usize>, rows: Seq<usize>, m: int, c: int)
    requires
        1 <= m <= rows.len(),
        0 <= c,
    ensures
        class_sum(labels, rows, m, c) == class_sum(labels, rows, m - 1, c) + if 0 <= labels[rows[m
            - 1] as int] < c {
            1int
        } else {
            0
        },
    decreases c,
{
    if c > 0 {
        lemma_class_sum_step(labels, rows, m, c - 1);
    }
}

/// Whether `a / b > c / d`, for proper fractions, compared without multiplying: by the
/// integer parts of the reciprocals, then recursively on the remainders.
pub fn fraction_gt(a: u128, b: u128, c: u128, d: u128) -> (r: bool)
    requires
        a < b,
        c < d,
    ensures
        r == (a * d > c * b),
    decreases b + d,
{
    if a == 0 {
        proof {
            assert(0 <= c * b) by (nonlinear_arith)
                requires
                    0 <= c,
                    0 <= b,
            ;
        }
        return false;
    }
    if c == 0 {
        proof {
            assert(a * d > 0) by (nonlinear_arith)
                requires
                    a >= 1,
                    d >= 1,
            ;
        }
        return true;
    }
    let qa = b / a;
    let ra = b % a;
    let qc = d / c;
    let rc = d % c;
    proof {
        vstd::arithmetic::div_mod::lemma_fundamental_div_mod(b as int, a as int);
        vstd::arithmetic::div_mod::lemma_fundamental_div_mod(d as int, c as int);
        vstd::arithmetic::div_mod::lemma_mod_pos_bound(b as int, a as int);
        vstd::arithmetic::div_mod::lemma_mod_pos_bound(d as int, c as int);
        vstd::arithmetic::div_mod::lemma_div_pos_is_pos(b as int, a as int);
        vstd::arithmetic::div_mod::lemma_div_pos_is_pos(d as int, c as int);
        assert(b == qa * a + ra) by (nonlinear_arith)
            requires
                b == a * (b / a) + b % a,
                qa == b / a,
                ra == b % a,
        ;
        assert(d == qc * c + rc) by (nonlinear_arith)
            requires
                d == c * (d / c) + d % c,
                qc == d / c,
                rc == d % c,
        ;
        lemma_fraction_step(a as int, b as int, c as int, d as int, qa as int, ra as int, qc as int, rc as int);
    }
    if qa < qc {
        true
    } else if qa > qc {
        false
    } else {
        fraction_gt(rc, c, ra, a)
    }
}

/// One step of the reciprocal comparison: with `b = qa·a + ra` and `d = qc·c + rc`, the sign of
/// `a·d - c·b` is that of `qc - qa`, or, when they are equal, that of `a·rc - c·ra`.
proof fn lemma_fraction_step(a: int, b: int, c: int, d: int, qa: int, ra: int, qc: int, rc: int)
    requires
        a >= 1,
        c >= 1,
        b == qa * a + ra,
        0 <= ra < a,
        d == qc * c + rc,
        0 <= rc < c,
        qa >= 0,
        qc >= 0,
    ensures
        qa < qc ==> a * d > c * b,
        qa > qc ==> a * d <= c * b,
        qa == qc ==> (a * d > c * b) == (rc * a > ra * c),
{
    assert(a * d - c * b == a * c * (qc - qa) + a * rc - c * ra) by (nonlinear_arith)
        requires
            b == qa * a + ra,
            d == qc * c + rc,
    ;
    assert(c * ra < a * c) by (nonlinear_arith)
        requires
            0 <= ra < a,
            c >= 1,
    ;
    assert(a * rc < a * c) by (nonlinear_arith)
        requires
            0 <= rc < c,
            a >= 1,
    ;
    assert(0 <= a * rc && 0 <= c * ra) by (nonlinear_arith)
        requires
            0 <= rc,
            0 <= ra,
            a >= 1,
            c >= 1,
    ;
    if qa < qc {
        assert(a * c * (qc - qa) >= a * c) by (nonlinear_arith)
            requires
                qc - qa >= 1,
                a * c >= 0,
        ;
    } else if qa > qc {
        assert(a * c * (qc - qa) <= -(a * c)) by (nonlinear_arith)
            requires
                qc - qa <= -1,
                a * c >= 0,
        ;
    } else {
        assert(a * c * (qc - qa) == 0) by (nonlinear_arith)
            requires
                qc == qa,
        ;
    }
}

/// `p1 / q1 + p2 / q2` as an integer part `i` plus a proper fraction `f / (q1·q2)`.
fn mixed_sum(p1: u128, q1: u128, p2: u128, q2: u128) -> (r: (u128, u128, u128))
    requires
        1 <= q1 <= u64::MAX,
        1 <= q2 <= u64::MAX,
        p1 <= q1 * q1,
        p2 <= q2 * q2,
        q1 * q2 <= 0x4000_0000_0000_0000_0000_0000_0000_0000,
    ensures
        r.2 == q1 * q2,
        r.1 < r.2,
        p1 * q2 + p2 * q1 == r.0 * r.2 + r.1,
{
    let i1 = p1 / q1;
    let r1 = p1 % q1;
    let i2 = p2 / q2;
    let r2 = p2 % q2;
    proof {
        vstd::arithmetic::div_mod::lemma_fundamental_div_mod(p1 as int, q1 as int);
        vstd::arithmetic::div_mod::lemma_fundamental_div_mod(p2 as int, q2 as int);
        vstd::arithmetic::div_mod::lemma_mod_pos_bound(p1 as int, q1 as int);
        vstd::arithmetic::div_mod::lemma_mod_pos_bound(p2 as int, q2 as int);
        assert(p1 == i1 * q1 + r1) by (nonlinear_arith)
            requires
                p1 == q1 * (p1 / q1) + p1 % q1,
                i1 == p1 / q1,
                r1 == p1 % q1,
        ;
        assert(p2 == i2 * q2 + r2) by (nonlinear_arith)
            requires
                p2 == q2 * (p2 / q2) + p2 % q2,
                i2 == p2 / q2,
                r2 == p2 % q2,
        ;
        assert(i1 <= q1) by (nonlinear_arith)
            requires
                p1 == i1 * q1 + r1,
                0 <= r1,
                q1 >= 1,
                p1 <= q1 * q1,
        ;
        assert(i2 <= q2) by (nonlinear_arith)
            requires
                p2 == i2 * q2 + r2,
                0 <= r2,
                q2 >= 1,
                p2 <= q2 * q2,
        ;
        assert(r1 * q2 < q1 * q2 && r2 * q1 < q1 * q2) by (nonlinear_arith)
            requires
                0 <= r1 < q1,
                0 <= r2 < q2,
                q1 >= 1,
                q2 >= 1,
        ;
        assert(0 <= r1 * q2 && 0 <= r2 * q1) by (nonlinear_arith)
            requires
                0 <= r1,
                0 <= r2,
                q1 >= 1,
                q2 >= 1,
        ;
        assert(p1 * q2 + p2 * q1 == (i1 + i2) * (q1 * q2) + (r1 * q2 + r2 * q1)) by (nonlinear_arith)
            requires
                p1 == i1 * q1 + r1,
                p2 == i2 * q2 + r2,
        ;
    }
    let d = q1 * q2;
    let f = r1 * q2 + r2 * q1;
    let i = i1 + i2;
    if f >= d {
        proof {
            assert((i + 1) * d + (f - d) == i * d + f) by (nonlinear_arith);
        }
        (i + 1, f - d, d)
    } else {
        (i, f, d)
    }
}

/// Whether the split `(al, nl, ar, nr)` (left and right purity numerators and sizes) strictly
/// beats `(bl, ml, br, mr)`: `(al·nr + ar·nl)·(ml·mr) > (bl·mr + br·ml)·(nl·nr)`, which compares
/// weighted Gini purity exactly. Both sides are compared as mixed numbers, so no product wider
/// than the operands is formed.
pub fn beats(al: u128, nl: u128, ar: u128, nr: u128, bl: u128, ml: u128, br: u128, mr: u128) -> (b: bool)
    requires
        1 <= nl <= u64::MAX,
        1 <= nr <= u64::MAX,
        1 <= ml <= u64::MAX,
        1 <= mr <= u64::MAX,
        al <= nl * nl,
        ar <= nr * nr,
        bl <= ml * ml,
        br <= mr * mr,
        nl * nr <= 0x4000_0000_0000_0000_0000_0000_0000_0000,
        ml * mr <= 0x4000_0000_0000_0000_0000_0000_0000_0000,
    ensures
        b == ((al * nr + ar * nl) * (ml * mr) > (bl * mr + br * ml) * (nl * nr)),
{
    let (i1, f1, d1) = mixed_sum(al, nl, ar, nr);
    let (i2, f2, d2) = mixed_sum(bl, ml, br, mr);
    proof {
        lemma_mixed_compare(i1 as int, f1 as int, d1 as int, i2 as int, f2 as int, d2 as int);
    }
    if i1 > i2 {
        true
    } else if i1 < i2 {
        false
    } else {
        fraction_gt(f1, d1, f2, d2)
    }
}

/// Comparing `i1 + f1/d1` with `i2 + f2/d2` by cross-multiplication: the integer parts decide
/// unless they are equal.
proof fn lemma_mixed_compare(i1: int, f1: int, d1: int, i2: int, f2: int, d2: int)
    requires
        0 <= f1 < d1,
        0 <= f2 < d2,
    ensures
        i1 > i2 ==> (i1 * d1 + f1) * d2 > (i2 * d2 + f2) * d1,
        i1 < i2 ==> !((i1 * d1 + f1) * d2 > (i2 * d2 + f2) * d1),
        i1 == i2 ==> (((i1 * d1 + f1) * d2 > (i2 * d2 + f2) * d1) == (f1 * d2 > f2 * d1)),
{
    assert((i1 * d1 + f1) * d2 - (i2 * d2 + f2) * d1 == (i1 - i2) * (d1 * d2) + f1 * d2 - f2 * d1)
        by (nonlinear_arith);
    assert(f2 * d1 < d1 * d2 && f1 * d2 < d1 * d2) by (nonlinear_arith)
        requires
            0 <= f1 < d1,
            0 <= f2 < d2,
    ;
    assert(0 <= f1 * d2 && 0 <= f2 * d1) by (nonlinear_arith)
        requires
            0 <= f1 < d1,
            0 <= f2 < d2,
    ;
    if i1 > i2 {
        assert((i1 - i2) * (d1 * d2) >= d1 * d2) by (nonlinear_arith)
            requires
                i1 - i2 >= 1,
                d1 * d2 >= 0,
        ;
    } else if i1 < i2 {
        assert((i1 - i2) * (d1 * d2) <= -(d1 * d2)) by (nonlinear_arith)
            requires
                i1 - i2 <= -1,
                d1 * d2 >= 0,
        ;
    } else {
        assert((i1 - i2) * (d1 * d2) == 0) by (nonlinear_arith)
            requires
                i1 == i2,
        ;
    }
}

/// Two split sides of `n` rows in all have sizes whose product fits in 126 bits.
proof fn lemma_sides_product(n1: int, n2: int)
    requires
        0 <= n1,
        0 <= n2,
        n1 + n2 <= u64::MAX,
    ensures
        n1 * n2 <= 0x4000_0000_0000_0000_0000_0000_0000_0000,
{
    assert(4 * (n1 * n2) <= (n1 + n2) * (n1 + n2)) by (nonlinear_arith)
        requires
            0 <= n1,
            0 <= n2,
    ;
    assert((n1 + n2) * (n1 + n2) < 0x1_0000_0000_0000_0000_0000_0000_0000_0000) by (nonlinear_arith)
        requires
            0 <= n1 + n2 <= u64::MAX,
    ;
}

/// Value of row `r` in `column`.
pub open spec fn cell(m: Seq<Vec<i64>>, r: usize, column: int) -> int {
    m[r as int]@[column] as int
}

/// The rows among the first `len` of `rows` whose value in `column` is `<= threshold` (when
/// `below`) or `> threshold` (otherwise), in their order in `rows`.
pub open spec fn side(
    m: Seq<Vec<i64>>,
    rows: Seq<usize>,
    column: int,
    threshold: int,
    below: bool,
    len: int,
) -> Seq<usize>
    decreases len,
{
    if len <= 0 {
        Seq::empty()
    } else {
        let prev = side(m, rows, column, threshold, below, len - 1);
        if (cell(m, rows[len - 1], column) <= threshold) == below {
            prev.push(rows[len - 1])
        } else {
            prev
        }
    }
}

/// Rows of `rows` with `x[column] <= threshold`.
pub open spec fn left_rows(m: Seq<Vec<i64>>, rows: Seq<usize>, column: int, threshold: int) -> Seq<usize> {
    side(m, rows, column, threshold, true, rows.len() as int)
}

/// Each entry of `s` is smaller than the next.
pub open spec fn ascending(s: Seq<usize>) -> bool {
    forall|i: int, j: int| 0 <= i < j < s.len() ==> s[i] < s[j]
}

/// A side of ascending rows is ascending, and its entries are at most the last row considered.
pub proof fn lemma_side_ascending(m: Seq<Vec<i64>>, rows: Seq<usize>, column: int, threshold: int, below: bool, len: int)
    requires
        0 <= len <= rows.len(),
        ascending(rows),
    ensures
        ascending(side(m, rows, column, threshold, below, len)),
        len > 0 ==> forall|i: int|
            0 <= i < side(m, rows, column, threshold, below, len).len() ==> #[trigger] side(
                m,
                rows,
                column,
                threshold,
                below,
                len,
            )[i] <= rows[len - 1],
    decreases len,
{
    if len > 0 {
        lemma_side_ascending(m, rows, column, threshold, below, len - 1);
        let prev = side(m, rows, column, threshold, below, len - 1);
        assert forall|i: int| 0 <= i < prev.len() implies prev[i] < rows[len - 1] by {
            if len > 1 {
                assert(prev[i] <= rows[len - 2]);
            }
        }
    }
}

/// Rows of `rows` with `x[column] > threshold`.
pub open spec fn right_rows(m: Seq<Vec<i64>>, rows: Seq<usize>, column: int, threshold: int) -> Seq<usize> {
    side(m, rows, column, threshold, false, rows.len() as int)
}

/// Per-class row counts of `rows`.
pub open spec fn class_counts(labels: Seq<usize>, rows: Seq<usize>, n_classes: int) -> Seq<u128> {
    Seq::new(n_classes as nat, |k: int| label_count(labels, rows, k, rows.len() as int) as u128)
}

/// Purity numerator `A(rows) = Σ_k n_k²`.
pub open spec fn purity(labels: Seq<usize>, rows: Seq<usize>, n_classes: int) -> int {
    sum_squares(class_counts(labels, rows, n_classes), n_classes)
}

/// Width of the matrix: that of its first row, `0` when it has none.
pub open spec fn n_columns(m: Seq<Vec<i64>>) -> int {
    if m.len() > 0 {
        m[0]@.len() as int
    } else {
        0
    }
}

/// Whether some row of `rows` takes the value `threshold` in `column`.
pub open spec fn takes_value(m: Seq<Vec<i64>>, rows: Seq<usize>, column: int, threshold: int) -> bool {
    exists|i: int| 0 <= i < rows.len() && cell(m, #[trigger] rows[i], column) == threshold
}

/// Whether some row of `rows` lies above `threshold` in `column`.
pub open spec fn exceeds(m: Seq<Vec<i64>>, rows: Seq<usize>, column: int, threshold: int) -> bool {
    exists|i: int| 0 <= i < rows.len() && cell(m, #[trigger] rows[i], column) > threshold
}

/// A split the search weighs: a column of the matrix, a threshold that is one of its values
/// among `rows` but not the largest, and at least `min_leaf` rows on each side.
pub open spec fn is_candidate(
    m: Seq<Vec<i64>>,
    rows: Seq<usize>,
    min_leaf: int,
    column: int,
    threshold: int,
) -> bool {
    &&& 0 <= column < n_columns(m)
    &&& takes_value(m, rows, column, threshold)
    &&& exceeds(m, rows, column, threshold)
    &&& left_rows(m, rows, column, threshold).len() >= min_leaf
    &&& right_rows(m, rows, column, threshold).len() >= min_leaf
}

/// `(A(left), n(left), A(right), n(right))` of a split.
pub open spec fn stats(
    m: Seq<Vec<i64>>,
    labels: Seq<usize>,
    rows: Seq<usize>,
    n_classes: int,
    column: int,
    threshold: int,
) -> (int, int, int, int) {
    let l = left_rows(m, rows, column, threshold);
    let r = right_rows(m, rows, column, threshold);
    (purity(labels, l, n_classes), l.len() as int, purity(labels, r, n_classes), r.len() as int)
}

/// Whether split statistics `x` have strictly higher weighted purity
/// `A(l)/n(l) + A(r)/n(r)` than `y` (the Gini comparison, cross-multiplied).
pub open spec fn outscores(x: (int, int, int, int), y: (int, int, int, int)) -> bool {
    (x.0 * x.3 + x.2 * x.1) * (y.1 * y.3) > (y.0 * y.3 + y.2 * y.1) * (x.1 * x.3)
}

/// The search order of splits: by column, then by threshold.
pub open spec fn precedes(c1: int, v1: int, c2: int, v2: int) -> bool {
    c1 < c2 || (c1 == c2 && v1 < v2)
}

/// The split the search settles on: a candidate that no candidate outscores and that outscores
/// every candidate before it in search order (the first of the best).
pub open spec fn is_best_split(
    m: Seq<Vec<i64>>,
    labels: Seq<usize>,
    rows: Seq<usize>,
    n_classes: int,
    min_leaf: int,
    column: int,
    threshold: int,
) -> bool {
    &&& is_candidate(m, rows, min_leaf, column, threshold)
    &&& forall|c: int, v: int| #[trigger]
        is_candidate(m, rows, min_leaf, c, v) ==> !outscores(
            stats(m, labels, rows, n_classes, c, v),
            stats(m, labels, rows, n_classes, column, threshold),
        ) && (precedes(c, v, column, threshold) ==> outscores(
            stats(m, labels, rows, n_classes, column, threshold),
            stats(m, labels, rows, n_classes, c, v),
        ))
}

/// Whether a split strictly beats leaving `rows` whole.
pub open spec fn improves(
    m: Seq<Vec<i64>>,
    labels: Seq<usize>,
    rows: Seq<usize>,
    n_classes: int,
    column: int,
    threshold: int,
) -> bool {
    let s = stats(m, labels, rows, n_classes, column, threshold);
    (s.0 * s.3 + s.2 * s.1) * rows.len() > purity(labels, rows, n_classes) * (s.1 * s.3)
}

/// The split applied to `rows`: the best split, when it improves on the parent.
pub open spec fn chosen_split(
    m: Seq<Vec<i64>>,
    labels: Seq<usize>,
    rows: Seq<usize>,
    n_classes: int,
    min_leaf: int,
) -> Option<(int, int)> {
    if exists|c: int, v: int| is_best_split(m, labels, rows, n_classes, min_leaf, c, v) {
        let (c, v) = choose|c: int, v: int| is_best_split(m, labels, rows, n_classes, min_leaf, c, v);
        if improves(m, labels, rows, n_classes, c, v) {
            Some((c, v))
        } else {
            None
        }
    } else {
        None
    }
}

/// `c` is the class with the most rows, ties to the lowest; `0` without classes.
pub open spec fn is_modal(counts: Seq<u128>, c: int) -> bool {
    if counts.len() == 0 {
        c == 0
    } else {
        &&& 0 <= c < counts.len()
        &&& forall|k: int| 0 <= k < counts.len() ==> counts[k] <= counts[c]
        &&& forall|k: int| 0 <= k < c ==> counts[k] < counts[c]
    }
}

/// The modal class of `counts`.
pub open spec fn modal(counts: Seq<u128>) -> int {
    choose|c: int| is_modal(counts, c)
}

/// Whether at most one class has rows.
pub open spec fn all_one_class(counts: Seq<u128>) -> bool {
    !exists|i: int, j: int|
        0 <= i < j < counts.len() && #[trigger] counts[i] > 0 && #[trigger] counts[j] > 0
}

/// The modal class is unique.
pub proof fn lemma_modal_unique(counts: Seq<u128>, c: int)
    requires
        is_modal(counts, c),
    ensures
        modal(counts) == c,
{
    let d = modal(counts);
    assert(is_modal(counts, d));
    if counts.len() > 0 && d != c {
        if d < c {
            assert(counts[d] < counts[c]);
        } else {
            assert(counts[c] < counts[d]);
        }
    }
}

/// Rows `0..n`.
pub open spec fn all_rows(n: int) -> Seq<usize> {
    Seq::new(n as nat, |i: int| i as usize)
}

/// Mathematical model of a node.
pub enum NodeModel {
    Leaf { class: int, rows: Seq<usize> },
    Split {
        column: int,
        threshold: int,
        left: Box<NodeModel>,
        right: Box<NodeModel>,
        rows: Seq<usize>,
    },
}

/// Splits on the longest root-to-leaf path.
pub open spec fn model_depth(node: NodeModel) -> int
    decreases node,
{
    match node {
        NodeModel::Leaf { .. } => 0,
        NodeModel::Split { left, right, .. } => {
            let l = model_depth(*left);
            let r = model_depth(*right);
            1 + if l >= r {
                l
            } else {
                r
            }
        },
    }
}

/// The tree the CART procedure grows on `rows` at `depth`: a leaf labelled with the modal class
/// when the rows are pure or the depth limit is reached (`max_depth == 0` is unlimited), else the
/// chosen split with both sides grown one level deeper, else a leaf.
pub open spec fn grow(
    m: Seq<Vec<i64>>,
    labels: Seq<usize>,
    n_classes: int,
    max_depth: int,
    min_leaf: int,
    rows: Seq<usize>,
    depth: int,
) -> NodeModel
    decreases rows.len(),
{
    let counts = class_counts(labels, rows, n_classes);
    let leaf = NodeModel::Leaf { class: modal(counts), rows };
    if all_one_class(counts) || (max_depth != 0 && depth == max_depth) {
        leaf
    } else {
        match chosen_split(m, labels, rows, n_classes, min_leaf) {
            Some((c, v)) => {
                let l = left_rows(m, rows, c, v);
                let r = right_rows(m, rows, c, v);
                if l.len() < rows.len() && r.len() < rows.len() {
                    NodeModel::Split {
                        column: c,
                        threshold: v,
                        left: Box::new(grow(m, labels, n_classes, max_depth, min_leaf, l, depth + 1)),
                        right: Box::new(grow(m, labels, n_classes, max_depth, min_leaf, r, depth + 1)),
                        rows,
                    }
                } else {
                    leaf
                }
            },
            None => leaf,
        }
    }
}


/// The smallest value of `column` among `rows`; `None` when `rows` is empty.
fn column_min(matrix: &[Vec<i64>], rows: &[usize], column: usize) -> (v: Option<i64>)
    requires
        forall|i: int| 0 <= i < rows@.len() ==> (#[trigger] rows@[i]) < matrix@.len(),
        forall|r: int| 0 <= r < matrix@.len() ==> column < (#[trigger] matrix@[r])@.len(),
    ensures
        v is None <==> rows@.len() == 0,
        v matches Some(x) ==> takes_value(matrix@, rows@, column as int, x as int) && forall|i: int|
            0 <= i < rows@.len() ==> x <= cell(matrix@, #[trigger] rows@[i], column as int),
{
    if rows.len() == 0 {
        return None;
    }
    let mut best: i64 = matrix[rows[0]][column];
    let mut m: usize = 1;
    while m < rows.len()
        invariant
            forall|i: int| 0 <= i < rows@.len() ==> (#[trigger] rows@[i]) < matrix@.len(),
            forall|r: int| 0 <= r < matrix@.len() ==> column < (#[trigger] matrix@[r])@.len(),
            1 <= m <= rows@.len(),
            takes_value(matrix@, rows@, column as int, best as int),
            forall|i: int| 0 <= i < m ==> best <= cell(matrix@, #[trigger] rows@[i], column as int),
        decreases rows@.len() - m,
    {
        let x = matrix[rows[m]][column];
        if x < best {
            best = x;
            assert(cell(matrix@, rows@[m as int], column as int) == best);
        }
        m = m + 1;
    }
    Some(best)
}

/// The smallest value of `column` among `rows` above `v`; `None` when there is none.
fn next_value(matrix: &[Vec<i64>], rows: &[usize], column: usize, v: i64) -> (n: Option<i64>)
    requires
        forall|i: int| 0 <= i < rows@.len() ==> (#[trigger] rows@[i]) < matrix@.len(),
        forall|r: int| 0 <= r < matrix@.len() ==> column < (#[trigger] matrix@[r])@.len(),
    ensures
        n is None <==> !exceeds(matrix@, rows@, column as int, v as int),
        n matches Some(x) ==> v < x && takes_value(matrix@, rows@, column as int, x as int) && forall|i: int|
            0 <= i < rows@.len() && v < cell(matrix@, #[trigger] rows@[i], column as int) ==> x <= cell(
                matrix@,
                rows@[i],
                column as int,
            ),
{
    let mut best: Option<i64> = None;
    let mut m: usize = 0;
    while m < rows.len()
        invariant
            forall|i: int| 0 <= i < rows@.len() ==> (#[trigger] rows@[i]) < matrix@.len(),
            forall|r: int| 0 <= r < matrix@.len() ==> column < (#[trigger] matrix@[r])@.len(),
            m <= rows@.len(),
            best is None ==> forall|i: int|
                0 <= i < m ==> cell(matrix@, #[trigger] rows@[i], column as int) <= v,
            best matches Some(x) ==> v < x && takes_value(matrix@, rows@, column as int, x as int)
                && forall|i: int|
                0 <= i < m && v < cell(matrix@, #[trigger] rows@[i], column as int) ==> x <= cell(
                    matrix@,
                    rows@[i],
                    column as int,
                ),
        decreases rows@.len() - m,
    {
        let x = matrix[rows[m]][column];
        if x > v {
            match best {
                None => {
                    best = Some(x);
                    assert(cell(matrix@, rows@[m as int], column as int) == x);
                },
                Some(b) => {
                    if x < b {
                        best = Some(x);
                        assert(cell(matrix@, rows@[m as int], column as int) == x);
                    }
                },
            }
        }
        m = m + 1;
    }
    proof {
        if best is None {
            assert forall|i: int| 0 <= i < rows@.len() implies !(cell(matrix@, #[trigger] rows@[i], column as int) > v) by {}
        } else {
            let x = best->0;
            let i = choose|i: int| 0 <= i < rows@.len() && cell(matrix@, #[trigger] rows@[i], column as int) == x;
            assert(cell(matrix@, rows@[i], column as int) > v);
        }
    }
    best
}

/// Splits `rows` into those with `x[column] <= threshold` and the rest, keeping their order.
fn split_rows(matrix: &[Vec<i64>], rows: &[usize], column: usize, threshold: i64) -> (s: (Vec<usize>, Vec<usize>))
    requires
        forall|i: int| 0 <= i < rows@.len() ==> (#[trigger] rows@[i]) < matrix@.len(),
        forall|r: int| 0 <= r < matrix@.len() ==> column < (#[trigger] matrix@[r])@.len(),
    ensures
        s.0@ == left_rows(matrix@, rows@, column as int, threshold as int),
        s.1@ == right_rows(matrix@, rows@, column as int, threshold as int),
{
    let mut left: Vec<usize> = Vec::new();
    let mut right: Vec<usize> = Vec::new();
    let mut m: usize = 0;
    while m < rows.len()
        invariant
            forall|i: int| 0 <= i < rows@.len() ==> (#[trigger] rows@[i]) < matrix@.len(),
            forall|r: int| 0 <= r < matrix@.len() ==> column < (#[trigger] matrix@[r])@.len(),
            m <= rows@.len(),
            left@ == side(matrix@, rows@, column as int, threshold as int, true, m as int),
            right@ == side(matrix@, rows@, column as int, threshold as int, false, m as int),
        decreases rows@.len() - m,
    {
        let r = rows[m];
        if matrix[r][column] <= threshold {
            left.push(r);
        } else {
            right.push(r);
        }
        m = m + 1;
    }
    (left, right)
}

pub(crate) proof fn lemma_side_len(m: Seq<Vec<i64>>, rows: Seq<usize>, column: int, threshold: int, len: int)
    requires
        0 <= len <= rows.len(),
    ensures
        side(m, rows, column, threshold, true, len).len() + side(m, rows, column, threshold, false, len).len()
            == len,
    decreases len,
{
    if len > 0 {
        lemma_side_len(m, rows, column, threshold, len - 1);
    }
}

proof fn lemma_side_has(m: Seq<Vec<i64>>, rows: Seq<usize>, column: int, threshold: int, below: bool, i: int, len: int)
    requires
        0 <= i < len <= rows.len(),
        (cell(m, rows[i], column) <= threshold) == below,
    ensures
        side(m, rows, column, threshold, below, len).len() >= 1,
    decreases len,
{
    if i < len - 1 {
        lemma_side_has(m, rows, column, threshold, below, i, len - 1);
    }
}

pub(crate) proof fn lemma_side_within(m: Seq<Vec<i64>>, rows: Seq<usize>, column: int, threshold: int, below: bool, len: int, bound: int)
    requires
        0 <= len <= rows.len(),
        forall|i: int| 0 <= i < rows.len() ==> (#[trigger] rows[i]) < bound,
    ensures
        forall|i: int|
            0 <= i < side(m, rows, column, threshold, below, len).len() ==> (#[trigger] side(
                m,
                rows,
                column,
                threshold,
                below,
                len,
            )[i]) < bound,
        side(m, rows, column, threshold, below, len).len() <= len,
    decreases len,
{
    if len > 0 {
        lemma_side_within(m, rows, column, threshold, below, len - 1, bound);
    }
}

proof fn lemma_label_count_bound(labels: Seq<usize>, rows: Seq<usize>, k: int, m: int)
    requires
        0 <= m,
    ensures
        0 <= label_count(labels, rows, k, m) <= m,
    decreases m,
{
    if m > 0 {
        lemma_label_count_bound(labels, rows, k, m - 1);
    }
}

proof fn lemma_label_count_agree(labels: Seq<usize>, a: Seq<usize>, b: Seq<usize>, k: int, m: int)
    requires
        0 <= m <= a.len(),
        m <= b.len(),
        forall|i: int| 0 <= i < m ==> a[i] == b[i],
    ensures
        label_count(labels, a, k, m) == label_count(labels, b, k, m),
    decreases m,
{
    if m > 0 {
        lemma_label_count_agree(labels, a, b, k, m - 1);
    }
}

proof fn lemma_label_count_sides(labels: Seq<usize>, m: Seq<Vec<i64>>, rows: Seq<usize>, column: int, threshold: int, k: int, len: int)
    requires
        0 <= len <= rows.len(),
    ensures
        label_count(labels, rows, k, len) == label_count(
            labels,
            side(m, rows, column, threshold, true, len),
            k,
            side(m, rows, column, threshold, true, len).len() as int,
        ) + label_count(
            labels,
            side(m, rows, column, threshold, false, len),
            k,
            side(m, rows, column, threshold, false, len).len() as int,
        ),
    decreases len,
{
    if len > 0 {
        lemma_label_count_sides(labels, m, rows, column, threshold, k, len - 1);
        let below = cell(m, rows[len - 1], column) <= threshold;
        let grown = side(m, rows, column, threshold, below, len);
        let prev = side(m, rows, column, threshold, below, len - 1);
        assert(grown == prev.push(rows[len - 1]));
        lemma_label_count_agree(labels, grown, prev, k, prev.len() as int);
    }
}

/// Class counts of `rows` are those of its two sides added.
proof fn lemma_counts_split(labels: Seq<usize>, m: Seq<Vec<i64>>, rows: Seq<usize>, n_classes: int, column: int, threshold: int)
    requires
        0 <= n_classes,
        rows.len() <= u64::MAX,
    ensures
        forall|k: int|
            0 <= k < n_classes ==> #[trigger] class_counts(labels, rows, n_classes)[k] == class_counts(
                labels,
                left_rows(m, rows, column, threshold),
                n_classes,
            )[k] + class_counts(labels, right_rows(m, rows, column, threshold), n_classes)[k],
{
    let l = left_rows(m, rows, column, threshold);
    let r = right_rows(m, rows, column, threshold);
    assert forall|k: int| 0 <= k < n_classes implies #[trigger] class_counts(labels, rows, n_classes)[k]
        == class_counts(labels, l, n_classes)[k] + class_counts(labels, r, n_classes)[k] by {
        lemma_label_count_sides(labels, m, rows, column, threshold, k, rows.len() as int);
        lemma_label_count_bound(labels, rows, k, rows.len() as int);
        lemma_label_count_bound(labels, l, k, l.len() as int);
        lemma_label_count_bound(labels, r, k, r.len() as int);
        lemma_side_len(m, rows, column, threshold, rows.len() as int);
    }
}

/// Both sides of a candidate hold rows, and together they hold all of `rows`.
proof fn lemma_candidate_sides(m: Seq<Vec<i64>>, rows: Seq<usize>, min_leaf: int, column: int, threshold: int)
    requires
        is_candidate(m, rows, min_leaf, column, threshold),
    ensures
        left_rows(m, rows, column, threshold).len() >= 1,
        right_rows(m, rows, column, threshold).len() >= 1,
        left_rows(m, rows, column, threshold).len() + right_rows(m, rows, column, threshold).len() == rows.len(),
{
    let i = choose|i: int| 0 <= i < rows.len() && cell(m, #[trigger] rows[i], column) == threshold;
    let j = choose|j: int| 0 <= j < rows.len() && cell(m, #[trigger] rows[j], column) > threshold;
    lemma_side_has(m, rows, column, threshold, true, i, rows.len() as int);
    lemma_side_has(m, rows, column, threshold, false, j, rows.len() as int);
    lemma_side_len(m, rows, column, threshold, rows.len() as int);
}

/// What `fit` takes: one label per row, every row as wide as the first, and labels below
/// `n_classes`.
pub open spec fn fit_input(m: Seq<Vec<i64>>, labels: Seq<usize>, n_classes: int) -> bool {
    &&& labels.len() == m.len()
    &&& m.len() <= usize::MAX
    &&& forall|r: int| 0 <= r < m.len() ==> (#[trigger] m[r])@.len() == n_columns(m)
    &&& forall|i: int| 0 <= i < labels.len() ==> (#[trigger] labels[i]) < n_classes
}

/// What the class counts of a row set add up to.
proof fn lemma_class_counts(labels: Seq<usize>, rows: Seq<usize>, n_classes: int)
    requires
        0 <= n_classes,
        rows.len() <= u64::MAX,
        forall|i: int| 0 <= i < rows.len() ==> (#[trigger] rows[i]) < labels.len(),
        forall|i: int| 0 <= i < labels.len() ==> (#[trigger] labels[i]) < n_classes,
    ensures
        forall|k: int|
            0 <= k < n_classes ==> #[trigger] class_counts(labels, rows, n_classes)[k] == label_count(
                labels,
                rows,
                k,
                rows.len() as int,
            ),
        sum_counts(class_counts(labels, rows, n_classes), n_classes) == rows.len(),
        0 <= purity(labels, rows, n_classes) <= rows.len() * rows.len(),
{
    let cs = class_counts(labels, rows, n_classes);
    assert forall|k: int| 0 <= k < n_classes implies #[trigger] cs[k] == label_count(labels, rows, k, rows.len() as int) by {
        lemma_label_count_bound(labels, rows, k, rows.len() as int);
    }
    lemma_sum_label_counts(labels, rows, cs, n_classes, rows.len() as int);
    lemma_sum_squares_bound(cs, n_classes);
}

/// Sizes and purities of the two sides of a candidate.
proof fn lemma_candidate_stats(m: Seq<Vec<i64>>, labels: Seq<usize>, rows: Seq<usize>, n_classes: int, min_leaf: int, column: int, threshold: int)
    requires
        is_candidate(m, rows, min_leaf, column, threshold),
        0 <= n_classes,
        rows.len() <= u64::MAX,
        forall|i: int| 0 <= i < rows.len() ==> (#[trigger] rows[i]) < labels.len(),
        forall|i: int| 0 <= i < labels.len() ==> (#[trigger] labels[i]) < n_classes,
    ensures
        ({
            let s = stats(m, labels, rows, n_classes, column, threshold);
            &&& 1 <= s.1 && 1 <= s.3 && s.1 + s.3 == rows.len()
            &&& 0 <= s.0 <= s.1 * s.1
            &&& 0 <= s.2 <= s.3 * s.3
        }),
{
    let l = left_rows(m, rows, column, threshold);
    let r = right_rows(m, rows, column, threshold);
    lemma_candidate_sides(m, rows, min_leaf, column, threshold);
    lemma_side_within(m, rows, column, threshold, true, rows.len() as int, labels.len() as int);
    lemma_side_within(m, rows, column, threshold, false, rows.len() as int, labels.len() as int);
    lemma_class_counts(labels, l, n_classes);
    lemma_class_counts(labels, r, n_classes);
}

/// The sizes of a split's sides multiply to at most 2¹²⁶.
proof fn lemma_score_fits(n1: int, n2: int)
    requires
        0 <= n1,
        0 <= n2,
        n1 + n2 <= u64::MAX,
    ensures
        0 <= n1 * n2 <= 0x4000_0000_0000_0000_0000_0000_0000_0000,
{
    lemma_sides_product(n1, n2);
    assert(0 <= n1 * n2) by (nonlinear_arith)
        requires
            0 <= n1,
            0 <= n2,
    ;
}

/// Comparing weighted purities is a strict weak order on splits with non-empty sides.
proof fn lemma_outscores_order(x: (int, int, int, int), y: (int, int, int, int), z: (int, int, int, int))
    requires
        x.1 >= 1 && x.3 >= 1 && y.1 >= 1 && y.3 >= 1 && z.1 >= 1 && z.3 >= 1,
        !outscores(x, y),
        outscores(z, y),
    ensures
        outscores(z, x),
{
    let nx = x.0 * x.3 + x.2 * x.1;
    let ny = y.0 * y.3 + y.2 * y.1;
    let nz = z.0 * z.3 + z.2 * z.1;
    let dx = x.1 * x.3;
    let dy = y.1 * y.3;
    let dz = z.1 * z.3;
    assert(dx > 0 && dy > 0 && dz > 0) by (nonlinear_arith)
        requires
            x.1 >= 1 && x.3 >= 1 && y.1 >= 1 && y.3 >= 1 && z.1 >= 1 && z.3 >= 1,
            dx == x.1 * x.3,
            dy == y.1 * y.3,
            dz == z.1 * z.3,
    ;
    assert(nz * dx > nx * dz) by (nonlinear_arith)
        requires
            dx > 0,
            dy > 0,
            dz > 0,
            nx * dy <= ny * dx,
            nz * dy > ny * dz,
    {
        assert(nx * dy * dz <= ny * dx * dz);
        assert(nz * dy * dx > ny * dz * dx);
        assert((nz * dx - nx * dz) * dy > 0);
    }
}

/// At most one split is the best.
proof fn lemma_best_unique(m: Seq<Vec<i64>>, labels: Seq<usize>, rows: Seq<usize>, n_classes: int, min_leaf: int, c1: int, v1: int, c2: int, v2: int)
    requires
        is_best_split(m, labels, rows, n_classes, min_leaf, c1, v1),
        is_best_split(m, labels, rows, n_classes, min_leaf, c2, v2),
    ensures
        c1 == c2 && v1 == v2,
{
    if precedes(c1, v1, c2, v2) {
        assert(is_candidate(m, rows, min_leaf, c1, v1));
    } else if precedes(c2, v2, c1, v1) {
        assert(is_candidate(m, rows, min_leaf, c2, v2));
    }
}

/// Whether `(c, v)` lies before the search frontier `(column, bound)`.
spec fn covered(c: int, v: int, column: int, bound: int) -> bool {
    c < column || (c == column && v < bound)
}

/// The search state: `best` is the best of the candidates before the frontier, `None` when
/// there is none.
spec fn search_state(
    m: Seq<Vec<i64>>,
    labels: Seq<usize>,
    rows: Seq<usize>,
    n_classes: int,
    min_leaf: int,
    best: Option<(u128, u128, u128, u128, usize, i64)>,
    column: int,
    bound: int,
) -> bool {
    match best {
        None => forall|c: int, v: int| #[trigger]
            is_candidate(m, rows, min_leaf, c, v) ==> !covered(c, v, column, bound),
        Some((al, nl, ar, nr, bc, bv)) => {
            &&& is_candidate(m, rows, min_leaf, bc as int, bv as int)
            &&& covered(bc as int, bv as int, column, bound)
            &&& (al as int, nl as int, ar as int, nr as int) == stats(m, labels, rows, n_classes, bc as int, bv as int)
            &&& forall|c: int, v: int| #[trigger]
                is_candidate(m, rows, min_leaf, c, v) && covered(c, v, column, bound) ==> !outscores(
                    stats(m, labels, rows, n_classes, c, v),
                    stats(m, labels, rows, n_classes, bc as int, bv as int),
                ) && (precedes(c, v, bc as int, bv as int) ==> outscores(
                    stats(m, labels, rows, n_classes, bc as int, bv as int),
                    stats(m, labels, rows, n_classes, c, v),
                ))
        },
    }
}

proof fn lemma_state_extend(m: Seq<Vec<i64>>, labels: Seq<usize>, rows: Seq<usize>, n_classes: int, min_leaf: int, best: Option<(u128, u128, u128, u128, usize, i64)>, column: int, b1: int, c2: int, b2: int)
    requires
        search_state(m, labels, rows, n_classes, min_leaf, best, column, b1),
        column <= c2,
        column == c2 ==> b1 <= b2,
        forall|c: int, v: int|
            #[trigger] is_candidate(m, rows, min_leaf, c, v) && covered(c, v, c2, b2) ==> covered(c, v, column, b1),
    ensures
        search_state(m, labels, rows, n_classes, min_leaf, best, c2, b2),
{
}

proof fn lemma_state_take(m: Seq<Vec<i64>>, labels: Seq<usize>, rows: Seq<usize>, n_classes: int, min_leaf: int, best: Option<(u128, u128, u128, u128, usize, i64)>, column: int, v: int, cand: (u128, u128, u128, u128, usize, i64), next: Option<(u128, u128, u128, u128, usize, i64)>)
    requires
        search_state(m, labels, rows, n_classes, min_leaf, best, column, v),
        0 <= n_classes,
        rows.len() <= u64::MAX,
        forall|i: int| 0 <= i < rows.len() ==> (#[trigger] rows[i]) < labels.len(),
        forall|i: int| 0 <= i < labels.len() ==> (#[trigger] labels[i]) < n_classes,
        is_candidate(m, rows, min_leaf, column, v),
        cand.4 == column,
        cand.5 == v,
        (cand.0 as int, cand.1 as int, cand.2 as int, cand.3 as int) == stats(m, labels, rows, n_classes, column, v),
        next == (match best {
            None => Some(cand),
            Some(b) => if outscores(
                stats(m, labels, rows, n_classes, column, v),
                stats(m, labels, rows, n_classes, b.4 as int, b.5 as int),
            ) {
                Some(cand)
            } else {
                Some(b)
            },
        }),
    ensures
        search_state(m, labels, rows, n_classes, min_leaf, next, column, v + 1),
{
    let sc = stats(m, labels, rows, n_classes, column, v);
    lemma_candidate_stats(m, labels, rows, n_classes, min_leaf, column, v);
    match best {
        None => {},
        Some(b) => {
            let bc = b.4 as int;
            let bv = b.5 as int;
            let sb = stats(m, labels, rows, n_classes, bc, bv);
            lemma_candidate_stats(m, labels, rows, n_classes, min_leaf, bc, bv);
            if outscores(sc, sb) {
                assert forall|c: int, v2: int| #[trigger]
                    is_candidate(m, rows, min_leaf, c, v2) && covered(c, v2, column, v + 1) implies !outscores(
                        stats(m, labels, rows, n_classes, c, v2),
                        sc,
                    ) && (precedes(c, v2, column, v) ==> outscores(sc, stats(m, labels, rows, n_classes, c, v2))) by {
                    if c != column || v2 != v {
                        lemma_candidate_stats(m, labels, rows, n_classes, min_leaf, c, v2);
                        lemma_outscores_order(stats(m, labels, rows, n_classes, c, v2), sb, sc);
                    }
                }
            }
        },
    }
}

/// Once every column is searched, the search state names the best split, if any.
proof fn lemma_search_done(m: Seq<Vec<i64>>, labels: Seq<usize>, rows: Seq<usize>, n_classes: int, min_leaf: int, best: Option<(u128, u128, u128, u128, usize, i64)>)
    requires
        search_state(m, labels, rows, n_classes, min_leaf, best, n_columns(m), i64::MIN as int),
    ensures
        best is None ==> chosen_split(m, labels, rows, n_classes, min_leaf) is None,
        best matches Some(b) ==> chosen_split(m, labels, rows, n_classes, min_leaf) == (if improves(
            m,
            labels,
            rows,
            n_classes,
            b.4 as int,
            b.5 as int,
        ) {
            Some((b.4 as int, b.5 as int))
        } else {
            None
        }),
{
    match best {
        None => {
            assert forall|c: int, v: int| !is_best_split(m, labels, rows, n_classes, min_leaf, c, v) by {
                if is_candidate(m, rows, min_leaf, c, v) {
                    assert(covered(c, v, n_columns(m), i64::MIN as int));
                }
            }
        },
        Some(b) => {
            let bc = b.4 as int;
            let bv = b.5 as int;
            assert(is_best_split(m, labels, rows, n_classes, min_leaf, bc, bv));
            let (c, v) = choose|c: int, v: int| is_best_split(m, labels, rows, n_classes, min_leaf, c, v);
            lemma_best_unique(m, labels, rows, n_classes, min_leaf, c, v, bc, bv);
        },
    }
}

/// Finds the split applied to `rows`: the best candidate (first in search order among equals)
/// when it strictly beats the parent, with the rows on each side.
fn best_split(
    matrix: &[Vec<i64>],
    labels: &[usize],
    n_classes: usize,
    min_leaf: usize,
    rows: &[usize],
    parent: &Counts,
) -> (res: Option<(usize, i64, Vec<usize>, Vec<usize>)>)
    requires
        fit_input(matrix@, labels@, n_classes as int),
        forall|i: int| 0 <= i < rows@.len() ==> (#[trigger] rows@[i]) < matrix@.len(),
        rows@.len() <= matrix@.len(),
        parent.counts@ == class_counts(labels@, rows@, n_classes as int),
        parent.a == purity(labels@, rows@, n_classes as int),
        parent.n == rows@.len(),
    ensures
        res is None <==> chosen_split(matrix@, labels@, rows@, n_classes as int, min_leaf as int) is None,
        res matches Some((c, v, l, r)) ==> chosen_split(
            matrix@,
            labels@,
            rows@,
            n_classes as int,
            min_leaf as int,
        ) == Some((c as int, v as int)) && l@ == left_rows(matrix@, rows@, c as int, v as int) && r@
            == right_rows(matrix@, rows@, c as int, v as int),
{
    let ghost m = matrix@;
    let ghost ls = labels@;
    let ghost rs = rows@;
    let ghost k = n_classes as int;
    let ghost ml = min_leaf as int;
    let width: usize = if matrix.len() > 0 {
        matrix[0].len()
    } else {
        0
    };
    proof {
        lemma_class_counts(ls, rs, k);
    }
    let mut best: Option<(u128, u128, u128, u128, usize, i64)> = None;
    let mut column: usize = 0;
    while column < width
        invariant
            fit_input(m, ls, k),
            m == matrix@,
            ls == labels@,
            rs == rows@,
            k == n_classes,
            ml == min_leaf,
            width == n_columns(m),
            forall|i: int| 0 <= i < rs.len() ==> (#[trigger] rs[i]) < m.len(),
            rs.len() <= m.len(),
            parent.counts@ == class_counts(ls, rs, k),
            parent.a == purity(ls, rs, k),
            parent.n == rs.len(),
            sum_counts(parent.counts@, k) == rs.len(),
            column <= width,
            search_state(m, ls, rs, k, ml, best, column as int, i64::MIN as int),
        decreases width - column,
    {
        let mut cur = column_min(matrix, rows, column);
        proof {
            if cur is None {
                lemma_state_extend(m, ls, rs, k, ml, best, column as int, i64::MIN as int, column + 1, i64::MIN as int);
            } else {
                let f = cur->0 as int;
                assert forall|c: int, v: int| #[trigger]
                    is_candidate(m, rs, ml, c, v) && covered(c, v, column as int, f) implies covered(c, v, column as int, i64::MIN as int) by {
                    if c == column {
                        let i = choose|i: int| 0 <= i < rs.len() && cell(m, #[trigger] rs[i], c) == v;
                    }
                }
                lemma_state_extend(m, ls, rs, k, ml, best, column as int, i64::MIN as int, column as int, f);
            }
        }
        while cur.is_some()
            invariant
                fit_input(m, ls, k),
                m == matrix@,
                ls == labels@,
                rs == rows@,
                k == n_classes,
                ml == min_leaf,
                width == n_columns(m),
                forall|i: int| 0 <= i < rs.len() ==> (#[trigger] rs[i]) < m.len(),
                rs.len() <= m.len(),
                parent.counts@ == class_counts(ls, rs, k),
                parent.a == purity(ls, rs, k),
                parent.n == rs.len(),
                sum_counts(parent.counts@, k) == rs.len(),
                column < width,
                cur matches Some(f) ==> takes_value(m, rs, column as int, f as int) && search_state(
                    m,
                    ls,
                    rs,
                    k,
                    ml,
                    best,
                    column as int,
                    f as int,
                ),
                cur is None ==> search_state(m, ls, rs, k, ml, best, column + 1, i64::MIN as int),
            decreases (match cur {
                Some(f) => i64::MAX - f + 1,
                None => 0,
            }),
        {
            let value = cur.unwrap();
            let next = next_value(matrix, rows, column, value);
            let ghost before = best;
            if next.is_some() {
                let (left, _right) = split_rows(matrix, rows, column, value);
                proof {
                    lemma_side_within(m, rs, column as int, value as int, true, rs.len() as int, ls.len() as int);
                    lemma_side_len(m, rs, column as int, value as int, rs.len() as int);
                }
                let left_counts = Counts::from_rows(labels, &left, n_classes);
                let left_n = left_counts.n;
                let right_n = parent.n - left_n;
                if left_n >= min_leaf as u128 && right_n >= min_leaf as u128 {
                    let ghost lr = left_rows(m, rs, column as int, value as int);
                    let ghost rr = right_rows(m, rs, column as int, value as int);
                    proof {
                        lemma_side_within(m, rs, column as int, value as int, false, rs.len() as int, ls.len() as int);
                        lemma_class_counts(ls, lr, k);
                        lemma_class_counts(ls, rr, k);
                        lemma_counts_split(ls, m, rs, k, column as int, value as int);
                        assert(left_counts.counts@ =~= class_counts(ls, lr, k));
                        lemma_sum_right_bound(parent.counts@, left_counts.counts@, class_counts(ls, rr, k), k);
                    }
                    let right_a = parent.right_a_from_counts(&left_counts.counts);
                    let left_a = left_counts.a;
                    let candidate = (left_a, left_n, right_a, right_n, column, value);
                    proof {
                        assert(is_candidate(m, rs, ml, column as int, value as int));
                        lemma_candidate_stats(m, ls, rs, k, ml, column as int, value as int);
                        lemma_score_fits(left_n as int, right_n as int);
                    }
                    best = match best {
                        None => Some(candidate),
                        Some(current) => {
                            let (bl, bn, br, brn, _, _) = current;
                            proof {
                                lemma_candidate_stats(m, ls, rs, k, ml, current.4 as int, current.5 as int);
                                lemma_score_fits(bn as int, brn as int);
                            }
                            if beats(left_a, left_n, right_a, right_n, bl, bn, br, brn) {
                                Some(candidate)
                            } else {
                                Some(current)
                            }
                        },
                    };
                    proof {
                        lemma_state_take(m, ls, rs, k, ml, before, column as int, value as int, candidate, best);
                    }
                } else {
                    proof {
                        assert(!is_candidate(m, rs, ml, column as int, value as int));
                        lemma_state_extend(m, ls, rs, k, ml, best, column as int, value as int, column as int, value + 1);
                    }
                }
            } else {
                proof {
                    lemma_state_extend(m, ls, rs, k, ml, best, column as int, value as int, column as int, value + 1);
                }
            }
            proof {
                match next {
                    Some(nv) => {
                        assert forall|c: int, v: int| #[trigger]
                            is_candidate(m, rs, ml, c, v) && covered(c, v, column as int, nv as int) implies covered(c, v, column as int, value + 1) by {
                            if c == column && v > value {
                                let i = choose|i: int| 0 <= i < rs.len() && cell(m, #[trigger] rs[i], c) == v;
                            }
                        }
                        lemma_state_extend(m, ls, rs, k, ml, best, column as int, value + 1, column as int, nv as int);
                    },
                    None => {
                        assert forall|c: int, v: int| #[trigger]
                            is_candidate(m, rs, ml, c, v) && covered(c, v, column + 1, i64::MIN as int) implies covered(c, v, column as int, value + 1) by {
                            if c == column && v > value {
                                let i = choose|i: int| 0 <= i < rs.len() && cell(m, #[trigger] rs[i], c) > v;
                            }
                        }
                        lemma_state_extend(m, ls, rs, k, ml, best, column as int, value + 1, column + 1, i64::MIN as int);
                    },
                }
            }
            cur = next;
        }
        column = column + 1;
    }
    proof {
        lemma_search_done(m, ls, rs, k, ml, best);
    }
    match best {
        None => None,
        Some((al, nl, ar, nr, column, threshold)) => {
            proof {
                lemma_candidate_stats(m, ls, rs, k, ml, column as int, threshold as int);
                lemma_score_fits(nl as int, nr as int);
            }
            let improves = beats(al, nl, ar, nr, parent.a, parent.n, 0, 1);
            proof {
                assert((al * nr + ar * nl) * (parent.n * 1) == (al * nr + ar * nl) * parent.n);
                assert((parent.a * 1 + 0 * parent.n) * (nl * nr) == parent.a * (nl * nr));
            }
            if !improves {
                return None;
            }
            let (left_rows, right_rows) = split_rows(matrix, rows, column, threshold);
            Some((column, threshold, left_rows, right_rows))
        },
    }
}

/// A node of a fitted [`Tree`].
#[derive(Debug, PartialEq)]
pub enum Node {
    /// A terminal node predicting a single class.
    Leaf {
        /// The modal label of `rows` (ties resolve to the lowest label).
        class: usize,
        /// Indices into the fitted matrix of the rows that reached this node, ascending.
        rows: Vec<usize>,
    },
    /// An internal node partitioning rows on a single column.
    Split {
        /// The column the split tests.
        column: usize,
        /// Rows with `x[column] <= threshold` go left; all others go right.
        threshold: i64,
        /// The left child, holding rows with `x[column] <= threshold`.
        left: Box<Node>,
        /// The right child, holding rows with `x[column] > threshold`.
        right: Box<Node>,
        /// Indices into the fitted matrix of the rows that reached this node, ascending.
        rows: Vec<usize>,
    },
}

impl Node {
    /// The node as a mathematical value.
    pub open spec fn model(self) -> NodeModel
        decreases self,
    {
        match self {
            Node::Leaf { class, rows } => NodeModel::Leaf { class: class as int, rows: rows@ },
            Node::Split { column, threshold, left, right, rows } => NodeModel::Split {
                column: column as int,
                threshold: threshold as int,
                left: Box::new((*left).model()),
                right: Box::new((*right).model()),
                rows: rows@,
            },
        }
    }
}

impl Clone for Node {
    fn clone(&self) -> (c: Self)
        ensures
            c.model() == self.model(),
        decreases self,
    {
        match self {
            Node::Leaf { class, rows } => Node::Leaf { class: *class, rows: rows.clone() },
            Node::Split { column, threshold, left, right, rows } => {
                let l: Node = (**left).clone();
                let r: Node = (**right).clone();
                Node::Split {
                    column: *column,
                    threshold: *threshold,
                    left: Box::new(l),
                    right: Box::new(r),
                    rows: rows.clone(),
                }
            },
        }
    }
}

/// A fitted decision tree.
#[derive(Clone, Debug, PartialEq)]
pub struct Tree {
    /// The root node.
    pub root: Node,
}

impl Tree {
    /// The number of splits on the longest root-to-leaf path; a root-only leaf has depth 0.
    pub fn depth(&self) -> (d: usize)
        requires
            model_depth(self.root.model()) <= usize::MAX,
        ensures
            d == model_depth(self.root.model()),
    {
        node_depth(&self.root)
    }
}

fn node_depth(node: &Node) -> (d: usize)
    requires
        model_depth(node.model()) <= usize::MAX,
    ensures
        d == model_depth(node.model()),
    decreases node,
{
    match node {
        Node::Leaf { .. } => 0,
        Node::Split { left, right, .. } => {
            let l = node_depth(left);
            let r = node_depth(right);
            1 + if l >= r {
                l
            } else {
                r
            }
        },
    }
}

/// Grows the subtree for `rows` at `depth`.
fn build(
    matrix: &[Vec<i64>],
    labels: &[usize],
    n_classes: usize,
    max_depth: usize,
    min_leaf: usize,
    rows: Vec<usize>,
    depth: usize,
) -> (node: Node)
    requires
        fit_input(matrix@, labels@, n_classes as int),
        forall|i: int| 0 <= i < rows@.len() ==> (#[trigger] rows@[i]) < matrix@.len(),
        1 <= rows@.len(),
        depth + rows@.len() <= matrix@.len(),
    ensures
        node.model() == grow(
            matrix@,
            labels@,
            n_classes as int,
            max_depth as int,
            min_leaf as int,
            rows@,
            depth as int,
        ),
        model_depth(node.model()) < rows@.len(),
    decreases rows@.len(),
{
    let ghost m = matrix@;
    let ghost ls = labels@;
    let ghost k = n_classes as int;
    let parent = Counts::from_rows(labels, &rows, n_classes);
    proof {
        lemma_class_counts(ls, rows@, k);
        assert(parent.counts@ =~= class_counts(ls, rows@, k));
    }
    if parent.is_pure() || (max_depth != 0 && depth == max_depth) {
        let class = parent.modal_class();
        return Node::Leaf { class, rows };
    }
    match best_split(matrix, labels, n_classes, min_leaf, &rows, &parent) {
        Some((column, threshold, left_rows, right_rows)) => {
            proof {
                let (c0, v0) = choose|c: int, v: int| is_best_split(m, ls, rows@, k, min_leaf as int, c, v);
                assert(is_best_split(m, ls, rows@, k, min_leaf as int, c0, v0));
                lemma_candidate_sides(m, rows@, min_leaf as int, column as int, threshold as int);
                lemma_side_within(m, rows@, column as int, threshold as int, true, rows@.len() as int, m.len() as int);
                lemma_side_within(m, rows@, column as int, threshold as int, false, rows@.len() as int, m.len() as int);
            }
            let left = build(matrix, labels, n_classes, max_depth, min_leaf, left_rows, depth + 1);
            let right = build(matrix, labels, n_classes, max_depth, min_leaf, right_rows, depth + 1);
            Node::Split { column, threshold, left: Box::new(left), right: Box::new(right), rows }
        },
        None => {
            let class = parent.modal_class();
            Node::Leaf { class, rows }
        },
    }
}

/// Fits a deterministic CART classifier to `matrix`/`labels`.
///
/// `n_classes` is the number of label values (labels are `0..n_classes`). `max_depth` of `0`
/// means unlimited depth; otherwise the root is depth `0` and `max_depth == 1` allows exactly one
/// split. `min_leaf` is the fewest rows a candidate split's child must have. An empty `matrix`
/// gives a lone `Leaf { class: 0, rows: vec![] }`.
pub fn fit(matrix: &[Vec<i64>], labels: &[usize], n_classes: usize, max_depth: usize, min_leaf: usize) -> (tree: Tree)
    requires
        fit_input(matrix@, labels@, n_classes as int),
    ensures
        tree.root.model() == grow(
            matrix@,
            labels@,
            n_classes as int,
            max_depth as int,
            min_leaf as int,
            all_rows(matrix@.len() as int),
            0,
        ),
        model_depth(tree.root.model()) <= matrix@.len(),
{
    if matrix.len() == 0 {
        proof {
            let counts = class_counts(labels@, all_rows(0), n_classes as int);
            assert(all_rows(0) =~= Seq::<usize>::empty());
            assert forall|j: int| 0 <= j < counts.len() implies counts[j] == 0 by {}
            lemma_modal_unique(counts, 0);
        }
        return Tree { root: Node::Leaf { class: 0, rows: Vec::new() } };
    }
    let mut rows: Vec<usize> = Vec::new();
    let mut i: usize = 0;
    while i < matrix.len()
        invariant
            i <= matrix@.len(),
            rows@ == all_rows(i as int),
        decreases matrix@.len() - i,
    {
        rows.push(i);
        i = i + 1;
        proof {
            assert(rows@ =~= all_rows(i as int));
        }
    }
    let root = build(matrix, labels, n_classes, max_depth, min_leaf, rows, 0);
    Tree { root }
}

/// The rows that reached a node.
pub open spec fn node_rows(node: NodeModel) -> Seq<usize> {
    match node {
        NodeModel::Leaf { rows, .. } => rows,
        NodeModel::Split { rows, .. } => rows,
    }
}

/// Every leaf is labelled with the modal class of its rows, and every split sends the rows with
/// `x[column] <= threshold` left and the others right, at least `max(min_leaf, 1)` each way.
pub open spec fn is_sound_tree(
    node: NodeModel,
    m: Seq<Vec<i64>>,
    labels: Seq<usize>,
    n_classes: int,
    min_leaf: int,
) -> bool
    decreases node,
{
    match node {
        NodeModel::Leaf { class, rows } => class == modal(class_counts(labels, rows, n_classes)),
        NodeModel::Split { column, threshold, left, right, rows } => {
            &&& node_rows(*left) == left_rows(m, rows, column, threshold)
            &&& node_rows(*right) == right_rows(m, rows, column, threshold)
            &&& node_rows(*left).len() >= min_leaf && node_rows(*left).len() >= 1
            &&& node_rows(*right).len() >= min_leaf && node_rows(*right).len() >= 1
            &&& is_sound_tree(*left, m, labels, n_classes, min_leaf)
            &&& is_sound_tree(*right, m, labels, n_classes, min_leaf)
        },
    }
}

/// A grown tree is sound: leaves carry the modal class of their rows and every split partitions
/// its rows by the threshold with at least `min_leaf` rows (and at least one) on each side.
pub proof fn lemma_grow_sound(
    m: Seq<Vec<i64>>,
    labels: Seq<usize>,
    n_classes: int,
    max_depth: int,
    min_leaf: int,
    rows: Seq<usize>,
    depth: int,
)
    ensures
        is_sound_tree(grow(m, labels, n_classes, max_depth, min_leaf, rows, depth), m, labels, n_classes, min_leaf),
        node_rows(grow(m, labels, n_classes, max_depth, min_leaf, rows, depth)) == rows,
    decreases rows.len(),
{
    let counts = class_counts(labels, rows, n_classes);
    if all_one_class(counts) || (max_depth != 0 && depth == max_depth) {
    } else {
        match chosen_split(m, labels, rows, n_classes, min_leaf) {
            Some((c, v)) => {
                let l = left_rows(m, rows, c, v);
                let r = right_rows(m, rows, c, v);
                if l.len() < rows.len() && r.len() < rows.len() {
                    let (c0, v0) = choose|c: int, v: int| is_best_split(m, labels, rows, n_classes, min_leaf, c, v);
                    assert(is_best_split(m, labels, rows, n_classes, min_leaf, c0, v0));
                    lemma_candidate_sides(m, rows, min_leaf, c, v);
                    lemma_grow_sound(m, labels, n_classes, max_depth, min_leaf, l, depth + 1);
                    lemma_grow_sound(m, labels, n_classes, max_depth, min_leaf, r, depth + 1);
                }
            },
            None => {},
        }
    }
}

/// With `max_depth > 0`, a tree grown from `depth <= max_depth` reaches no deeper than
/// `max_depth`: the root is depth `0`, so `max_depth == 1` allows exactly one split.
pub proof fn lemma_grow_depth_limit(
    m: Seq<Vec<i64>>,
    labels: Seq<usize>,
    n_classes: int,
    max_depth: int,
    min_leaf: int,
    rows: Seq<usize>,
    depth: int,
)
    requires
        0 < max_depth,
        0 <= depth <= max_depth,
    ensures
        depth + model_depth(grow(m, labels, n_classes, max_depth, min_leaf, rows, depth)) <= max_depth,
    decreases rows.len(),
{
    let counts = class_counts(labels, rows, n_classes);
    if all_one_class(counts) || depth == max_depth {
    } else {
        match chosen_split(m, labels, rows, n_classes, min_leaf) {
            Some((c, v)) => {
                let l = left_rows(m, rows, c, v);
                let r = right_rows(m, rows, c, v);
                if l.len() < rows.len() && r.len() < rows.len() {
                    lemma_grow_depth_limit(m, labels, n_classes, max_depth, min_leaf, l, depth + 1);
                    lemma_grow_depth_limit(m, labels, n_classes, max_depth, min_leaf, r, depth + 1);
                }
            },
            None => {},
        }
    }
}

/// The node that `values` reaches from `node`: `x[column] <= threshold` goes left.
pub open spec fn route_model(node: NodeModel, values: Seq<i64>) -> NodeModel
    decreases node,
{
    match node {
        NodeModel::Leaf { .. } => node,
        NodeModel::Split { column, threshold, left, right, .. } => {
            if values[column] as int <= threshold {
                route_model(*left, values)
            } else {
                route_model(*right, values)
            }
        },
    }
}

/// Whether every split of `node` tests a column below `width`.
pub open spec fn columns_below(node: NodeModel, width: int) -> bool
    decreases node,
{
    match node {
        NodeModel::Leaf { .. } => true,
        NodeModel::Split { column, left, right, .. } => {
            &&& 0 <= column < width
            &&& columns_below(*left, width)
            &&& columns_below(*right, width)
        },
    }
}

/// Routes `values` down `node`, returning the leaf reached.
pub fn route<'a>(node: &'a Node, values: &[i64]) -> (leaf: &'a Node)
    requires
        columns_below(node.model(), values@.len() as int),
    ensures
        leaf.model() == route_model(node.model(), values@),
        leaf.model() is Leaf,
    decreases node,
{
    match node {
        Node::Leaf { .. } => node,
        Node::Split { column, threshold, left, right, .. } => {
            if values[*column] <= *threshold {
                route(left, values)
            } else {
                route(right, values)
            }
        },
    }
}

proof fn lemma_side_contains(m: Seq<Vec<i64>>, rows: Seq<usize>, column: int, threshold: int, below: bool, i: int, len: int)
    requires
        0 <= i < len <= rows.len(),
        (cell(m, rows[i], column) <= threshold) == below,
    ensures
        side(m, rows, column, threshold, below, len).contains(rows[i]),
    decreases len,
{
    let prev = side(m, rows, column, threshold, below, len - 1);
    if i == len - 1 {
        assert(side(m, rows, column, threshold, below, len)[prev.len() as int] == rows[i]);
    } else {
        lemma_side_contains(m, rows, column, threshold, below, i, len - 1);
        let j = choose|j: int| 0 <= j < prev.len() && prev[j] == rows[i];
        assert(side(m, rows, column, threshold, below, len)[j] == rows[i]);
    }
}

/// Every split of a grown tree tests a column of the matrix.
pub proof fn lemma_grow_columns(
    m: Seq<Vec<i64>>,
    labels: Seq<usize>,
    n_classes: int,
    max_depth: int,
    min_leaf: int,
    rows: Seq<usize>,
    depth: int,
)
    ensures
        columns_below(grow(m, labels, n_classes, max_depth, min_leaf, rows, depth), n_columns(m)),
    decreases rows.len(),
{
    let counts = class_counts(labels, rows, n_classes);
    if all_one_class(counts) || (max_depth != 0 && depth == max_depth) {
    } else {
        match chosen_split(m, labels, rows, n_classes, min_leaf) {
            Some((c, v)) => {
                let l = left_rows(m, rows, c, v);
                let r = right_rows(m, rows, c, v);
                if l.len() < rows.len() && r.len() < rows.len() {
                    let (c0, v0) = choose|c: int, v: int| is_best_split(m, labels, rows, n_classes, min_leaf, c, v);
                    assert(is_best_split(m, labels, rows, n_classes, min_leaf, c0, v0));
                    lemma_grow_columns(m, labels, n_classes, max_depth, min_leaf, l, depth + 1);
                    lemma_grow_columns(m, labels, n_classes, max_depth, min_leaf, r, depth + 1);
                }
            },
            None => {},
        }
    }
}

/// In a sound tree, a row that reached a node is routed by its own values to a leaf holding it.
pub proof fn lemma_route_reaches_row(
    node: NodeModel,
    m: Seq<Vec<i64>>,
    labels: Seq<usize>,
    n_classes: int,
    min_leaf: int,
    r: usize,
)
    requires
        is_sound_tree(node, m, labels, n_classes, min_leaf),
        node_rows(node).contains(r),
    ensures
        route_model(node, m[r as int]@) is Leaf,
        node_rows(route_model(node, m[r as int]@)).contains(r),
    decreases node,
{
    match node {
        NodeModel::Leaf { .. } => {},
        NodeModel::Split { column, threshold, left, right, rows } => {
            let i = choose|i: int| 0 <= i < rows.len() && rows[i] == r;
            if m[r as int]@[column] as int <= threshold {
                lemma_side_contains(m, rows, column, threshold, true, i, rows.len() as int);
                lemma_route_reaches_row(*left, m, labels, n_classes, min_leaf, r);
            } else {
                lemma_side_contains(m, rows, column, threshold, false, i, rows.len() as int);
                lemma_route_reaches_row(*right, m, labels, n_classes, min_leaf, r);
            }
        },
    }
}

/// Routing any training row through the fitted tree lands in the leaf that holds that row.
pub proof fn lemma_fit_routes_rows(
    m: Seq<Vec<i64>>,
    labels: Seq<usize>,
    n_classes: int,
    max_depth: int,
    min_leaf: int,
    r: usize,
)
    requires
        fit_input(m, labels, n_classes),
        r < m.len(),
    ensures
        ({
            let t = grow(m, labels, n_classes, max_depth, min_leaf, all_rows(m.len() as int), 0);
            &&& columns_below(t, m[r as int]@.len() as int)
            &&& route_model(t, m[r as int]@) is Leaf
            &&& node_rows(route_model(t, m[r as int]@)).contains(r)
        }),
{
    let rows = all_rows(m.len() as int);
    lemma_grow_sound(m, labels, n_classes, max_depth, min_leaf, rows, 0);
    lemma_grow_columns(m, labels, n_classes, max_depth, min_leaf, rows, 0);
    assert(rows[r as int] == r);
    lemma_route_reaches_row(grow(m, labels, n_classes, max_depth, min_leaf, rows, 0), m, labels, n_classes, min_leaf, r);
}

} // verus!
