//! Permutations of board positions and the finite groups they generate.

use vstd::prelude::*;
use vstd::string::*;
use crate::framework::text::{decimal, with_decimal};

verus! {

/// `s` is a permutation of `0..s.len()`: every image is in range and no two coincide.
pub open spec fn is_perm(s: Seq<usize>) -> bool {
    &&& forall|i: int| 0 <= i < s.len() ==> #[trigger] s[i] < s.len()
    &&& forall|i: int, j: int| 0 <= i < j < s.len() ==> #[trigger] s[i] != #[trigger] s[j]
}

/// The identity permutation of degree `n`.
pub open spec fn identity_seq(n: nat) -> Seq<usize> {
    Seq::new(n, |i: int| i as usize)
}

/// `p` first, then `q`: position `i` goes to `q[p[i]]`.
pub open spec fn compose_seq(p: Seq<usize>, q: Seq<usize>) -> Seq<usize> {
    Seq::new(p.len(), |i: int| q[p[i] as int])
}

/// A permutation of positions `0..len()`, given by the image of each position.
#[derive(Debug, PartialEq, Eq, Hash)]
pub struct Permutation {
    images: Vec<usize>,
}

impl View for Permutation {
    type V = Seq<usize>;

    closed spec fn view(&self) -> Seq<usize> {
        self.images@
    }
}

/// `base^e`.
pub open spec fn pow_nat(base: nat, e: nat) -> nat
    decreases e,
{
    if e == 0 {
        1
    } else {
        base * pow_nat(base, (e - 1) as nat)
    }
}

/// The first `k` images of `s` read as base-`n` digits, image 0 most significant.
pub open spec fn seq_code(s: Seq<usize>, n: nat, k: int) -> int
    decreases k,
{
    if k <= 0 {
        0
    } else {
        seq_code(s, n, k - 1) * n + s[k - 1] as int
    }
}

/// Codes of sequences with images below `n` lie in `0..n^k`.
pub proof fn lemma_seq_code_bound(s: Seq<usize>, n: nat, k: nat)
    requires
        k <= s.len(),
        forall|i: int| 0 <= i < k ==> #[trigger] s[i] < n,
    ensures
        0 <= seq_code(s, n, k as int) < pow_nat(n, k),
    decreases k,
{
    if k > 0 {
        lemma_seq_code_bound(s, n, (k - 1) as nat);
        let c = seq_code(s, n, k - 1);
        let p = pow_nat(n, (k - 1) as nat);
        let d = s[k - 1] as int;
        assert(c * n + d < n * p) by (nonlinear_arith)
            requires
                0 <= c < p,
                0 <= d < n,
        {
            assert(c * n + d < c * n + n);
            assert(c * n + n == (c + 1) * n);
            assert((c + 1) * n <= p * n);
            assert(p * n == n * p);
        }
        assert(c * n + d >= 0) by (nonlinear_arith)
            requires
                0 <= c,
                0 <= d,
                n >= 0,
        ;
    }
}

/// Sequences with images below `n` and equal codes agree on their first `k` images.
pub proof fn lemma_seq_code_injective(s: Seq<usize>, t: Seq<usize>, n: nat, k: nat)
    requires
        k <= s.len(),
        k <= t.len(),
        forall|i: int| 0 <= i < k ==> #[trigger] s[i] < n,
        forall|i: int| 0 <= i < k ==> #[trigger] t[i] < n,
        seq_code(s, n, k as int) == seq_code(t, n, k as int),
    ensures
        forall|i: int| 0 <= i < k ==> s[i] == t[i],
    decreases k,
{
    if k > 0 {
        let x = seq_code(s, n, k - 1);
        let y = seq_code(t, n, k - 1);
        let d = s[k - 1] as int;
        let e = t[k - 1] as int;
        lemma_seq_code_bound(s, n, (k - 1) as nat);
        lemma_seq_code_bound(t, n, (k - 1) as nat);
        assert(x == y && d == e) by (nonlinear_arith)
            requires
                x * n + d == y * n + e,
                0 <= d < n,
                0 <= e < n,
                x >= 0,
                y >= 0,
        {
            if x < y {
                assert(x * n + d < (x + 1) * n);
                assert((x + 1) * n <= y * n);
            } else if y < x {
                assert(y * n + e < (y + 1) * n);
                assert((y + 1) * n <= x * n);
            }
        }
        lemma_seq_code_injective(s, t, n, (k - 1) as nat);
    }
}

impl Permutation {
    /// Every permutation is a bijection of `0..len()`.
    #[verifier::type_invariant]
    spec fn inv(self) -> bool {
        is_perm(self.images@)
    }

    /// Builds the permutation sending position `i` to `images[i]`. Fails when an image is out of
    /// range or appears twice.
    pub fn new(images: Vec<usize>) -> (r: Result<Permutation, String>)
        ensures
            r is Ok <==> is_perm(images@),
            r matches Ok(p) ==> p@ == images@,
    {
        let n = images.len();
        let mut seen: Vec<bool> = Vec::new();
        let mut k: usize = 0;
        while k < n
            invariant
                k <= n,
                seen@.len() == k,
                forall|j: int| 0 <= j < k ==> !#[trigger] seen@[j],
            decreases n - k,
        {
            seen.push(false);
            k = k + 1;
        }
        let mut i: usize = 0;
        while i < n
            invariant
                n == images@.len(),
                seen@.len() == n,
                i <= n,
                forall|j: int| 0 <= j < i ==> #[trigger] images@[j] < n,
                forall|a: int, b: int| 0 <= a < b < i ==> #[trigger] images@[a] != #[trigger] images@[b],
                forall|v: int| 0 <= v < n ==> (#[trigger] seen@[v] <==> exists|j: int| 0 <= j < i && images@[j] == v),
            decreases n - i,
        {
            let v = images[i];
            if v >= n {
                let mut m = with_decimal("image ", v);
                let tail = with_decimal(" is out of range 0..", n);
                m.append(tail.as_str());
                return Err(m);
            }
            if seen[v] {
                proof {
                    let j = choose|j: int| 0 <= j < i && images@[j] == v;
                    assert(images@[j] == images@[i as int]);
                }
                let m = with_decimal("repeated image ", v);
                return Err(m);
            }
            seen.set(v, true);
            i = i + 1;
        }
        Ok(Permutation { images })
    }

    /// The identity permutation of degree `n`.
    pub fn identity(n: usize) -> (p: Permutation)
        ensures
            p@ == identity_seq(n as nat),
            is_perm(p@),
    {
        let mut images: Vec<usize> = Vec::new();
        let mut i: usize = 0;
        while i < n
            invariant
                i <= n,
                images@ == identity_seq(i as nat),
            decreases n - i,
        {
            images.push(i);
            i = i + 1;
            assert(images@ =~= identity_seq(i as nat));
        }
        Permutation { images }
    }

    /// Number of positions permuted.
    pub fn len(&self) -> (n: usize)
        ensures
            n == self@.len(),
    {
        self.images.len()
    }

    /// Whether the permutation has degree 0.
    pub fn is_empty(&self) -> (b: bool)
        ensures
            b == (self@.len() == 0),
    {
        self.images.len() == 0
    }

    /// The image of every position, in position order.
    pub fn as_slice(&self) -> (s: &[usize])
        ensures
            s@ == self@,
    {
        self.images.as_slice()
    }

    /// The image of position `i`.
    pub fn apply(&self, i: usize) -> (j: usize)
        requires
            i < self@.len(),
        ensures
            j == self@[i as int],
            j < self@.len(),
    {
        proof {
            use_type_invariant(self);
        }
        self.images[i]
    }

    /// Every permutation is a bijection of `0..len()`.
    pub fn check_valid(&self)
        ensures
            is_perm(self@),
    {
        proof {
            use_type_invariant(self);
        }
    }

    /// Whether every position is its own image.
    pub fn is_identity(&self) -> (b: bool)
        ensures
            b == (self@ == identity_seq(self@.len())),
    {
        let n = self.images.len();
        let mut i: usize = 0;
        while i < n
            invariant
                n == self@.len(),
                i <= n,
                forall|j: int| 0 <= j < i ==> #[trigger] self@[j] == j,
            decreases n - i,
        {
            if self.images[i] != i {
                assert(self@[i as int] != identity_seq(n as nat)[i as int]);
                return false;
            }
            i = i + 1;
        }
        assert(self@ =~= identity_seq(n as nat));
        true
    }

    /// Whether `self` and `other` permute the same positions identically.
    pub fn same_as(&self, other: &Permutation) -> (b: bool)
        ensures
            b == (self@ == other@),
    {
        if self.images.len() != other.images.len() {
            return false;
        }
        let n = self.images.len();
        let mut i: usize = 0;
        while i < n
            invariant
                n == self@.len(),
                n == other@.len(),
                i <= n,
                forall|j: int| 0 <= j < i ==> self@[j] == other@[j],
            decreases n - i,
        {
            if self.images[i] != other.images[i] {
                return false;
            }
            i = i + 1;
        }
        assert(self@ =~= other@);
        true
    }

    /// `self` first, then `other`: position `i` goes to `other.apply(self.apply(i))`.
    pub fn compose(&self, other: &Permutation) -> (c: Permutation)
        requires
            self@.len() == other@.len(),
        ensures
            c@ == compose_seq(self@, other@),
            is_perm(c@),
    {
        proof {
            use_type_invariant(self);
            use_type_invariant(other);
        }
        let n = self.images.len();
        let mut images: Vec<usize> = Vec::new();
        let mut i: usize = 0;
        while i < n
            invariant
                n == self@.len(),
                n == other@.len(),
                is_perm(self@),
                is_perm(other@),
                i <= n,
                images@ =~= compose_seq(self@, other@).take(i as int),
            decreases n - i,
        {
            images.push(other.images[self.images[i]]);
            i = i + 1;
        }
        assert(images@ =~= compose_seq(self@, other@));
        proof {
            assert forall|a: int, b: int| 0 <= a < b < n implies #[trigger] images@[a] != #[trigger] images@[b] by {
                assert(self@[a] != self@[b]);
            }
        }
        Permutation { images }
    }

    /// The inverse permutation: `self.inverse().apply(self.apply(i)) == i`.
    pub fn inverse(&self) -> (r: Permutation)
        ensures
            r@.len() == self@.len(),
            is_perm(r@),
            forall|i: int| 0 <= i < self@.len() ==> #[trigger] r@[self@[i] as int] == i,
            forall|j: int| 0 <= j < self@.len() ==> #[trigger] self@[r@[j] as int] == j,
    {
        proof {
            use_type_invariant(self);
        }
        let n = self.images.len();
        let ghost p = self@;
        let mut inv: Vec<usize> = Vec::new();
        let mut k: usize = 0;
        while k < n
            invariant
                k <= n,
                inv@.len() == k,
            decreases n - k,
        {
            inv.push(0);
            k = k + 1;
        }
        let mut i: usize = 0;
        while i < n
            invariant
                n == p.len(),
                p == self@,
                is_perm(p),
                inv@.len() == n,
                i <= n,
                forall|j: int| 0 <= j < i ==> #[trigger] inv@[p[j] as int] == j,
            decreases n - i,
        {
            let ghost before = inv@;
            inv.set(self.images[i], i);
            proof {
                assert forall|j: int| 0 <= j < i + 1 implies #[trigger] inv@[p[j] as int] == j by {
                    if j < i {
                        assert(p[j] != p[i as int]);
                        assert(inv@[p[j] as int] == before[p[j] as int]);
                    }
                }
            }
            i = i + 1;
        }
        proof {
            lemma_perm_surjective(p);
            assert forall|j: int| 0 <= j < n implies #[trigger] p[inv@[j] as int] == j by {
                assert(has_preimage(p, j));
                let i = choose|i: int| 0 <= i < n && p[i] == j;
                assert(inv@[p[i] as int] == i);
            }
            assert forall|j: int| 0 <= j < n implies #[trigger] inv@[j] < n by {
                assert(has_preimage(p, j));
                let i = choose|i: int| 0 <= i < n && p[i] == j;
                assert(inv@[p[i] as int] == i);
            }
            assert forall|a: int, b: int| 0 <= a < b < n implies #[trigger] inv@[a] != #[trigger] inv@[b] by {
                assert(p[inv@[a] as int] == a);
                assert(p[inv@[b] as int] == b);
            }
        }
        Permutation { images: inv }
    }
}

impl Clone for Permutation {
    fn clone(&self) -> (r: Self)
        ensures
            r@ == self@,
            is_perm(r@),
    {
        proof {
            use_type_invariant(self);
        }
        let n = self.images.len();
        let mut images: Vec<usize> = Vec::new();
        let mut i: usize = 0;
        while i < n
            invariant
                n == self@.len(),
                i <= n,
                images@ == self@.take(i as int),
            decreases n - i,
        {
            images.push(self.images[i]);
            i = i + 1;
            assert(images@ =~= self@.take(i as int));
        }
        assert(images@ =~= self@);
        Permutation { images }
    }
}

/// Position `j` is the image of some position under `p`.
pub open spec fn has_preimage(p: Seq<usize>, j: int) -> bool {
    exists|i: int| 0 <= i < p.len() && p[i] == j
}

/// Every position is the image of some position.
pub proof fn lemma_perm_surjective(p: Seq<usize>)
    requires
        is_perm(p),
    ensures
        forall|j: int| 0 <= j < p.len() ==> #[trigger] has_preimage(p, j),
{
    let n = p.len();
    let image = Set::new(|j: int| exists|i: int| 0 <= i < n && p[i] == j);
    let dom = vstd::set_lib::set_int_range(0, n as int);
    let f = |i: int| p[i] as int;
    assert forall|j: int| image.contains(j) implies dom.map(f).contains(j) by {
        let i = choose|i: int| 0 <= i < n && p[i] == j;
        assert(dom.contains(i) && f(i) == j);
    }
    assert forall|j: int| dom.map(f).contains(j) implies image.contains(j) by {
        let i = choose|i: int| dom.contains(i) && f(i) == j;
        assert(0 <= i < n && p[i] == j);
    }
    assert(dom.map(f) =~= image);
    vstd::set_lib::lemma_int_range(0, n as int);
    assert(vstd::relations::injective_on(f, dom)) by {
        assert forall|a: int, b: int| dom.contains(a) && dom.contains(b) && #[trigger] f(a) == #[trigger] f(b) implies a == b by {
            if a < b {
                assert(p[a] != p[b]);
            } else if b < a {
                assert(p[b] != p[a]);
            }
        }
    }
    vstd::set_lib::lemma_map_size(dom, image, f);
    assert(image.subset_of(dom));
    vstd::set_lib::lemma_subset_equality(image, dom);
    assert forall|j: int| 0 <= j < n implies #[trigger] has_preimage(p, j) by {
        assert(dom.contains(j));
        assert(image.contains(j));
    }
}


/// The identity is a right unit of composition.
pub proof fn lemma_compose_identity(p: Seq<usize>)
    requires
        is_perm(p),
    ensures
        compose_seq(p, identity_seq(p.len())) == p,
{
    assert(compose_seq(p, identity_seq(p.len())) =~= p);
}

/// Composition is associative.
pub proof fn lemma_compose_assoc(a: Seq<usize>, b: Seq<usize>, c: Seq<usize>)
    requires
        forall|i: int| 0 <= i < a.len() ==> #[trigger] a[i] < b.len(),
    ensures
        compose_seq(a, compose_seq(b, c)) == compose_seq(compose_seq(a, b), c),
{
    assert(compose_seq(a, compose_seq(b, c)) =~= compose_seq(compose_seq(a, b), c));
}

/// Elements reached from the identity by composing with generators, and closed under that
/// composition, are closed under composition of any two of them.
pub proof fn lemma_generated_closed(es: Seq<Permutation>, gens: Seq<Seq<usize>>, n: nat)
    requires
        elements_ok(es, n),
        es.len() >= 1,
        es[0]@ == identity_seq(n),
        closed_upto(es, gens, es.len() as int),
        generated(es, gens),
    ensures
        forall|a: int, b: int|
            #![trigger compose_seq(es[a]@, es[b]@)]
            0 <= a < es.len() && 0 <= b < es.len() ==> holds_perm(es, compose_seq(es[a]@, es[b]@)),
{
    assert forall|a: int, b: int|
        #![trigger compose_seq(es[a]@, es[b]@)]
        0 <= a < es.len() && 0 <= b < es.len() implies holds_perm(es, compose_seq(es[a]@, es[b]@)) by {
        lemma_generated_closed_at(es, gens, n, a, b);
    }
}

proof fn lemma_generated_closed_at(es: Seq<Permutation>, gens: Seq<Seq<usize>>, n: nat, a: int, b: int)
    requires
        elements_ok(es, n),
        es.len() >= 1,
        es[0]@ == identity_seq(n),
        closed_upto(es, gens, es.len() as int),
        generated(es, gens),
        0 <= a < es.len(),
        0 <= b < es.len(),
    ensures
        holds_perm(es, compose_seq(es[a]@, es[b]@)),
    decreases b,
{
    let pa = es[a]@;
    assert(pa.len() == n && is_perm(pa));
    if b == 0 {
        lemma_compose_identity(pa);
        assert(es[a]@ == compose_seq(es[a]@, es[b]@));
    } else {
        assert(generated_at(es, gens, b));
        let (i, j) = choose|i: int, j: int|
            0 <= i < b && 0 <= j < gens.len() && es[b]@ == compose_seq(
                #[trigger] es[i]@,
                #[trigger] gens[j],
            );
        lemma_generated_closed_at(es, gens, n, a, i);
        let m = choose|m: int| 0 <= m < es.len() && (#[trigger] es[m])@ == compose_seq(es[a]@, es[i]@);
        assert(es[i]@.len() == n);
        lemma_compose_assoc(pa, es[i]@, gens[j]);
        assert(holds_perm(es, compose_seq(es[m]@, gens[j])));
    }
}

/// Composing two permutations of the same degree gives a permutation.
pub proof fn lemma_compose_perm(a: Seq<usize>, b: Seq<usize>)
    requires
        is_perm(a),
        is_perm(b),
        a.len() == b.len(),
    ensures
        is_perm(compose_seq(a, b)),
        compose_seq(a, b).len() == a.len(),
{
    let c = compose_seq(a, b);
    assert forall|i: int, j: int| 0 <= i < j < c.len() implies #[trigger] c[i] != #[trigger] c[j] by {
        assert(a[i] != a[j]);
        if a[i] < a[j] {
            assert(b[a[i] as int] != b[a[j] as int]);
        } else {
            assert(b[a[j] as int] != b[a[i] as int]);
        }
    }
}

/// `p` composed with itself `k` times; the identity of `p`'s degree when `k` is 0.
pub open spec fn pow_seq(p: Seq<usize>, k: nat) -> Seq<usize>
    decreases k,
{
    if k == 0 {
        identity_seq(p.len())
    } else {
        compose_seq(pow_seq(p, (k - 1) as nat), p)
    }
}

proof fn lemma_pow_perm(p: Seq<usize>, k: nat)
    requires
        is_perm(p),
        p.len() <= usize::MAX,
    ensures
        pow_seq(p, k).len() == p.len(),
        is_perm(pow_seq(p, k)),
    decreases k,
{
    if k > 0 {
        lemma_pow_perm(p, (k - 1) as nat);
        lemma_compose_perm(pow_seq(p, (k - 1) as nat), p);
    } else {
        let id = identity_seq(p.len());
        assert forall|i: int, j: int| 0 <= i < j < id.len() implies #[trigger] id[i] != #[trigger] id[j] by {}
        assert forall|i: int| 0 <= i < id.len() implies #[trigger] id[i] < id.len() by {}
    }
}

proof fn lemma_pow_add(p: Seq<usize>, a: nat, b: nat)
    requires
        is_perm(p),
        p.len() <= usize::MAX,
    ensures
        pow_seq(p, a + b) == compose_seq(pow_seq(p, a), pow_seq(p, b)),
    decreases b,
{
    lemma_pow_perm(p, a);
    if b == 0 {
        lemma_compose_identity(pow_seq(p, a));
        assert(a + b == a);
    } else {
        lemma_pow_add(p, a, (b - 1) as nat);
        lemma_pow_perm(p, (b - 1) as nat);
        lemma_compose_assoc(pow_seq(p, a), pow_seq(p, (b - 1) as nat), p);
        assert((a + b - 1) as nat == a + (b - 1) as nat);
    }
}

proof fn lemma_pow_in_group(es: Seq<Permutation>, gens: Seq<Seq<usize>>, n: nat, g: int, k: nat)
    requires
        elements_ok(es, n),
        es.len() >= 1,
        es[0]@ == identity_seq(n),
        closed_upto(es, gens, es.len() as int),
        generated(es, gens),
        0 <= g < es.len(),
    ensures
        holds_perm(es, pow_seq(es[g]@, k)),
    decreases k,
{
    if k == 0 {
        assert(es[0]@ == pow_seq(es[g]@, 0));
    } else {
        lemma_pow_in_group(es, gens, n, g, (k - 1) as nat);
        let m = choose|m: int| 0 <= m < es.len() && (#[trigger] es[m])@ == pow_seq(es[g]@, (k - 1) as nat);
        lemma_generated_closed(es, gens, n);
        assert(holds_perm(es, compose_seq(es[m]@, es[g]@)));
    }
}

/// Every element of a group reached from the identity by composing with generators, and closed
/// under that composition, has its inverse among the elements.
pub proof fn lemma_inverse_in_group(es: Seq<Permutation>, gens: Seq<Seq<usize>>, n: nat, g: int)
    requires
        n <= usize::MAX,
        elements_ok(es, n),
        es.len() >= 1,
        es[0]@ == identity_seq(n),
        closed_upto(es, gens, es.len() as int),
        generated(es, gens),
        0 <= g < es.len(),
    ensures
        exists|h: int|
            0 <= h < es.len() && compose_seq(es[g]@, #[trigger] es[h]@) == identity_seq(n)
                && compose_seq(es[h]@, es[g]@) == identity_seq(n),
{
    let p = es[g]@;
    let len = es.len() as int;
    assert(is_perm(p) && p.len() == n);
    let f = |k: int| choose|m: int| 0 <= m < es.len() && (#[trigger] es[m])@ == pow_seq(p, k as nat);
    let dom = vstd::set_lib::set_int_range(0, len + 1);
    assert forall|k: int| dom.contains(k) implies 0 <= #[trigger] f(k) < len && es[f(k)]@ == pow_seq(
        p,
        k as nat,
    ) by {
        lemma_pow_in_group(es, gens, n, g, k as nat);
    }
    vstd::set_lib::lemma_int_range(0, len + 1);
    vstd::set_lib::lemma_int_range(0, len);
    if vstd::relations::injective_on(f, dom) {
        vstd::set_lib::lemma_map_size(dom, dom.map(f), f);
        assert(dom.map(f).subset_of(vstd::set_lib::set_int_range(0, len))) by {
            assert forall|m: int| dom.map(f).contains(m) implies vstd::set_lib::set_int_range(0, len).contains(m) by {
                let k = choose|k: int| dom.contains(k) && f(k) == m;
            }
        }
        vstd::set_lib::lemma_len_subset(dom.map(f), vstd::set_lib::set_int_range(0, len));
        assert(false);
    }
    let (a, b) = choose|a: int, b: int| dom.contains(a) && dom.contains(b) && #[trigger] f(a) == #[trigger] f(b) && a != b;
    let (i, j) = if a < b { (a, b) } else { (b, a) };
    assert(pow_seq(p, i as nat) == pow_seq(p, j as nat));
    let d = (j - i) as nat;
    lemma_pow_add(p, i as nat, d);
    assert(i as nat + d == j as nat);
    lemma_pow_perm(p, i as nat);
    lemma_pow_perm(p, d);
    let pi = pow_seq(p, i as nat);
    let pd = pow_seq(p, d);
    lemma_perm_surjective(pi);
    assert forall|y: int| 0 <= y < n implies #[trigger] pd[y] == identity_seq(n)[y] by {
        assert(has_preimage(pi, y));
        let x = choose|x: int| 0 <= x < pi.len() && pi[x] == y;
        assert(compose_seq(pi, pd)[x] == pd[pi[x] as int]);
    }
    assert(pd =~= identity_seq(n));
    let e = (d - 1) as nat;
    lemma_pow_in_group(es, gens, n, g, e);
    let h = choose|h: int| 0 <= h < es.len() && (#[trigger] es[h])@ == pow_seq(p, e);
    lemma_pow_add(p, 1, e);
    assert(1 + e == d);
    assert(pow_seq(p, 0) == identity_seq(p.len()));
    assert(pow_seq(p, 1) == compose_seq(pow_seq(p, 0), p));
    assert(pow_seq(p, 1) =~= p);
    assert(compose_seq(es[g]@, es[h]@) == identity_seq(n));
    assert(compose_seq(es[h]@, es[g]@) == pow_seq(p, d));
}

/// A finite group of permutations of `0..degree`, listed element by element with the identity
/// first.
#[derive(Debug)]
pub struct SymmetryGroup {
    degree: usize,
    elements: Vec<Permutation>,
}

/// Whether `elements` holds a permutation with the same images as `p`.
pub open spec fn holds_perm(elements: Seq<Permutation>, p: Seq<usize>) -> bool {
    exists|k: int| 0 <= k < elements.len() && (#[trigger] elements[k])@ == p
}

/// `q` is the image of position `p` under some element of `elements`.
pub open spec fn in_orbit(elements: Seq<Permutation>, p: int, q: int) -> bool {
    exists|k: int| 0 <= k < elements.len() && (#[trigger] elements[k])@[p] == q
}

/// `list` holds exactly the images, under the elements of `es`, of one of its own positions
/// below `n`.
pub open spec fn is_orbit_list(es: Seq<Permutation>, list: Seq<usize>, n: nat) -> bool {
    exists|p: int|
        #![trigger list.contains(p as usize)]
        0 <= p < n && list.contains(p as usize) && forall|q: int|
            0 <= q < n ==> (list.contains(q as usize) <==> in_orbit(es, p, q))
}

/// Each entry of `list` is smaller than the next, and all are below `n`.
pub open spec fn ascending_below(list: Seq<usize>, n: nat) -> bool {
    &&& forall|a: int, b: int| 0 <= a < b < list.len() ==> #[trigger] list[a] < #[trigger] list[b]
    &&& forall|a: int| 0 <= a < list.len() ==> #[trigger] list[a] < n
}

/// The images of each permutation in `ps`.
pub open spec fn perm_views(ps: Seq<Permutation>) -> Seq<Seq<usize>> {
    ps.map_values(|p: Permutation| p@)
}

/// Position `q` appears in one of the lists of `r`.
pub open spec fn in_some_list(r: Seq<Vec<usize>>, q: int) -> bool {
    exists|k: int| 0 <= k < r.len() && (#[trigger] r[k])@.contains(q as usize)
}

/// Every element is a permutation of degree `degree`, and no two are equal.
pub open spec fn elements_ok(es: Seq<Permutation>, degree: nat) -> bool {
    &&& forall|k: int| 0 <= k < es.len() ==> (#[trigger] es[k])@.len() == degree && is_perm(es[k]@)
    &&& forall|a: int, b: int| 0 <= a < b < es.len() ==> (#[trigger] es[a])@ != (#[trigger] es[b])@
}

/// The first position from `p` on, below `q`, whose orbit reaches `q`; `q` itself if none does.
pub open spec fn first_source(es: Seq<Permutation>, q: int, p: int) -> int
    decreases q - p,
{
    if p >= q {
        q
    } else if in_orbit(es, p, q) {
        p
    } else {
        first_source(es, q, p + 1)
    }
}

/// The smallest position whose orbit reaches `q`.
pub open spec fn orbit_rep(es: Seq<Permutation>, q: int) -> int {
    first_source(es, q, 0)
}

/// How many of the positions below `m` are the smallest of their orbit.
pub open spec fn rep_count(es: Seq<Permutation>, m: int) -> nat
    decreases m,
{
    if m <= 0 {
        0
    } else {
        rep_count(es, m - 1) + if orbit_rep(es, m - 1) == m - 1 {
            1nat
        } else {
            0
        }
    }
}

/// The index of `q`'s orbit when orbits are numbered by their smallest position.
pub open spec fn orbit_ordinal(es: Seq<Permutation>, q: int) -> nat {
    rep_count(es, orbit_rep(es, q))
}

proof fn lemma_first_source_bound(es: Seq<Permutation>, q: int, p: int)
    requires
        0 <= p,
        0 <= q,
    ensures
        0 <= first_source(es, q, p) <= q,
        p <= q ==> p <= first_source(es, q, p),
    decreases q - p,
{
    if p < q && !in_orbit(es, p, q) {
        lemma_first_source_bound(es, q, p + 1);
    }
}

proof fn lemma_rep_count_bound(es: Seq<Permutation>, m: int)
    requires
        0 <= m,
    ensures
        rep_count(es, m) <= m,
    decreases m,
{
    if m > 0 {
        lemma_rep_count_bound(es, m - 1);
    }
}

/// Element `k` is an earlier element composed with one of `gens`.
pub open spec fn generated_at(es: Seq<Permutation>, gens: Seq<Seq<usize>>, k: int) -> bool {
    exists|i: int, j: int|
        0 <= i < k && 0 <= j < gens.len() && es[k]@ == compose_seq(
            #[trigger] es[i]@,
            #[trigger] gens[j],
        )
}

/// Every element after the first is an earlier element composed with one of `gens`.
pub open spec fn generated(es: Seq<Permutation>, gens: Seq<Seq<usize>>) -> bool {
    forall|k: int| 1 <= k < es.len() ==> #[trigger] generated_at(es, gens, k)
}

/// Every element before `h`, composed with every generator, is an element.
pub open spec fn closed_upto(es: Seq<Permutation>, gens: Seq<Seq<usize>>, h: int) -> bool {
    forall|k: int, j: int|
        #![trigger es[k], gens[j]]
        0 <= k < h && 0 <= j < gens.len() ==> holds_perm(es, compose_seq(es[k]@, gens[j]))
}

/// Element `h` composed with each of the first `g` generators is an element.
pub open spec fn row_closed(es: Seq<Permutation>, gens: Seq<Seq<usize>>, h: int, g: int) -> bool {
    forall|j: int|
        0 <= j < g ==> holds_perm(es, compose_seq(es[h]@, #[trigger] gens[j]))
}

/// `codes` holds exactly the base-`n` codes of the elements, one per element.
pub open spec fn codes_ok(es: Seq<Permutation>, codes: Set<int>, n: nat) -> bool {
    &&& codes.finite()
    &&& codes.len() == es.len()
    &&& codes.subset_of(vstd::set_lib::set_int_range(0, pow_nat(n, n) as int))
    &&& forall|k: int| 0 <= k < es.len() ==> codes.contains(seq_code((#[trigger] es[k])@, n, n as int))
    &&& forall|x: int|
        codes.contains(x) ==> exists|k: int|
            0 <= k < es.len() && seq_code((#[trigger] es[k])@, n, n as int) == x
}

/// Appending a new permutation `c = es[h] * gens[g]` keeps every property the closure loop
/// maintains, with one more code.
proof fn lemma_push_element(
    es: Seq<Permutation>,
    gens: Seq<Seq<usize>>,
    codes: Set<int>,
    n: nat,
    h: int,
    g: int,
    c: Permutation,
)
    requires
        elements_ok(es, n),
        codes_ok(es, codes, n),
        generated(es, gens),
        closed_upto(es, gens, h),
        row_closed(es, gens, h, g),
        0 <= h < es.len(),
        0 <= g < gens.len(),
        c@ == compose_seq(es[h]@, gens[g]),
        c@.len() == n,
        is_perm(c@),
        !holds_perm(es, c@),
    ensures
        elements_ok(es.push(c), n),
        codes_ok(es.push(c), codes.insert(seq_code(c@, n, n as int)), n),
        generated(es.push(c), gens),
        closed_upto(es.push(c), gens, h),
        row_closed(es.push(c), gens, h, g + 1),
        es.push(c)[0] == es[0],
{
    let new = es.push(c);
    let code = seq_code(c@, n, n as int);
    lemma_seq_code_bound(c@, n, n);
    if codes.contains(code) {
        let k = choose|k: int| 0 <= k < es.len() && seq_code((#[trigger] es[k])@, n, n as int) == code;
        lemma_seq_code_injective(es[k]@, c@, n, n);
        assert(es[k]@ =~= c@);
    }
    assert forall|a: int, b: int| 0 <= a < b < new.len() implies (#[trigger] new[a])@ != (#[trigger] new[b])@ by {
        if b == es.len() {
            if new[a]@ == new[b]@ {
                assert(es[a]@ == c@);
            }
        } else {
            assert(new[a] == es[a] && new[b] == es[b]);
        }
    }
    let codes2 = codes.insert(code);
    assert forall|x: int| codes2.contains(x) implies exists|k: int|
        0 <= k < new.len() && seq_code((#[trigger] new[k])@, n, n as int) == x by {
        if x == code {
            assert(new[es.len() as int] == c);
        } else {
            let k = choose|k: int| 0 <= k < es.len() && seq_code((#[trigger] es[k])@, n, n as int) == x;
            assert(new[k] == es[k]);
        }
    }
    assert forall|k: int| 0 <= k < new.len() implies codes2.contains(seq_code((#[trigger] new[k])@, n, n as int)) by {
        if k < es.len() {
            assert(new[k] == es[k]);
        }
    }
    assert forall|k: int| 1 <= k < new.len() implies #[trigger] generated_at(new, gens, k) by {
        if k < es.len() {
            assert(generated_at(es, gens, k));
            let (i, j) = choose|i: int, j: int|
                0 <= i < k && 0 <= j < gens.len() && es[k]@ == compose_seq(
                    #[trigger] es[i]@,
                    #[trigger] gens[j],
                );
            assert(new[i] == es[i] && new[k] == es[k]);
        } else {
            assert(new[h] == es[h]);
            assert(new[k]@ == compose_seq(new[h]@, gens[g]));
        }
    }
    assert forall|p: Seq<usize>| holds_perm(es, p) implies holds_perm(new, p) by {
        let m = choose|m: int| 0 <= m < es.len() && (#[trigger] es[m])@ == p;
        assert(new[m] == es[m]);
    }
    assert forall|k: int, j: int|
        #![trigger new[k], gens[j]]
        0 <= k < h && 0 <= j < gens.len() implies holds_perm(new, compose_seq(new[k]@, gens[j])) by {
        assert(new[k] == es[k]);
        assert(holds_perm(es, compose_seq(es[k]@, gens[j])));
    }
    assert forall|j: int| 0 <= j < g + 1 implies holds_perm(new, compose_seq(new[h]@, #[trigger] gens[j])) by {
        assert(new[h] == es[h]);
        if j < g {
            assert(holds_perm(es, compose_seq(es[h]@, gens[j])));
        } else {
            assert(new[es.len() as int]@ == c@);
        }
    }
}

/// Whether `elements` holds a permutation with the same images as `p`.
fn find_perm(elements: &Vec<Permutation>, p: &Permutation) -> (r: bool)
    ensures
        r == holds_perm(elements@, p@),
{
    let mut k: usize = 0;
    while k < elements.len()
        invariant
            k <= elements@.len(),
            forall|j: int| 0 <= j < k ==> (#[trigger] elements@[j])@ != p@,
        decreases elements@.len() - k,
    {
        if elements[k].same_as(p) {
            return true;
        }
        k = k + 1;
    }
    false
}

impl SymmetryGroup {
    /// Elements have degree `degree`, are pairwise distinct, and the identity comes first.
    #[verifier::type_invariant]
    spec fn inv(self) -> bool {
        &&& self.elements@.len() >= 1
        &&& self.elements@[0]@ == identity_seq(self.degree as nat)
        &&& elements_ok(self.elements@, self.degree as nat)
    }

    /// The group's elements.
    pub closed spec fn spec_elements(&self) -> Seq<Permutation> {
        self.elements@
    }

    /// The degree of every element.
    pub closed spec fn spec_degree(&self) -> nat {
        self.degree as nat
    }

    /// Closes `generators` under composition, starting from the identity of `degree`: every
    /// element times every generator is an element, and every element after the identity is an
    /// earlier element times a generator. Fails when a generator's degree is not `degree`.
    pub fn generate(degree: usize, generators: &[Permutation]) -> (r: Result<SymmetryGroup, String>)
        ensures
            r is Ok <==> forall|j: int|
                0 <= j < generators@.len() ==> (#[trigger] generators@[j])@.len() == degree,
            r matches Ok(g) ==> {
                &&& g.spec_degree() == degree
                &&& g.spec_elements().len() >= 1
                &&& g.spec_elements()[0]@ == identity_seq(degree as nat)
                &&& elements_ok(g.spec_elements(), degree as nat)
                &&& closed_upto(g.spec_elements(), perm_views(generators@), g.spec_elements().len() as int)
                &&& generated(g.spec_elements(), perm_views(generators@))
            },
    {
        let mut j: usize = 0;
        while j < generators.len()
            invariant
                j <= generators@.len(),
                forall|i: int| 0 <= i < j ==> (#[trigger] generators@[i])@.len() == degree,
            decreases generators@.len() - j,
        {
            if generators[j].len() != degree {
                let mut m = with_decimal("generator ", j);
                let t1 = with_decimal(" has degree ", generators[j].len());
                m.append(t1.as_str());
                let t2 = with_decimal(", expected ", degree);
                m.append(t2.as_str());
                return Err(m);
            }
            j = j + 1;
        }
        let ghost n = degree as nat;
        let ghost bound = pow_nat(n, n);
        let ghost gv = perm_views(generators@);
        let mut elements: Vec<Permutation> = Vec::new();
        let id = Permutation::identity(degree);
        proof {
            lemma_seq_code_bound(id@, n, n);
        }
        elements.push(id);
        let ghost mut codes: Set<int> = set![seq_code(id@, n, n as int)];
        proof {
            vstd::set_lib::lemma_int_range(0, bound as int);
            assert(elements@[0] == id);
            assert forall|x: int| codes.contains(x) implies exists|k: int|
                0 <= k < elements@.len() && seq_code((#[trigger] elements@[k])@, n, n as int) == x by {
                assert(seq_code(elements@[0]@, n, n as int) == x);
            }
        }
        let mut h: usize = 0;
        while h < elements.len()
            invariant
                n == degree,
                bound == pow_nat(n, n),
                forall|i: int| 0 <= i < generators@.len() ==> (#[trigger] generators@[i])@.len() == degree,
                elements@.len() >= 1,
                elements@[0]@ == identity_seq(n),
                h <= elements@.len(),
                vstd::set_lib::set_int_range(0, bound as int).finite(),
                vstd::set_lib::set_int_range(0, bound as int).len() == bound,
                elements_ok(elements@, n),
                codes_ok(elements@, codes, n),
                gv == perm_views(generators@),
                generated(elements@, gv),
                closed_upto(elements@, gv, h as int),
            decreases bound - h,
        {
            proof {
                vstd::set_lib::lemma_len_subset(codes, vstd::set_lib::set_int_range(0, bound as int));
            }
            let mut g: usize = 0;
            while g < generators.len()
                invariant
                    n == degree,
                    bound == pow_nat(n, n),
                    forall|i: int| 0 <= i < generators@.len() ==> (#[trigger] generators@[i])@.len() == degree,
                    elements@.len() >= 1,
                    elements@[0]@ == identity_seq(n),
                    h < elements@.len(),
                    g <= generators@.len(),
                    vstd::set_lib::set_int_range(0, bound as int).finite(),
                    vstd::set_lib::set_int_range(0, bound as int).len() == bound,
                    elements_ok(elements@, n),
                    codes_ok(elements@, codes, n),
                    gv == perm_views(generators@),
                    generated(elements@, gv),
                    closed_upto(elements@, gv, h as int),
                    row_closed(elements@, gv, h as int, g as int),
                decreases generators@.len() - g,
            {
                assert(generators@[g as int]@.len() == degree);
                assert(elements@[h as int]@.len() == degree && is_perm(elements@[h as int]@));
                let c = elements[h].compose(&generators[g]);
                if !find_perm(&elements, &c) {
                    proof {
                        lemma_push_element(elements@, gv, codes, n, h as int, g as int, c);
                        codes = codes.insert(seq_code(c@, n, n as int));
                    }
                    elements.push(c);
                } else {
                    assert(row_closed(elements@, gv, h as int, g as int + 1));
                }
                g = g + 1;
            }
            h = h + 1;
        }
        Ok(SymmetryGroup { degree, elements })
    }

    /// Number of elements.
    pub fn order(&self) -> (n: usize)
        ensures
            n == self.spec_elements().len(),
    {
        self.elements.len()
    }

    /// Number of positions each element permutes.
    pub fn degree(&self) -> (n: usize)
        ensures
            n == self.spec_degree(),
    {
        self.degree
    }

    /// The elements, identity first.
    pub fn elements(&self) -> (es: &[Permutation])
        ensures
            es@ == self.spec_elements(),
            es@.len() >= 1,
            es@[0]@ == identity_seq(self.spec_degree()),
            elements_ok(es@, self.spec_degree()),
    {
        proof {
            use_type_invariant(self);
        }
        self.elements.as_slice()
    }

    /// Whether some element maps position `p` to `q`.
    pub fn maps_to(&self, p: usize, q: usize) -> (r: bool)
        requires
            p < self.spec_degree(),
        ensures
            r == in_orbit(self.spec_elements(), p as int, q as int),
    {
        proof {
            use_type_invariant(self);
        }
        let mut k: usize = 0;
        while k < self.elements.len()
            invariant
                p < self.degree,
                elements_ok(self.elements@, self.degree as nat),
                k <= self.elements@.len(),
                forall|x: int| 0 <= x < k ==> (#[trigger] self.elements@[x])@[p as int] != q,
            decreases self.elements@.len() - k,
        {
            assert(self.elements@[k as int]@.len() == self.degree);
            if self.elements[k].apply(p) == q {
                return true;
            }
            k = k + 1;
        }
        false
    }

    /// For each position, the index of its orbit, orbits numbered by their smallest position.
    pub fn orbit_index(&self) -> (r: Vec<usize>)
        ensures
            r@.len() == self.spec_degree(),
            forall|q: int| 0 <= q < self.spec_degree() ==> #[trigger] r@[q] == orbit_ordinal(self.spec_elements(), q),
    {
        let n = self.degree();
        let ghost es = self.spec_elements();
        let mut reps: Vec<usize> = Vec::new();
        let mut q: usize = 0;
        while q < n
            invariant
                n == self.spec_degree(),
                es == self.spec_elements(),
                q <= n,
                reps@.len() == q,
                forall|x: int| 0 <= x < q ==> #[trigger] reps@[x] == orbit_rep(es, x) && reps@[x] <= x,
            decreases n - q,
        {
            let mut p: usize = 0;
            while p < q && !self.maps_to(p, q)
                invariant
                    n == self.spec_degree(),
                    es == self.spec_elements(),
                    p <= q < n,
                    first_source(es, q as int, 0) == first_source(es, q as int, p as int),
                decreases q - p,
            {
                p = p + 1;
            }
            proof {
                lemma_first_source_bound(es, q as int, p as int);
            }
            reps.push(p);
            q = q + 1;
        }
        let mut r: Vec<usize> = Vec::new();
        let mut q: usize = 0;
        while q < n
            invariant
                n == self.spec_degree(),
                es == self.spec_elements(),
                q <= n,
                reps@.len() == n,
                forall|x: int| 0 <= x < n ==> #[trigger] reps@[x] == orbit_rep(es, x) && reps@[x] <= x,
                r@.len() == q,
                forall|x: int| 0 <= x < q ==> #[trigger] r@[x] == orbit_ordinal(es, x),
            decreases n - q,
        {
            let rep = reps[q];
            let mut count: usize = 0;
            let mut x: usize = 0;
            while x < rep
                invariant
                    reps@.len() == n,
                    forall|y: int| 0 <= y < n ==> #[trigger] reps@[y] == orbit_rep(es, y) && reps@[y] <= y,
                    rep <= q < n,
                    x <= rep,
                    count == rep_count(es, x as int),
                    count <= x,
                decreases rep - x,
            {
                if reps[x] == x {
                    count = count + 1;
                }
                x = x + 1;
            }
            r.push(count);
            q = q + 1;
        }
        r
    }

    /// The orbits of positions under the group: for each position not in an earlier orbit, in
    /// ascending order, the ascending list of its images under every element.
    pub fn orbits(&self) -> (r: Vec<Vec<usize>>)
        ensures
            forall|q: int| 0 <= q < self.spec_degree() ==> #[trigger] in_some_list(r@, q),
            forall|k: int|
                0 <= k < r@.len() ==> is_orbit_list(self.spec_elements(), #[trigger] r@[k]@, self.spec_degree()),
            forall|k: int| 0 <= k < r@.len() ==> ascending_below(#[trigger] r@[k]@, self.spec_degree()),
    {
        proof {
            use_type_invariant(self);
        }
        let n = self.degree;
        let ghost es = self.elements@;
        let mut assigned: Vec<bool> = Vec::new();
        let mut z: usize = 0;
        while z < n
            invariant
                z <= n,
                assigned@.len() == z,
                forall|i: int| 0 <= i < z ==> !#[trigger] assigned@[i],
            decreases n - z,
        {
            assigned.push(false);
            z = z + 1;
        }
        let mut result: Vec<Vec<usize>> = Vec::new();
        let mut p: usize = 0;
        while p < n
            invariant
                n == self.degree,
                es == self.elements@,
                es.len() >= 1,
                es[0]@ == identity_seq(n as nat),
                elements_ok(es, n as nat),
                p <= n,
                assigned@.len() == n,
                forall|q: int| 0 <= q < p ==> #[trigger] assigned@[q],
                forall|q: int| 0 <= q < n && #[trigger] assigned@[q] ==> in_some_list(result@, q),
                forall|k: int|
                    0 <= k < result@.len() ==> is_orbit_list(es, #[trigger] result@[k]@, n as nat),
                forall|k: int| 0 <= k < result@.len() ==> ascending_below(#[trigger] result@[k]@, n as nat),
            decreases n - p,
        {
            if !assigned[p] {
                let mut marks: Vec<bool> = Vec::new();
                let mut z2: usize = 0;
                while z2 < n
                    invariant
                        z2 <= n,
                        marks@.len() == z2,
                        forall|i: int| 0 <= i < z2 ==> !#[trigger] marks@[i],
                    decreases n - z2,
                {
                    marks.push(false);
                    z2 = z2 + 1;
                }
                let mut e: usize = 0;
                while e < self.elements.len()
                    invariant
                        n == self.degree,
                        es == self.elements@,
                        elements_ok(es, n as nat),
                        p < n,
                        marks@.len() == n,
                        e <= es.len(),
                        forall|q: int| 0 <= q < n ==> (#[trigger] marks@[q] <==> exists|k: int| 0 <= k < e && (#[trigger] es[k])@[p as int] == q),
                    decreases es.len() - e,
                {
                    assert(es[e as int]@.len() == n && is_perm(es[e as int]@));
                    let q = self.elements[e].apply(p);
                    let ghost before = marks@;
                    marks.set(q, true);
                    proof {
                        assert forall|x: int| 0 <= x < n implies (#[trigger] marks@[x] <==> exists|k: int| 0 <= k < e + 1 && (#[trigger] es[k])@[p as int] == x) by {
                            if marks@[x] && x != q {
                                assert(before[x]);
                            }
                            if x != q && (exists|k: int| 0 <= k < e + 1 && (#[trigger] es[k])@[p as int] == x) {
                                let k = choose|k: int| 0 <= k < e + 1 && (#[trigger] es[k])@[p as int] == x;
                                assert(k < e);
                            }
                        }
                    }
                    e = e + 1;
                }
                let mut orbit: Vec<usize> = Vec::new();
                let mut q: usize = 0;
                while q < n
                    invariant
                        n == self.degree,
                        es == self.elements@,
                        p < n,
                        marks@.len() == n,
                        assigned@.len() == n,
                        q <= n,
                        forall|x: int| 0 <= x < n ==> (#[trigger] marks@[x] <==> in_orbit(es, p as int, x)),
                        forall|x: usize| x < q ==> (orbit@.contains(x) <==> #[trigger] marks@[x as int]),
                        forall|x: usize| q <= x ==> !#[trigger] orbit@.contains(x),
                        forall|a: int, b: int| 0 <= a < b < orbit@.len() ==> #[trigger] orbit@[a] < #[trigger] orbit@[b],
                        forall|a: int| 0 <= a < orbit@.len() ==> #[trigger] orbit@[a] < q,
                        forall|x: int| 0 <= x < q && #[trigger] marks@[x] ==> #[trigger] assigned@[x],
                        forall|x: int| 0 <= x < p ==> #[trigger] assigned@[x],
                        forall|x: int|
                            0 <= x < n && #[trigger] assigned@[x] && !marks@[x] ==> in_some_list(result@, x),
                    decreases n - q,
                {
                    if marks[q] {
                        let ghost old_orbit = orbit@;
                        orbit.push(q);
                        assigned.set(q, true);
                        proof {
                            assert forall|x: usize| x < q + 1 implies (orbit@.contains(x) <==> #[trigger] marks@[x as int]) by {
                                if x == q {
                                    assert(orbit@[old_orbit.len() as int] == q);
                                } else if orbit@.contains(x) {
                                    let i = choose|i: int| 0 <= i < orbit@.len() && orbit@[i] == x;
                                    assert(i < old_orbit.len());
                                    assert(old_orbit[i] == x);
                                    assert(old_orbit.contains(x));
                                } else if marks@[x as int] {
                                    assert(old_orbit.contains(x));
                                    let i = choose|i: int| 0 <= i < old_orbit.len() && old_orbit[i] == x;
                                    assert(orbit@[i] == x);
                                }
                            }
                            assert forall|x: usize| q + 1 <= x implies !#[trigger] orbit@.contains(x) by {
                                if orbit@.contains(x) {
                                    let i = choose|i: int| 0 <= i < orbit@.len() && orbit@[i] == x;
                                    if i < old_orbit.len() {
                                        assert(old_orbit[i] == x);
                                        assert(old_orbit.contains(x));
                                    }
                                }
                            }
                        }
                    } else {
                        proof {
                            assert forall|x: usize| x < q + 1 implies (orbit@.contains(x) <==> #[trigger] marks@[x as int]) by {
                                if x == q {
                                    assert(!orbit@.contains(x));
                                }
                            }
                        }
                    }
                    q = q + 1;
                }
                proof {
                    assert(es[0]@[p as int] == p as usize);
                    assert(in_orbit(es, p as int, p as int));
                    assert(marks@[p as int]);
                    assert(orbit@.contains(p as usize));
                    assert forall|x: int| 0 <= x < n implies (orbit@.contains(x as usize) <==> in_orbit(es, p as int, x)) by {
                        assert(marks@[(x as usize) as int] == marks@[x]);
                    }
                    assert(is_orbit_list(es, orbit@, n as nat));
                }
                let ghost old_result = result@;
                result.push(orbit);
                proof {
                    assert forall|k: int|
                        0 <= k < result@.len() implies is_orbit_list(es, #[trigger] result@[k]@, n as nat) by {
                        if k < old_result.len() {
                            assert(result@[k] == old_result[k]);
                        } else {
                            assert(result@[k]@.contains(p as usize));
                        }
                    }
                    assert forall|k: int| 0 <= k < result@.len() implies ascending_below(#[trigger] result@[k]@, n as nat) by {
                        if k < old_result.len() {
                            assert(result@[k] == old_result[k]);
                        }
                    }
                    assert forall|x: int|
                        0 <= x < n && #[trigger] assigned@[x] implies in_some_list(result@, x) by {
                        if marks@[x] {
                            assert(result@[old_result.len() as int]@.contains(x as usize));
                        } else {
                            assert(in_some_list(old_result, x));
                            let k = choose|k: int| 0 <= k < old_result.len() && (#[trigger] old_result[k])@.contains(x as usize);
                            assert(result@[k] == old_result[k]);
                        }
                    }
                }
            }
            p = p + 1;
        }
        proof {
            assert forall|q: int| 0 <= q < n implies #[trigger] in_some_list(result@, q) by {
                assert(assigned@[q]);
            }
        }
        result
    }
}

} // verus!
