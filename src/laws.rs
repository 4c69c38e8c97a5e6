use vstd::prelude::*;

use crate::complex::{
    lemma_add_associative, lemma_add_commutative, lemma_add_zero, lemma_mul_commutative,
    lemma_mul_zero, norm, Complex, SCALE,
};
use crate::polynomial::{
    add_in_ring_spec, add_spec, all_zero, canonical, conv_partial, conv_term, division_spec,
    division_step, ring_divisor,
    fold_sum, lemma_add_spec_len, lemma_canonical_len, lemma_long_division_len, lemma_reduced_len,
    lemma_trim_props, long_division, mul_in_ring_spec, mul_spec, product_seq, reduced, sum_seq,
    trim_seq, zero_seq, Polynomial,
};

verus! {

proof fn lemma_fold_ext(f: spec_fn(int) -> Complex, g: spec_fn(int) -> Complex, n: nat)
    requires
        forall|i: int| 0 <= i < n ==> #[trigger] f(i) == g(i),
    ensures
        fold_sum(f, n) == fold_sum(g, n),
    decreases n,
{
    if n > 0 {
        lemma_fold_ext(f, g, (n - 1) as nat);
    }
}

proof fn lemma_fold_zero_tail(f: spec_fn(int) -> Complex, n: nat, m: nat)
    requires
        n <= m,
        forall|i: int| n <= i < m ==> #[trigger] f(i) == Complex::spec_zero(),
    ensures
        fold_sum(f, m) == fold_sum(f, n),
    decreases m,
{
    if m > n {
        lemma_fold_zero_tail(f, n, (m - 1) as nat);
        lemma_add_zero(fold_sum(f, (m - 1) as nat));
    }
}

proof fn lemma_fold_peel_front(f: spec_fn(int) -> Complex, n: nat)
    ensures
        fold_sum(f, n + 1) == f(0).spec_add(fold_sum(|i: int| f(i + 1), n)),
    decreases n,
{
    let g = |i: int| f(i + 1);
    if n == 0 {
        lemma_add_zero(f(0));
        assert(fold_sum(f, 0) == Complex::spec_zero());
        assert(fold_sum(g, 0) == Complex::spec_zero());
        assert(fold_sum(f, 1) == Complex::spec_zero().spec_add(f(0)));
    } else {
        lemma_fold_peel_front(f, (n - 1) as nat);
        lemma_add_associative(f(0), fold_sum(g, (n - 1) as nat), g(n - 1));
        assert(fold_sum(g, n) == fold_sum(g, (n - 1) as nat).spec_add(g(n - 1)));
    }
}

proof fn lemma_fold_reverse(f: spec_fn(int) -> Complex, n: nat)
    ensures
        fold_sum(f, n) == fold_sum(|i: int| f(n - 1 - i), n),
    decreases n,
{
    if n > 0 {
        let m = (n - 1) as nat;
        let r = |i: int| f(n - 1 - i);
        let g = |i: int| f(i + 1);
        lemma_fold_reverse(g, m);
        lemma_fold_ext(r, |i: int| g(m - 1 - i), m);
        lemma_fold_peel_front(f, m);
        lemma_add_commutative(fold_sum(g, m), f(0));
        assert(fold_sum(r, n) == fold_sum(r, m).spec_add(r(m as int)));
    }
}

/// Coefficient `k` of the schoolbook product is the sum of the products over
/// indices `0..=k` of `a`.
proof fn lemma_conv_full(a: Seq<Complex>, b: Seq<Complex>, k: int)
    requires
        0 <= k,
    ensures
        conv_partial(a, b, k, a.len()) == fold_sum(|i: int| conv_term(a, b, k, i), (k + 1) as nat),
{
    let f = |i: int| conv_term(a, b, k, i);
    assert(conv_partial(a, b, k, a.len()) == fold_sum(f, a.len()));
    if a.len() <= k + 1 {
        lemma_fold_zero_tail(f, a.len(), (k + 1) as nat);
    } else {
        lemma_fold_zero_tail(f, (k + 1) as nat, a.len());
    }
}

/// `p[i] + (p[i + n] + (p[i + 2n] + ...))`: every coefficient whose index is
/// `i` plus a multiple of `n`, summed.
pub open spec fn folded(p: Seq<Complex>, n: nat, i: int) -> Complex
    decreases p.len() + n - i,
{
    if n == 0 || i < 0 || i >= p.len() {
        Complex::spec_zero()
    } else {
        p[i].spec_add(folded(p, n, i + n))
    }
}

proof fn lemma_unit_arithmetic(c: Complex)
    ensures
        c.spec_div(Complex { re: SCALE, im: 0 }) == c,
        c.spec_mul(Complex { re: (-SCALE) as i32, im: 0 }).spec_neg() == c,
        c.spec_mul(Complex::spec_zero()).spec_neg() == Complex::spec_zero(),
{
    let one = Complex { re: SCALE, im: 0 };
    let minus_one = Complex { re: (-SCALE) as i32, im: 0 };
    assert(minus_one.re == -65536);
    assert(norm(one) == 65536 * 65536);
    assert((c.re * one.re + c.im * one.im) * SCALE == c.re * (65536 * 65536)) by (nonlinear_arith)
        requires
            one.re == 65536,
            one.im == 0,
    ;
    assert((c.im * one.re - c.re * one.im) * SCALE == c.im * (65536 * 65536)) by (nonlinear_arith)
        requires
            one.re == 65536,
            one.im == 0,
    ;
    vstd::arithmetic::div_mod::lemma_div_multiples_vanish(c.re as int, 65536int * 65536);
    vstd::arithmetic::div_mod::lemma_div_multiples_vanish(c.im as int, 65536int * 65536);
    assert(c.re * minus_one.re - c.im * minus_one.im == (-c.re) * 65536) by (nonlinear_arith)
        requires
            minus_one.re == -65536,
            minus_one.im == 0,
    ;
    assert(c.re * minus_one.im + c.im * minus_one.re == (-c.im) * 65536) by (nonlinear_arith)
        requires
            minus_one.re == -65536,
            minus_one.im == 0,
    ;
    vstd::arithmetic::div_mod::lemma_div_multiples_vanish(-c.re, 65536);
    vstd::arithmetic::div_mod::lemma_div_multiples_vanish(-c.im, 65536);
    lemma_neg_of_negated(c.re);
    lemma_neg_of_negated(c.im);
    lemma_mul_zero(c);
}

/// Negating `-x` (truncated to 32 bits) gives `x` back, also for `i32::MIN`.
proof fn lemma_neg_of_negated(x: i32)
    ensures
        0i32.wrapping_sub((-x) as i32) == x,
{
    if x == i32::MIN {
        assert((0x8000_0000int) as i32 == i32::MIN) by (bit_vector);
    }
}

/// One step of dividing by `x^n - 1` adds the leading coefficient onto the
/// coefficient `n` places below it, and keeps every folded sum.
proof fn lemma_ring_step_folded(rem: Seq<Complex>, n: nat, j: int)
    requires
        n >= 1,
        rem.len() >= n + 1,
        0 <= j < rem.len() - 1,
    ensures
        ({
            let d = ring_divisor(n);
            let k = rem.len() - d.len();
            let next = division_step(rem, d, rem.last().spec_div(d.last()), k);
            folded(next, n, j) == folded(rem, n, j)
        }),
    decreases rem.len() - j,
{
    let d = ring_divisor(n);
    let k = rem.len() - d.len();
    let c = rem.last().spec_div(d.last());
    let next = division_step(rem, d, c, k);
    lemma_unit_arithmetic(rem.last());
    assert(c == rem.last());
    assert(next.len() == rem.len() - 1);
    if j == k {
        assert(d[0] == Complex { re: (-SCALE) as i32, im: 0 });
        assert(next[j] == rem[j].spec_add(rem.last()));
        assert(folded(next, n, j + n) == Complex::spec_zero());
        assert(folded(rem, n, j + n + n) == Complex::spec_zero());
        assert(folded(rem, n, j + n) == rem.last().spec_add(Complex::spec_zero()));
        lemma_add_zero(rem.last());
        lemma_add_zero(next[j]);
        lemma_add_zero(rem[j]);
    } else {
        assert(next[j] == rem[j]) by {
            if k < j < k + n {
                assert(d[j - k] == Complex::spec_zero());
                lemma_unit_arithmetic(c);
                lemma_add_zero(rem[j]);
            }
        }
        if j > k {
            assert(folded(next, n, j + n) == Complex::spec_zero());
            assert(folded(rem, n, j + n) == Complex::spec_zero());
        } else {
            lemma_ring_step_folded(rem, n, j + n);
        }
    }
}

/// The remainder of a division by `x^n - 1` holds the folded sums.
proof fn lemma_ring_remainder(p: Seq<Complex>, n: nat, i: int)
    requires
        n >= 1,
        p.len() >= n,
        0 <= i < n,
    ensures
        long_division(p, ring_divisor(n)).1[i] == folded(p, n, i),
    decreases p.len(),
{
    let d = ring_divisor(n);
    if p.len() < d.len() {
        assert(folded(p, n, i + n) == Complex::spec_zero());
        lemma_add_zero(p[i]);
    } else {
        let k = p.len() - d.len();
        let next = division_step(p, d, p.last().spec_div(d.last()), k);
        lemma_ring_remainder(next, n, i);
        lemma_ring_step_folded(p, n, i);
    }
}

/// Reducing a polynomial of degree at least `n >= 1` modulo `x^n - 1` adds
/// each coefficient of `x^(i + t*n)` onto `x^i`: the cyclic structure of
/// C[x]/(x^n - 1), where `x^n` is identified with 1.
pub proof fn lemma_reduce_folds_cyclically(p: Polynomial, n: nat)
    requires
        p.wf(),
        n >= 1,
        p.degree >= n,
    ensures
        reduced(p@, n) == canonical(Seq::new(n, |i: int| folded(p@, n, i))),
{
    let d = ring_divisor(n);
    let r = long_division(p@, d).1;
    lemma_long_division_len(p@, d);
    assert forall|i: int| 0 <= i < n implies r[i] == folded(p@, n, i) by {
        lemma_ring_remainder(p@, n, i);
    }
    assert(r =~= Seq::new(n, |i: int| folded(p@, n, i)));
}

/// Addition of polynomials is commutative, and adding the zero polynomial
/// trims the other operand.
pub proof fn lemma_add_commutative_and_zero(p: Polynomial, q: Polynomial)
    requires
        p.wf(),
        q.wf(),
    ensures
        add_spec(p@, q@) == add_spec(q@, p@),
        add_spec(p@, zero_seq()) == trim_seq(p@),
{
    assert forall|i: int| 0 <= i < sum_seq(p@, q@).len() implies sum_seq(p@, q@)[i] == sum_seq(
        q@,
        p@,
    )[i] by {
        lemma_add_commutative(crate::polynomial::coef(p@, i), crate::polynomial::coef(q@, i));
    }
    assert(sum_seq(p@, q@) =~= sum_seq(q@, p@));
    assert forall|i: int| 0 <= i < p@.len() implies sum_seq(p@, zero_seq())[i] == p@[i] by {
        lemma_add_zero(p@[i]);
    }
    assert(sum_seq(p@, zero_seq()) =~= p@);
}

/// Multiplication of polynomials is commutative, and multiplying by the zero
/// polynomial gives the zero polynomial.
pub proof fn lemma_mul_commutative_and_zero(p: Polynomial, q: Polynomial)
    requires
        p.wf(),
        q.wf(),
    ensures
        mul_spec(p@, q@) == mul_spec(q@, p@),
        mul_spec(p@, zero_seq()) == zero_seq(),
{
    let a = p@;
    let b = q@;
    assert forall|k: int| 0 <= k < product_seq(a, b).len() implies product_seq(a, b)[k]
        == product_seq(b, a)[k] by {
        let f = |i: int| conv_term(a, b, k, i);
        let g = |j: int| conv_term(b, a, k, j);
        lemma_conv_full(a, b, k);
        lemma_conv_full(b, a, k);
        assert forall|j: int| 0 <= j < k + 1 implies #[trigger] g(j) == f(k - j) by {
            if 0 <= j < b.len() && 0 <= k - j < a.len() {
                lemma_mul_commutative(b[j], a[k - j]);
            }
        }
        lemma_fold_ext(g, |i: int| f(k - i), (k + 1) as nat);
        lemma_fold_reverse(f, (k + 1) as nat);
        lemma_fold_ext(|i: int| f((k + 1) - 1 - i), |i: int| f(k - i), (k + 1) as nat);
    }
    assert(product_seq(a, b) =~= product_seq(b, a));

    let z = zero_seq();
    let prod = product_seq(a, z);
    assert forall|k: int| 0 <= k < prod.len() implies (#[trigger] prod[k]).is_zero() by {
        let f = |i: int| conv_term(a, z, k, i);
        assert forall|i: int| 0 <= i < a.len() implies #[trigger] f(i) == Complex::spec_zero() by {
            lemma_mul_zero(a[i]);
        }
        lemma_fold_zero_tail(f, 0, a.len());
        assert(prod[k] == fold_sum(f, a.len()));
    }
    lemma_trim_all_zero(prod);
}

proof fn lemma_trim_all_zero(s: Seq<Complex>)
    requires
        s.len() >= 1,
        all_zero(s),
    ensures
        trim_seq(s) == zero_seq(),
{
    lemma_trim_props(s);
    let t = trim_seq(s);
    if t.len() > 1 {
        assert(t.last() == s[t.len() - 1]);
    }
    assert(t =~= zero_seq());
}

/// Reducing a polynomial whose degree is below the ring size leaves it unchanged.
pub proof fn lemma_reduce_small(p: Polynomial, n: nat)
    requires
        p.wf(),
        p.degree < n,
    ensures
        reduced(p@, n) == p@,
{
}

/// The remainder of a division by a polynomial of degree at least 1 has a
/// lower degree than the divisor.
pub proof fn lemma_remainder_degree(p: Polynomial, d: Polynomial)
    requires
        p.wf(),
        d.wf(),
        trim_seq(d@).len() >= 2,
    ensures
        division_spec(p@, d@).1.len() < trim_seq(d@).len(),
{
    let dt = trim_seq(d@);
    if p@.len() >= dt.len() {
        lemma_long_division_len(p@, dt);
        lemma_canonical_len(long_division(p@, dt).1);
    }
}

/// Sums and products in C[x]/(x^n - 1), for `n >= 1`, have degree below `n`.
pub proof fn lemma_ring_results_degree(a: Polynomial, b: Polynomial, n: nat)
    requires
        a.wf(),
        b.wf(),
        n >= 1,
    ensures
        add_in_ring_spec(a@, b@, n).len() <= n,
        mul_in_ring_spec(a@, b@, n).len() <= n,
{
    lemma_reduced_len(a@, n);
    lemma_reduced_len(b@, n);
    lemma_add_spec_len(reduced(a@, n), reduced(b@, n));
    let prod = mul_spec(reduced(a@, n), reduced(b@, n));
    lemma_canonical_len(product_seq(reduced(a@, n), reduced(b@, n)));
    lemma_reduced_len(prod, n);
}

} // verus!
