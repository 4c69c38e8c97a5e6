use vstd::prelude::*;

use crate::complex::{complex_text, push_complex, Complex, SCALE};
use crate::error::AlgebraError;
use crate::text::{decimal, push_char, push_decimal, push_plus};

verus! {

/// A dense polynomial over `Complex`: `coefficients[i]` is the coefficient of
/// `x^i`, and `degree` is the highest index, so that a well-formed polynomial
/// holds exactly `degree + 1` coefficients.
#[derive(Clone, Debug, PartialEq)]
pub struct Polynomial {
    pub degree: usize,
    pub coefficients: Vec<Complex>,
}

impl View for Polynomial {
    type V = Seq<Complex>;

    open spec fn view(&self) -> Seq<Complex> {
        self.coefficients@
    }
}

/// The coefficients of the canonical zero polynomial.
pub open spec fn zero_seq() -> Seq<Complex> {
    seq![Complex::spec_zero()]
}

/// `s` with its trailing (high-degree) zero coefficients removed, keeping at least one.
pub open spec fn trim_seq(s: Seq<Complex>) -> Seq<Complex>
    decreases s.len(),
{
    if s.len() > 1 && s.last().is_zero() {
        trim_seq(s.drop_last())
    } else {
        s
    }
}

/// The coefficients that `Polynomial::new` stores for `s`: the zero polynomial when `s` is empty.
pub open spec fn from_coefficients(s: Seq<Complex>) -> Seq<Complex> {
    if s.len() == 0 {
        zero_seq()
    } else {
        s
    }
}

/// The trimmed polynomial built from `s`.
pub open spec fn canonical(s: Seq<Complex>) -> Seq<Complex> {
    trim_seq(from_coefficients(s))
}

/// Every coefficient of `s` is zero.
pub open spec fn all_zero(s: Seq<Complex>) -> bool {
    forall|i: int| 0 <= i < s.len() ==> (#[trigger] s[i]).is_zero()
}

/// The coefficient of `x^i` in `s`, zero outside its range.
pub open spec fn coef(s: Seq<Complex>, i: int) -> Complex {
    if 0 <= i < s.len() {
        s[i]
    } else {
        Complex::spec_zero()
    }
}

/// Term-by-term sum, the shorter operand padded with zeros at the high end.
pub open spec fn sum_seq(a: Seq<Complex>, b: Seq<Complex>) -> Seq<Complex> {
    Seq::new(
        if a.len() >= b.len() { a.len() } else { b.len() },
        |i: int| coef(a, i).spec_add(coef(b, i)),
    )
}

/// The coefficients of the sum of the polynomials `a` and `b`.
pub open spec fn add_spec(a: Seq<Complex>, b: Seq<Complex>) -> Seq<Complex> {
    canonical(sum_seq(a, b))
}

/// Every coefficient negated.
pub open spec fn neg_seq(a: Seq<Complex>) -> Seq<Complex> {
    Seq::new(a.len(), |i: int| a[i].spec_neg())
}

/// The left-to-right sum `f(0) + f(1) + ... + f(n - 1)`, starting from zero.
pub open spec fn fold_sum(f: spec_fn(int) -> Complex, n: nat) -> Complex
    decreases n,
{
    if n == 0 {
        Complex::spec_zero()
    } else {
        fold_sum(f, (n - 1) as nat).spec_add(f(n - 1))
    }
}

/// The product `a[i] * b[k - i]` that coefficient `k` of `a * b` receives from
/// index `i` of `a`, zero where either index is out of range.
pub open spec fn conv_term(a: Seq<Complex>, b: Seq<Complex>, k: int, i: int) -> Complex {
    if 0 <= i < a.len() && 0 <= k - i < b.len() {
        a[i].spec_mul(b[k - i])
    } else {
        Complex::spec_zero()
    }
}

/// Coefficient `k` of `a * b` after the products from the first `n` coefficients of `a`.
pub open spec fn conv_partial(a: Seq<Complex>, b: Seq<Complex>, k: int, n: nat) -> Complex {
    fold_sum(|i: int| conv_term(a, b, k, i), n)
}

/// Schoolbook product: coefficient `k` accumulates `a[i] * b[k - i]` in increasing `i`.
pub open spec fn product_seq(a: Seq<Complex>, b: Seq<Complex>) -> Seq<Complex> {
    Seq::new((a.len() + b.len() - 1) as nat, |k: int| conv_partial(a, b, k, a.len()))
}

/// The coefficients of the product of the polynomials `a` and `b`.
pub open spec fn mul_spec(a: Seq<Complex>, b: Seq<Complex>) -> Seq<Complex> {
    canonical(product_seq(a, b))
}

/// One step of long division: subtract `c * x^k * d` from `rem` and drop the
/// leading term, which that subtraction cancels. `rem` holds `d.len() + k` coefficients.
pub open spec fn division_step(rem: Seq<Complex>, d: Seq<Complex>, c: Complex, k: int) -> Seq<
    Complex,
> {
    Seq::new(
        (rem.len() - 1) as nat,
        |i: int|
            if k <= i < k + d.len() - 1 {
                rem[i].spec_add(c.spec_mul(d[i - k]).spec_neg())
            } else {
                rem[i]
            },
    )
}

/// Long division of `rem` by `d` (whose leading coefficient is its last):
/// the quotient's coefficients, lowest first, and what remains, which holds
/// fewer coefficients than `d`.
pub open spec fn long_division(rem: Seq<Complex>, d: Seq<Complex>) -> (Seq<Complex>, Seq<Complex>)
    decreases rem.len(),
{
    if d.len() == 0 || rem.len() < d.len() {
        (Seq::empty(), rem)
    } else {
        let k = rem.len() - d.len();
        let c = rem.last().spec_div(d.last());
        let (q, r) = long_division(division_step(rem, d, c, k), d);
        (q.push(c), r)
    }
}

/// The quotient and remainder of `p` divided by `d`: `d` is trimmed first;
/// when `p` has fewer coefficients the quotient is zero and the remainder is
/// `p` itself, else both come from long division and are trimmed.
pub open spec fn division_spec(p: Seq<Complex>, d: Seq<Complex>) -> (Seq<Complex>, Seq<Complex>) {
    let dt = trim_seq(d);
    if p.len() < dt.len() {
        (zero_seq(), p)
    } else {
        (canonical(long_division(p, dt).0), canonical(long_division(p, dt).1))
    }
}

/// Long division yields `rem.len() - d.len() + 1` quotient coefficients and a
/// remainder one shorter than `d`, or no quotient and `rem` itself when `rem` is shorter.
pub proof fn lemma_long_division_len(rem: Seq<Complex>, d: Seq<Complex>)
    requires
        d.len() >= 1,
    ensures
        rem.len() < d.len() ==> long_division(rem, d).0.len() == 0 && long_division(rem, d).1
            == rem,
        rem.len() >= d.len() ==> long_division(rem, d).0.len() == rem.len() - d.len() + 1
            && long_division(rem, d).1.len() == d.len() - 1,
    decreases rem.len(),
{
    if rem.len() >= d.len() {
        let k = rem.len() - d.len();
        let c = rem.last().spec_div(d.last());
        lemma_long_division_len(division_step(rem, d, c, k), d);
    }
}

/// The coefficients of `x^n - 1` (for `n == 0`, of the constant 1).
pub open spec fn ring_divisor(n: nat) -> Seq<Complex> {
    Seq::new(
        n + 1,
        |i: int|
            if i == n {
                Complex { re: SCALE, im: 0 }
            } else if i == 0 {
                Complex { re: (-SCALE) as i32, im: 0 }
            } else {
                Complex::spec_zero()
            },
    )
}

/// `p` reduced into the ring C[x]/(x^n - 1): unchanged when its degree is
/// below `n`, else the remainder of its division by `x^n - 1`.
pub open spec fn reduced(p: Seq<Complex>, n: nat) -> Seq<Complex> {
    if p.len() <= n {
        p
    } else {
        canonical(long_division(p, ring_divisor(n)).1)
    }
}

/// The coefficients of the sum of `a` and `b` in C[x]/(x^n - 1).
pub open spec fn add_in_ring_spec(a: Seq<Complex>, b: Seq<Complex>, n: nat) -> Seq<Complex> {
    add_spec(reduced(a, n), reduced(b, n))
}

/// The coefficients of the product of `a` and `b` in C[x]/(x^n - 1).
pub open spec fn mul_in_ring_spec(a: Seq<Complex>, b: Seq<Complex>, n: nat) -> Seq<Complex> {
    reduced(mul_spec(reduced(a, n), reduced(b, n)), n)
}

/// The canonical form holds at least one coefficient and never more than its input.
pub proof fn lemma_canonical_len(s: Seq<Complex>)
    ensures
        1 <= canonical(s).len(),
        s.len() >= 1 ==> canonical(s).len() <= s.len(),
        canonical(s).len() <= 1 || canonical(s).len() <= s.len(),
{
    lemma_trim_props(from_coefficients(s));
}

/// Reduction never lengthens a polynomial and, for `n >= 1`, leaves at most `n` coefficients.
pub proof fn lemma_reduced_len(p: Seq<Complex>, n: nat)
    requires
        p.len() >= 1,
    ensures
        1 <= reduced(p, n).len() <= p.len(),
        n > 0 ==> reduced(p, n).len() <= n,
{
    if p.len() > n {
        lemma_long_division_len(p, ring_divisor(n));
        lemma_canonical_len(long_division(p, ring_divisor(n)).1);
    }
}

/// A sum is no longer than the longer operand.
pub proof fn lemma_add_spec_len(a: Seq<Complex>, b: Seq<Complex>)
    requires
        a.len() >= 1,
        b.len() >= 1,
    ensures
        1 <= add_spec(a, b).len(),
        add_spec(a, b).len() <= a.len() || add_spec(a, b).len() <= b.len(),
{
    lemma_canonical_len(sum_seq(a, b));
}

/// The text of one term: `(c)X<degree>`, `(c)X` for degree 1, `(c)` for degree 0.
pub open spec fn term_text(c: Complex, degree: nat) -> Seq<char> {
    seq!['('] + complex_text(c) + seq![')'] + (if degree == 0 {
        Seq::empty()
    } else if degree == 1 {
        seq!['X']
    } else {
        seq!['X'] + decimal(degree)
    })
}

/// The texts of the non-zero terms among indices `lo..s.len()`, highest degree first.
pub open spec fn terms_from(s: Seq<Complex>, lo: int) -> Seq<Seq<char>>
    decreases s.len() - lo,
{
    if lo < 0 || lo >= s.len() {
        Seq::empty()
    } else if s[lo].is_zero() {
        terms_from(s, lo + 1)
    } else {
        terms_from(s, lo + 1).push(term_text(s[lo], lo as nat))
    }
}

/// The texts joined by `" + "`.
pub open spec fn join_terms(ts: Seq<Seq<char>>) -> Seq<char>
    decreases ts.len(),
{
    if ts.len() == 0 {
        Seq::empty()
    } else if ts.len() == 1 {
        ts[0]
    } else {
        join_terms(ts.drop_last()) + seq![' ', '+', ' '] + ts.last()
    }
}

/// The display form of a polynomial: its non-zero terms, highest degree
/// first, joined by `" + "`; `0` when every coefficient is zero.
pub open spec fn render_spec(s: Seq<Complex>) -> Seq<char> {
    if terms_from(s, 0).len() == 0 {
        seq!['0']
    } else {
        join_terms(terms_from(s, 0))
    }
}

/// Trimming keeps a non-empty prefix whose last coefficient is non-zero
/// (unless only one is left), dropping only zero coefficients.
pub proof fn lemma_trim_props(s: Seq<Complex>)
    requires
        s.len() >= 1,
    ensures
        1 <= trim_seq(s).len() <= s.len(),
        trim_seq(s) == s.subrange(0, trim_seq(s).len() as int),
        forall|i: int| trim_seq(s).len() <= i < s.len() ==> (#[trigger] s[i]).is_zero(),
        trim_seq(s).len() > 1 ==> !trim_seq(s).last().is_zero(),
        trim_seq(s).len() == 1 && trim_seq(s)[0].is_zero() ==> all_zero(s),
    decreases s.len(),
{
    if s.len() > 1 && s.last().is_zero() {
        lemma_trim_props(s.drop_last());
        assert(trim_seq(s) == trim_seq(s.drop_last()));
        assert forall|i: int| trim_seq(s).len() <= i < s.len() implies (#[trigger] s[i]).is_zero() by {
            if i < s.len() - 1 {
                assert(s[i] == s.drop_last()[i]);
            }
        }
        assert(s.drop_last().subrange(0, trim_seq(s).len() as int) =~= s.subrange(
            0,
            trim_seq(s).len() as int,
        ));
        if trim_seq(s).len() == 1 && trim_seq(s)[0].is_zero() {
            assert forall|i: int| 0 <= i < s.len() implies (#[trigger] s[i]).is_zero() by {
                if i < s.len() - 1 {
                    assert(s[i] == s.drop_last()[i]);
                }
            }
        }
    } else {
        assert(s.subrange(0, s.len() as int) =~= s);
    }
}

/// Trimming a sequence whose last coefficient is not zero leaves it unchanged.
pub proof fn lemma_trim_nonzero_last(s: Seq<Complex>)
    requires
        s.len() >= 1,
        !s.last().is_zero(),
    ensures
        trim_seq(s) == s,
{
}

/// Trimming is idempotent.
pub proof fn lemma_trim_idempotent(s: Seq<Complex>)
    requires
        s.len() >= 1,
    ensures
        trim_seq(trim_seq(s)) == trim_seq(s),
{
    lemma_trim_props(s);
}

/// One more index of `a` adds one more product to coefficient `k`.
pub proof fn lemma_conv_partial_step(a: Seq<Complex>, b: Seq<Complex>, k: int, n: nat)
    ensures
        conv_partial(a, b, k, n + 1) == conv_partial(a, b, k, n).spec_add(conv_term(a, b, k, n as int)),
{
    assert(conv_partial(a, b, k, n + 1) == fold_sum(|i: int| conv_term(a, b, k, i), n + 1));
}

/// Appends the text of the term `c * x^degree`.
fn push_term(s: &mut String, c: &Complex, degree: usize)
    ensures
        final(s)@ == old(s)@ + term_text(*c, degree as nat),
{
    push_char(s, '(');
    push_complex(s, c);
    push_char(s, ')');
    if degree >= 1 {
        push_char(s, 'X');
        if degree >= 2 {
            push_decimal(s, degree);
        }
    }
    proof {
        assert(s@ =~= old(s)@ + term_text(*c, degree as nat));
    }
}

impl Polynomial {
    /// The polynomial holds `degree + 1` coefficients.
    pub open spec fn wf(&self) -> bool {
        self.coefficients@.len() == self.degree + 1
    }

    /// The polynomial is trimmed: its leading coefficient is non-zero unless its degree is 0.
    pub open spec fn is_trimmed(&self) -> bool {
        trim_seq(self@) == self@
    }

    /// The canonical zero polynomial: degree 0, one zero coefficient.
    pub fn zero() -> (r: Polynomial)
        ensures
            r.wf(),
            r@ == zero_seq(),
    {
        let mut coefficients: Vec<Complex> = Vec::new();
        coefficients.push(Complex::zero());
        proof {
            assert(coefficients@ =~= zero_seq());
        }
        Polynomial { degree: 0, coefficients }
    }

    /// A polynomial from its coefficients, lowest degree first; empty input gives zero.
    pub fn new(coefficients: Vec<Complex>) -> (r: Polynomial)
        ensures
            r.wf(),
            r@ == from_coefficients(coefficients@),
    {
        if coefficients.len() == 0 {
            Polynomial::zero()
        } else {
            Polynomial { degree: coefficients.len() - 1, coefficients }
        }
    }

    /// A polynomial from a declared degree and its coefficients; fails with
    /// `InvalidDegree` unless there are exactly `degree + 1` coefficients.
    pub fn with_degree(degree: usize, coefficients: Vec<Complex>) -> (r: Result<
        Polynomial,
        AlgebraError,
    >)
        ensures
            r is Ok <==> coefficients@.len() == degree + 1,
            r matches Ok(p) ==> p.wf() && p.degree == degree && p.coefficients@ == coefficients@,
            r matches Err(e) ==> e == AlgebraError::InvalidDegree,
    {
        let n = coefficients.len();
        if degree < usize::MAX && n == degree + 1 {
            Ok(Polynomial { degree, coefficients })
        } else {
            Err(AlgebraError::InvalidDegree)
        }
    }

    /// A copy of this polynomial.
    pub fn copy(&self) -> (r: Polynomial)
        requires
            self.wf(),
        ensures
            r.wf(),
            r.degree == self.degree,
            r@ == self@,
    {
        let mut coefficients: Vec<Complex> = Vec::new();
        let mut i: usize = 0;
        while i < self.coefficients.len()
            invariant
                i <= self.coefficients.len(),
                coefficients@ == self@.subrange(0, i as int),
            decreases self.coefficients.len() - i,
        {
            coefficients.push(self.coefficients[i]);
            i += 1;
            proof {
                assert(coefficients@ =~= self@.subrange(0, i as int));
            }
        }
        proof {
            assert(coefficients@ =~= self@);
        }
        Polynomial { degree: self.degree, coefficients }
    }

    /// Removes the trailing zero coefficients, keeping at least one, and
    /// adjusts the degree.
    pub fn trim(self) -> (r: Polynomial)
        requires
            self.wf(),
        ensures
            r.wf(),
            r@ == trim_seq(self@),
    {
        let ghost input = self@;
        let mut coefficients = self.coefficients;
        while coefficients.len() > 1 && coefficients[coefficients.len() - 1].is_zero_exec()
            invariant
                coefficients.len() >= 1,
                trim_seq(coefficients@) == trim_seq(input),
            decreases coefficients.len(),
        {
            coefficients.pop();
        }
        Polynomial { degree: coefficients.len() - 1, coefficients }
    }

    /// Sum of two polynomials, trimmed.
    pub fn add(a: &Polynomial, b: &Polynomial) -> (r: Polynomial)
        requires
            a.wf(),
            b.wf(),
        ensures
            r.wf(),
            r@ == add_spec(a@, b@),
    {
        let len = if a.coefficients.len() >= b.coefficients.len() {
            a.coefficients.len()
        } else {
            b.coefficients.len()
        };
        let mut coefficients: Vec<Complex> = Vec::new();
        let mut i: usize = 0;
        while i < len
            invariant
                i <= len,
                len == sum_seq(a@, b@).len(),
                coefficients@ == sum_seq(a@, b@).subrange(0, i as int),
            decreases len - i,
        {
            let x = if i < a.coefficients.len() {
                a.coefficients[i]
            } else {
                Complex::zero()
            };
            let y = if i < b.coefficients.len() {
                b.coefficients[i]
            } else {
                Complex::zero()
            };
            coefficients.push(x.add(&y));
            i += 1;
            proof {
                assert(coefficients@ =~= sum_seq(a@, b@).subrange(0, i as int));
            }
        }
        proof {
            assert(coefficients@ =~= sum_seq(a@, b@));
        }
        Polynomial::new(coefficients).trim()
    }

    /// Product of two polynomials by the schoolbook method, trimmed.
    pub fn mul(a: &Polynomial, b: &Polynomial) -> (r: Polynomial)
        requires
            a.wf(),
            b.wf(),
            a@.len() + b@.len() <= usize::MAX,
        ensures
            r.wf(),
            r@ == mul_spec(a@, b@),
    {
        let la = a.coefficients.len();
        let lb = b.coefficients.len();
        let len = la + lb - 1;
        let mut coefficients: Vec<Complex> = Vec::new();
        let mut n: usize = 0;
        while n < len
            invariant
                n <= len,
                coefficients.len() == n,
                forall|k: int| 0 <= k < n ==> #[trigger] coefficients@[k] == conv_partial(a@, b@, k, 0),
            decreases len - n,
        {
            coefficients.push(Complex::zero());
            n += 1;
        }
        let mut i: usize = 0;
        while i < la
            invariant
                la == a@.len(),
                lb == b@.len(),
                len == la + lb - 1,
                i <= la,
                coefficients.len() == len,
                forall|k: int| 0 <= k < len ==> #[trigger] coefficients@[k] == conv_partial(a@, b@, k, i as nat),
            decreases la - i,
        {
            let mut j: usize = 0;
            while j < lb
                invariant
                    la == a@.len(),
                    lb == b@.len(),
                    len == la + lb - 1,
                    i < la,
                    j <= lb,
                    coefficients.len() == len,
                    forall|k: int|
                        0 <= k < len ==> #[trigger] coefficients@[k] == if i <= k < i + j {
                            conv_partial(a@, b@, k, (i + 1) as nat)
                        } else {
                            conv_partial(a@, b@, k, i as nat)
                        },
                decreases lb - j,
            {
                let t = a.coefficients[i].mul(&b.coefficients[j]);
                let v = coefficients[i + j].add(&t);
                proof {
                    lemma_conv_partial_step(a@, b@, (i + j) as int, i as nat);
                }
                coefficients.set(i + j, v);
                j += 1;
            }
            proof {
                assert forall|k: int| 0 <= k < len implies #[trigger] coefficients@[k] == conv_partial(
                    a@,
                    b@,
                    k,
                    (i + 1) as nat,
                ) by {
                    if !(i <= k < i + lb) {
                        lemma_conv_partial_step(a@, b@, k, i as nat);
                        crate::complex::lemma_add_zero(conv_partial(a@, b@, k, i as nat));
                    }
                }
            }
            i += 1;
        }
        proof {
            assert(coefficients@ =~= product_seq(a@, b@));
        }
        Polynomial::new(coefficients).trim()
    }

    /// Euclidean (long) division: the quotient and remainder of `numerator`
    /// divided by `denominator`, both trimmed. The denominator is trimmed
    /// first; division by the zero polynomial fails with `DivisionByZero`. When
    /// the numerator's degree is below the denominator's, the quotient is zero
    /// and the remainder is the numerator unchanged.
    pub fn euclidean_division(numerator: &Polynomial, denominator: &Polynomial) -> (r: Result<
        (Polynomial, Polynomial),
        AlgebraError,
    >)
        requires
            numerator.wf(),
            denominator.wf(),
        ensures
            r is Err <==> all_zero(denominator@),
            r matches Err(e) ==> e == AlgebraError::DivisionByZero,
            r matches Ok((q, rem)) ==> {
                &&& q.wf()
                &&& rem.wf()
                &&& (q@, rem@) == division_spec(numerator@, denominator@)
            },
    {
        let d = denominator.copy().trim();
        proof {
            lemma_trim_props(denominator@);
        }
        if d.degree == 0 && d.coefficients[0].is_zero_exec() {
            return Err(AlgebraError::DivisionByZero);
        }
        proof {
            lemma_trim_idempotent(denominator@);
            if all_zero(denominator@) {
                assert(denominator@[0].is_zero());
                assert(d@[0] == denominator@[0]);
                if d@.len() > 1 {
                    assert(d@.last() == denominator@[d@.len() - 1]);
                }
            }
        }
        Ok(Polynomial::divide_by_nonzero(numerator, &d))
    }

    /// Long division by a trimmed, non-zero polynomial `d`.
    fn divide_by_nonzero(numerator: &Polynomial, d: &Polynomial) -> (r: (Polynomial, Polynomial))
        requires
            numerator.wf(),
            d.wf(),
            d.is_trimmed(),
            !all_zero(d@),
        ensures
            r.0.wf(),
            r.1.wf(),
            if numerator.degree < d.degree {
                r.0@ == zero_seq() && r.1@ == numerator@
            } else {
                r.0@ == canonical(long_division(numerator@, d@).0) && r.1@ == canonical(
                    long_division(numerator@, d@).1,
                )
            },
    {
        proof {
            lemma_trim_props(d@);
            if d@.len() == 1 {
                assert(!d@[0].is_zero());
            }
        }
        if numerator.degree < d.degree {
            return (Polynomial::zero(), numerator.copy());
        }
        let m = d.degree;
        let lead = d.coefficients[m];
        let ghost dv = d@;
        let ghost full = long_division(numerator@, dv);
        let qlen = numerator.coefficients.len() - m;
        let mut quotient: Vec<Complex> = Vec::new();
        let mut n: usize = 0;
        while n < qlen
            invariant
                n <= qlen,
                quotient.len() == n,
            decreases qlen - n,
        {
            quotient.push(Complex::zero());
            n += 1;
        }
        let mut rem = numerator.copy().coefficients;
        proof {
            lemma_long_division_len(numerator@, dv);
            assert(quotient@.subrange(qlen as int, qlen as int) =~= Seq::<Complex>::empty());
            assert(long_division(rem@, dv).0 + quotient@.subrange(qlen as int, qlen as int)
                =~= long_division(rem@, dv).0);
        }
        while rem.len() > m
            invariant
                dv == d@,
                d.wf(),
                m == d.degree,
                lead == dv[m as int],
                !lead.is_zero(),
                quotient.len() == qlen,
                m < rem.len() <= numerator@.len() || rem.len() == m,
                rem.len() <= m + qlen,
                long_division(rem@, dv).1 == full.1,
                long_division(rem@, dv).0 + quotient@.subrange(rem.len() - m, qlen as int) == full.0,
            decreases rem.len(),
        {
            let top = rem.len() - 1;
            let k = top - m;
            let c = rem[top].div(&lead);
            let ghost before = rem@;
            let ghost old_q = quotient@;
            quotient.set(k, c);
            let mut j: usize = 0;
            while j < m
                invariant
                    dv == d@,
                    d.wf(),
                    m == d.degree,
                    j <= m,
                    k + m == top,
                    top + 1 == before.len(),
                    rem.len() == before.len(),
                    forall|i: int|
                        0 <= i < rem.len() ==> #[trigger] rem@[i] == if k <= i < k + j {
                            before[i].spec_add(c.spec_mul(dv[i - k]).spec_neg())
                        } else {
                            before[i]
                        },
                decreases m - j,
            {
                let t = c.mul(&d.coefficients[j]).neg();
                let v = rem[k + j].add(&t);
                rem.set(k + j, v);
                j += 1;
            }
            rem.pop();
            proof {
                assert(rem@ =~= division_step(before, dv, c, k as int));
                let rest = long_division(rem@, dv);
                assert(long_division(before, dv).0 == rest.0.push(c));
                assert(quotient@.subrange(k as int, qlen as int) =~= seq![c] + old_q.subrange(
                    k + 1,
                    qlen as int,
                ));
                assert(rest.0.push(c) + old_q.subrange(k + 1, qlen as int) =~= rest.0
                    + quotient@.subrange(k as int, qlen as int));
            }
        }
        proof {
            lemma_long_division_len(rem@, dv);
            assert(long_division(rem@, dv).0 + quotient@.subrange(0, qlen as int) =~= quotient@);
        }
        let quotient = Polynomial::new(quotient).trim();
        let remainder = Polynomial::new(rem).trim();
        (quotient, remainder)
    }

    /// This polynomial reduced into C[x]/(x^ring - 1): unchanged when its
    /// degree is below `ring`, else the remainder of its division by `x^ring - 1`.
    pub fn reduce_to(&self, ring: usize) -> (r: Polynomial)
        requires
            self.wf(),
        ensures
            r.wf(),
            r@ == reduced(self@, ring as nat),
            ring > 0 ==> r.degree < ring,
    {
        proof {
            lemma_reduced_len(self@, ring as nat);
        }
        if self.degree < ring {
            return self.copy();
        }
        let len = self.coefficients.len();
        let mut divisor: Vec<Complex> = Vec::new();
        let mut i: usize = 0;
        while i <= ring
            invariant
                ring < len,
                i <= ring + 1,
                divisor@ =~= ring_divisor(ring as nat).subrange(0, i as int),
            decreases ring + 1 - i,
        {
            let c = if i == ring {
                Complex::from_fixed(SCALE, 0)
            } else if i == 0 {
                Complex::from_fixed(-SCALE, 0)
            } else {
                Complex::zero()
            };
            divisor.push(c);
            i += 1;
        }
        let d = Polynomial::new(divisor);
        proof {
            assert(d@ =~= ring_divisor(ring as nat));
            lemma_trim_nonzero_last(d@);
            assert(!d@.last().is_zero());
        }
        let (_, remainder) = Polynomial::divide_by_nonzero(self, &d);
        remainder
    }

    /// Sum of two polynomials after reducing both into C[x]/(x^ring - 1).
    pub fn add_in_ring(a: &Polynomial, b: &Polynomial, ring: usize) -> (r: Polynomial)
        requires
            a.wf(),
            b.wf(),
        ensures
            r.wf(),
            r@ == add_in_ring_spec(a@, b@, ring as nat),
            ring > 0 ==> r.degree < ring,
    {
        let a = a.reduce_to(ring);
        let b = b.reduce_to(ring);
        proof {
            lemma_add_spec_len(a@, b@);
        }
        Polynomial::add(&a, &b)
    }

    /// Product of two polynomials in C[x]/(x^ring - 1): both operands are
    /// reduced, multiplied, and the product is reduced again.
    pub fn mul_in_ring(a: &Polynomial, b: &Polynomial, ring: usize) -> (r: Polynomial)
        requires
            a.wf(),
            b.wf(),
            a@.len() + b@.len() <= usize::MAX,
        ensures
            r.wf(),
            r@ == mul_in_ring_spec(a@, b@, ring as nat),
            ring > 0 ==> r.degree < ring,
    {
        proof {
            lemma_reduced_len(a@, ring as nat);
            lemma_reduced_len(b@, ring as nat);
        }
        let a = a.reduce_to(ring);
        let b = b.reduce_to(ring);
        let product = Polynomial::mul(&a, &b);
        product.reduce_to(ring)
    }

    /// The display form: the non-zero terms, highest degree first, each as
    /// `(c)X<degree>` (`(c)X` for degree 1, `(c)` for degree 0), joined by
    /// `" + "`; the zero polynomial shows as `0`.
    pub fn render(&self) -> (r: String)
        ensures
            r@ == render_spec(self@),
    {
        let mut s = String::new();
        self.push_render(&mut s);
        proof {
            assert(s@ =~= render_spec(self@));
        }
        s
    }

    /// Appends the display form of this polynomial.
    pub(crate) fn push_render(&self, s: &mut String)
        ensures
            final(s)@ == old(s)@ + render_spec(self@),
    {
        let ghost start = s@;
        let mut count: usize = 0;
        let len = self.coefficients.len();
        let mut i: usize = len;
        while i > 0
            invariant
                len == self@.len(),
                i <= self@.len(),
                count == terms_from(self@, i as int).len(),
                count <= self@.len() - i,
                s@ == start + join_terms(terms_from(self@, i as int)),
            decreases i,
        {
            i -= 1;
            let c = self.coefficients[i];
            let ghost ts = terms_from(self@, i + 1);
            if !c.is_zero_exec() {
                if count > 0 {
                    push_plus(s);
                }
                push_term(s, &c, i);
                proof {
                    let t = term_text(c, i as nat);
                    assert(terms_from(self@, i as int) == ts.push(t));
                    assert(ts.push(t).drop_last() =~= ts);
                    assert(ts.push(t).last() == t);
                    if count > 0 {
                        assert(s@ =~= start + (join_terms(ts) + seq![' ', '+', ' '] + t));
                    } else {
                        assert(s@ =~= start + t);
                    }
                }
                count += 1;
            }
        }
        if count == 0 {
            push_char(s, '0');
            proof {
                assert(s@ =~= start + seq!['0']);
            }
        } else {
            proof {
                assert(s@ == start + render_spec(self@));
            }
        }
    }

    /// Negates every coefficient; the degree is unchanged.
    pub fn neg(self) -> (r: Polynomial)
        requires
            self.wf(),
        ensures
            r.wf(),
            r.degree == self.degree,
            r@ == neg_seq(self@),
    {
        let ghost input = self@;
        let degree = self.degree;
        let mut coefficients = self.coefficients;
        let mut i: usize = 0;
        while i < coefficients.len()
            invariant
                i <= coefficients.len(),
                coefficients.len() == input.len(),
                forall|j: int| 0 <= j < i ==> coefficients@[j] == input[j].spec_neg(),
                forall|j: int| i <= j < input.len() ==> coefficients@[j] == input[j],
            decreases coefficients.len() - i,
        {
            let c = coefficients[i].neg();
            coefficients.set(i, c);
            i += 1;
        }
        proof {
            assert(coefficients@ =~= neg_seq(input));
        }
        Polynomial { degree, coefficients }
    }
}

} // verus!
