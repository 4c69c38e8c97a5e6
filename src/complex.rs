use vstd::prelude::*;

use crate::text::{decimal, digit, digit_char, push_char, push_decimal, push_plus};

verus! {

/// Number of raw units in one whole unit: parts are Q16.16 fixed-point numbers.
pub const SCALE: i32 = 65536;

/// A complex number whose real and imaginary parts are Q16.16 fixed-point
/// numbers stored as raw `i32` values (the value of a part is `raw / 65536`).
///
/// Sums wrap around on overflow, as two's-complement integers do; products
/// and quotients are rounded down to the nearest representable value and then
/// wrapped.
#[derive(Clone, Copy, Debug, PartialEq, Eq, Structural)]
pub struct Complex {
    pub re: i32,
    pub im: i32,
}

/// Floor division by a positive divisor (Euclidean division in specs).
pub open spec fn floor_div(n: int, d: int) -> int {
    n / d
}

/// The squared modulus of `d`, in raw units squared.
pub open spec fn norm(d: Complex) -> int {
    d.re * d.re + d.im * d.im
}

/// Up to `steps` decimal digits of the fraction `f / 65536` (`0 <= f < 65536`),
/// stopping once the rest is zero.
pub open spec fn fraction_digits(f: nat, steps: nat) -> Seq<char>
    decreases steps,
{
    if steps == 0 || f == 0 {
        Seq::empty()
    } else {
        seq![digit_char((f * 10 / 65536) as int)] + fraction_digits(
            (f * 10) % 65536,
            (steps - 1) as nat,
        )
    }
}

/// The magnitude of a raw part.
pub open spec fn magnitude(v: i32) -> nat {
    if v < 0 {
        (-v) as nat
    } else {
        v as nat
    }
}

/// The exact decimal text of the fixed-point value `v / 65536`: a sign for
/// negative values, the whole part, and the fractional digits when there are
/// any (sixteen always suffice).
pub open spec fn fixed_text(v: i32) -> Seq<char> {
    let a = magnitude(v);
    (if v < 0 {
        seq!['-']
    } else {
        Seq::empty()
    }) + decimal(a / 65536) + (if a % 65536 == 0 {
        Seq::empty()
    } else {
        seq!['.'] + fraction_digits(a % 65536, 16)
    })
}

/// The text of a complex number: `0`, `re`, `im` followed by `i`, or `re + imi`.
pub open spec fn complex_text(c: Complex) -> Seq<char> {
    if c.is_zero() {
        seq!['0']
    } else if c.im == 0 {
        fixed_text(c.re)
    } else if c.re == 0 {
        fixed_text(c.im).push('i')
    } else {
        fixed_text(c.re) + seq![' ', '+', ' '] + fixed_text(c.im).push('i')
    }
}

/// Appends the exact decimal text of the fixed-point value `v / 65536`.
pub(crate) fn push_fixed(s: &mut String, v: i32)
    ensures
        final(s)@ == old(s)@ + fixed_text(v),
{
    let ghost target = old(s)@ + fixed_text(v);
    let a: u32 = if v < 0 {
        (-(v as i64)) as u32
    } else {
        v as u32
    };
    if v < 0 {
        push_char(s, '-');
    }
    push_decimal(s, (a / 65536) as usize);
    let mut f: u32 = a % 65536;
    if f != 0 {
        push_char(s, '.');
        let mut steps: u32 = 16;
        proof {
            assert(target =~= s@ + fraction_digits(f as nat, steps as nat));
        }
        while steps > 0 && f != 0
            invariant
                f < 65536,
                s@ + fraction_digits(f as nat, steps as nat) == target,
            decreases steps,
        {
            let t = f * 10;
            let ghost before = s@;
            let ghost old_f = f;
            push_char(s, digit((t / 65536) as usize));
            f = t % 65536;
            steps -= 1;
            proof {
                assert(before + fraction_digits(old_f as nat, (steps + 1) as nat) == target);
                assert(s@ + fraction_digits(f as nat, steps as nat) =~= before + (seq![
                    digit_char((t / 65536) as int),
                ] + fraction_digits(f as nat, steps as nat)));
            }
        }
    } else {
        proof {
            assert(s@ =~= target);
        }
    }
}

/// Appends the text of `c`.
pub(crate) fn push_complex(s: &mut String, c: &Complex)
    ensures
        final(s)@ == old(s)@ + complex_text(*c),
{
    if c.re == 0 && c.im == 0 {
        push_char(s, '0');
    } else if c.im == 0 {
        push_fixed(s, c.re);
    } else if c.re == 0 {
        push_fixed(s, c.im);
        push_char(s, 'i');
    } else {
        push_fixed(s, c.re);
        push_plus(s);
        push_fixed(s, c.im);
        push_char(s, 'i');
    }
    proof {
        assert(s@ =~= old(s)@ + complex_text(*c));
    }
}

impl Complex {
    pub open spec fn is_zero(self) -> bool {
        self.re == 0 && self.im == 0
    }

    pub open spec fn spec_zero() -> Complex {
        Complex { re: 0, im: 0 }
    }

    pub open spec fn spec_neg(self) -> Complex {
        Complex { re: 0i32.wrapping_sub(self.re), im: 0i32.wrapping_sub(self.im) }
    }

    pub open spec fn spec_add(self, o: Complex) -> Complex {
        Complex { re: self.re.wrapping_add(o.re), im: self.im.wrapping_add(o.im) }
    }

    /// (a + bi)(c + di) = (ac - bd) + (ad + bc)i, each part rounded down.
    pub open spec fn spec_mul(self, o: Complex) -> Complex {
        Complex {
            re: floor_div(self.re * o.re - self.im * o.im, SCALE as int) as i32,
            im: floor_div(self.re * o.im + self.im * o.re, SCALE as int) as i32,
        }
    }

    /// a / d = a * conj(d) / |d|^2, each part rounded down.
    pub open spec fn spec_div(self, d: Complex) -> Complex {
        Complex {
            re: floor_div((self.re * d.re + self.im * d.im) * SCALE, norm(d)) as i32,
            im: floor_div((self.im * d.re - self.re * d.im) * SCALE, norm(d)) as i32,
        }
    }

    /// The text of this number: `0`, the real part alone when the imaginary
    /// part is zero, `<im>i` when the real part is zero, else `<re> + <im>i`.
    pub fn render(&self) -> (r: String)
        ensures
            r@ == complex_text(*self),
    {
        let mut s = String::new();
        push_complex(&mut s, self);
        proof {
            assert(s@ =~= complex_text(*self));
        }
        s
    }

    /// The complex number `re + im*i` with whole-number parts.
    pub fn new(re: i16, im: i16) -> (r: Complex)
        ensures
            r.re == re * SCALE,
            r.im == im * SCALE,
    {
        Complex { re: re as i32 * SCALE, im: im as i32 * SCALE }
    }

    /// The complex number with the given raw fixed-point parts.
    pub fn from_fixed(re: i32, im: i32) -> (r: Complex)
        ensures
            r.re == re,
            r.im == im,
    {
        Complex { re, im }
    }

    pub fn zero() -> (r: Complex)
        ensures
            r == Complex::spec_zero(),
    {
        Complex { re: 0, im: 0 }
    }

    pub fn is_zero_exec(&self) -> (r: bool)
        ensures
            r == self.is_zero(),
    {
        self.re == 0 && self.im == 0
    }

    pub fn neg(&self) -> (r: Complex)
        ensures
            r == self.spec_neg(),
    {
        Complex { re: 0i32.wrapping_sub(self.re), im: 0i32.wrapping_sub(self.im) }
    }

    pub fn add(&self, o: &Complex) -> (r: Complex)
        ensures
            r == self.spec_add(*o),
    {
        Complex { re: self.re.wrapping_add(o.re), im: self.im.wrapping_add(o.im) }
    }

    pub fn mul(&self, o: &Complex) -> (r: Complex)
        ensures
            r == self.spec_mul(*o),
    {
        let (a, b, c, d) = (self.re as i128, self.im as i128, o.re as i128, o.im as i128);
        proof {
            lemma_product_bound(self.re, o.re);
            lemma_product_bound(self.im, o.im);
            lemma_product_bound(self.re, o.im);
            lemma_product_bound(self.im, o.re);
        }
        let re_wide = floor_div_exec(a * c - b * d, SCALE as i128);
        let im_wide = floor_div_exec(a * d + b * c, SCALE as i128);
        Complex { re: #[verifier::truncate] (re_wide as i32), im: #[verifier::truncate] (im_wide as i32) }
    }

    /// True complex division; `d` must not be zero.
    pub fn div(&self, d: &Complex) -> (r: Complex)
        requires
            !d.is_zero(),
        ensures
            r == self.spec_div(*d),
    {
        let (a, b, c, e) = (self.re as i128, self.im as i128, d.re as i128, d.im as i128);
        proof {
            lemma_product_bound(self.re, d.re);
            lemma_product_bound(self.im, d.im);
            lemma_product_bound(self.re, d.im);
            lemma_product_bound(self.im, d.re);
            lemma_product_bound(d.re, d.re);
            lemma_product_bound(d.im, d.im);
            lemma_norm_positive(*d);
        }
        let n = c * c + e * e;
        proof {
            let x = a * c + b * e;
            let y = b * c - a * e;
            assert(-0x1_0000_0000_0000_0000_0000 <= x * 65536 <= 0x1_0000_0000_0000_0000_0000)
                by (nonlinear_arith)
                requires
                    -0x8000_0000_0000_0000 <= x <= 0x8000_0000_0000_0000,
            ;
            assert(-0x1_0000_0000_0000_0000_0000 <= y * 65536 <= 0x1_0000_0000_0000_0000_0000)
                by (nonlinear_arith)
                requires
                    -0x8000_0000_0000_0000 <= y <= 0x8000_0000_0000_0000,
            ;
        }
        let re_num = (a * c + b * e) * (SCALE as i128);
        let im_num = (b * c - a * e) * (SCALE as i128);
        let re_wide = floor_div_exec(re_num, n);
        let im_wide = floor_div_exec(im_num, n);
        Complex { re: #[verifier::truncate] (re_wide as i32), im: #[verifier::truncate] (im_wide as i32) }
    }
}

/// Addition of complex numbers is commutative.
pub proof fn lemma_add_commutative(a: Complex, b: Complex)
    ensures
        a.spec_add(b) == b.spec_add(a),
{
}

/// Addition of complex numbers is associative (wrapping sums are exact modulo 2^32).
pub proof fn lemma_add_associative(a: Complex, b: Complex, c: Complex)
    ensures
        a.spec_add(b).spec_add(c) == a.spec_add(b.spec_add(c)),
{
}

/// Zero is the identity of addition.
pub proof fn lemma_add_zero(a: Complex)
    ensures
        a.spec_add(Complex::spec_zero()) == a,
        Complex::spec_zero().spec_add(a) == a,
{
}

/// Multiplication of complex numbers is commutative.
pub proof fn lemma_mul_commutative(a: Complex, b: Complex)
    ensures
        a.spec_mul(b) == b.spec_mul(a),
{
    assert(a.re * b.re == b.re * a.re) by (nonlinear_arith);
    assert(a.im * b.im == b.im * a.im) by (nonlinear_arith);
    assert(a.re * b.im == b.im * a.re) by (nonlinear_arith);
    assert(a.im * b.re == b.re * a.im) by (nonlinear_arith);
}

/// Multiplying by zero gives zero.
pub proof fn lemma_mul_zero(a: Complex)
    ensures
        a.spec_mul(Complex::spec_zero()) == Complex::spec_zero(),
        Complex::spec_zero().spec_mul(a) == Complex::spec_zero(),
{
    assert(a.re * 0 == 0 && a.im * 0 == 0 && 0 * a.re == 0 && 0 * a.im == 0) by (nonlinear_arith);
    assert(floor_div(0, SCALE as int) == 0);
}

proof fn lemma_product_bound(x: i32, y: i32)
    ensures
        -0x4000_0000_0000_0000 <= x * y <= 0x4000_0000_0000_0000,
{
    assert(-0x4000_0000_0000_0000 <= x * y <= 0x4000_0000_0000_0000) by (nonlinear_arith)
        requires
            -0x8000_0000 <= x <= 0x7fff_ffff,
            -0x8000_0000 <= y <= 0x7fff_ffff,
    ;
}

proof fn lemma_norm_positive(d: Complex)
    requires
        !d.is_zero(),
    ensures
        norm(d) > 0,
{
    assert(d.re * d.re >= 0) by (nonlinear_arith);
    assert(d.im * d.im >= 0) by (nonlinear_arith);
    if d.re != 0 {
        assert(d.re * d.re > 0) by (nonlinear_arith)
            requires
                d.re != 0,
        ;
    } else {
        assert(d.im * d.im > 0) by (nonlinear_arith)
            requires
                d.im != 0,
        ;
    }
}

/// Division rounded down, for a positive divisor.
fn floor_div_exec(n: i128, d: i128) -> (q: i128)
    requires
        d > 0,
        n > i128::MIN,
    ensures
        q == floor_div(n as int, d as int),
{
    if n >= 0 {
        n / d
    } else {
        let m = -n - 1;
        let t = m / d;
        proof {
            let r = m % d;
            vstd::arithmetic::div_mod::lemma_fundamental_div_mod(m as int, d as int);
            assert(n == (-t - 1) * d + (d - r - 1)) by (nonlinear_arith)
                requires
                    m == d * t + r,
                    n == -m - 1,
            ;
            vstd::arithmetic::div_mod::lemma_fundamental_div_mod_converse(
                n as int,
                d as int,
                -t - 1,
                d - r - 1,
            );
        }
        -t - 1
    }
}

} // verus!
