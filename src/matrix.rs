use vstd::prelude::*;

use crate::complex::Complex;
use crate::error::AlgebraError;
use crate::polynomial::{
    add_in_ring_spec, add_spec, mul_in_ring_spec, mul_spec, render_spec, zero_seq, Polynomial,
};
use crate::text::push_char;

verus! {

/// A `height` x `width` grid of polynomials, stored row by row: the entry in
/// row `i`, column `j` is `content[j + i * width]`.
#[derive(Debug, PartialEq)]
pub struct Matrix {
    pub width: usize,
    pub height: usize,
    pub content: Vec<Polynomial>,
}

/// Cell `(i, j)` of `a * b` after the products over the first `n` values of `k`.
pub open spec fn mul_cell(
    a: Seq<Seq<Complex>>,
    aw: int,
    b: Seq<Seq<Complex>>,
    bw: int,
    i: int,
    j: int,
    n: nat,
) -> Seq<Complex>
    decreases n,
{
    if n == 0 {
        zero_seq()
    } else {
        let k = n - 1;
        add_spec(
            mul_cell(a, aw, b, bw, i, j, (n - 1) as nat),
            mul_spec(a[k + i * aw], b[j + k * bw]),
        )
    }
}

/// Cell `(i, j)` of `a * b` in C[x]/(x^ring - 1), after the first `n` values of `k`.
pub open spec fn mul_cell_in_ring(
    a: Seq<Seq<Complex>>,
    aw: int,
    b: Seq<Seq<Complex>>,
    bw: int,
    i: int,
    j: int,
    n: nat,
    ring: nat,
) -> Seq<Complex>
    decreases n,
{
    if n == 0 {
        zero_seq()
    } else {
        let k = n - 1;
        add_in_ring_spec(
            mul_cell_in_ring(a, aw, b, bw, i, j, (n - 1) as nat, ring),
            mul_in_ring_spec(a[k + i * aw], b[j + k * bw], ring),
            ring,
        )
    }
}

/// The first `n` entries of row `i` of a grid of width `w`, displayed and joined by `", "`.
pub open spec fn row_text(cells: Seq<Seq<Complex>>, w: int, i: int, n: nat) -> Seq<char>
    decreases n,
{
    if n == 0 {
        Seq::empty()
    } else if n == 1 {
        render_spec(cells[i * w])
    } else {
        row_text(cells, w, i, (n - 1) as nat) + seq![',', ' '] + render_spec(
            cells[(n - 1) + i * w],
        )
    }
}

/// The first `n` rows, each as `[...]`, separated by line breaks.
pub open spec fn rows_text(cells: Seq<Seq<Complex>>, w: int, n: nat) -> Seq<char>
    decreases n,
{
    if n == 0 {
        Seq::empty()
    } else {
        let row = seq!['['] + row_text(cells, w, n - 1, w as nat) + seq![']'];
        if n == 1 {
            row
        } else {
            rows_text(cells, w, (n - 1) as nat) + seq!['\n'] + row
        }
    }
}

/// Cell `(i, j)` of the product `a * b`, in C[x]/(x^n - 1) when `ring` is `Some(n)`.
pub open spec fn product_cell(
    a: &Matrix,
    b: &Matrix,
    i: int,
    j: int,
    k: nat,
    ring: Option<usize>,
) -> Seq<Complex> {
    let (aw, bw) = (a.width as int, b.width as int);
    match ring {
        None => mul_cell(a.cells(), aw, b.cells(), bw, i, j, k),
        Some(n) => mul_cell_in_ring(a.cells(), aw, b.cells(), bw, i, j, k, n as nat),
    }
}

proof fn lemma_cell_index(row: int, col: int, width: int, height: int)
    requires
        0 <= row < height,
        0 <= col < width,
    ensures
        0 <= col + row * width < width * height,
        col + row * width < (row + 1) * width,
{
    assert(0 <= col + row * width < width * height) by (nonlinear_arith)
        requires
            0 <= row < height,
            0 <= col < width,
    ;
    assert(col + row * width < (row + 1) * width) by (nonlinear_arith)
        requires
            0 <= col < width,
    ;
}

/// Appends `", "`.
fn push_comma(s: &mut String)
    ensures
        final(s)@ == old(s)@ + seq![',', ' '],
{
    push_char(s, ',');
    push_char(s, ' ');
    proof {
        assert(s@ =~= old(s)@ + seq![',', ' ']);
    }
}

impl Matrix {
    /// The entries' coefficient sequences, row by row.
    pub open spec fn cells(&self) -> Seq<Seq<Complex>> {
        Seq::new(self.content@.len(), |i: int| self.content@[i]@)
    }

    /// The shape is at least 1 x 1, the content fills it, and every entry is
    /// a well-formed polynomial.
    pub open spec fn wf(&self) -> bool {
        &&& self.width >= 1
        &&& self.height >= 1
        &&& self.content@.len() == self.width * self.height
        &&& forall|i: int| 0 <= i < self.content@.len() ==> (#[trigger] self.content@[i]).wf()
    }

    /// The display form: each row as `[e1, e2, ...]` with the entries'
    /// display forms, rows separated by line breaks.
    pub fn render(&self) -> (r: String)
        requires
            self.wf(),
        ensures
            r@ == rows_text(self.cells(), self.width as int, self.height as nat),
    {
        let mut s = String::new();
        let len = self.content.len();
        let w = self.width;
        let h = self.height;
        let mut i: usize = 0;
        while i < h
            invariant
                self.wf(),
                w == self.width,
                h == self.height,
                i <= h,
                len == self.content@.len(),
                s@ == rows_text(self.cells(), w as int, i as nat),
            decreases h - i,
        {
            let ghost before = s@;
            if i > 0 {
                push_char(&mut s, '\n');
            }
            push_char(&mut s, '[');
            let ghost row_start = s@;
            let mut j: usize = 0;
            while j < w
                invariant
                    self.wf(),
                    w == self.width,
                    h == self.height,
                    i < h,
                    j <= w,
                    len == self.content@.len(),
                    s@ == row_start + row_text(self.cells(), w as int, i as int, j as nat),
                decreases w - j,
            {
                proof {
                    assert(0 <= j + i * w < w * h) by (nonlinear_arith)
                        requires
                            j < w,
                            i < h,
                    ;
                }
                if j > 0 {
                    push_comma(&mut s);
                }
                self.content[j + i * w].push_render(&mut s);
                proof {
                    assert(self.cells()[j + i * w] == self.content@[j + i * w]@);
                    if j == 0 {
                        assert(s@ =~= row_start + row_text(self.cells(), w as int, i as int, 1));
                    } else {
                        assert(s@ =~= row_start + row_text(
                            self.cells(),
                            w as int,
                            i as int,
                            (j + 1) as nat,
                        ));
                    }
                }
                j += 1;
            }
            push_char(&mut s, ']');
            proof {
                let row = seq!['['] + row_text(self.cells(), w as int, i as int, w as nat) + seq![']'];
                if i == 0 {
                    assert(s@ =~= row);
                } else {
                    assert(s@ =~= before + seq!['\n'] + row);
                }
            }
            i += 1;
        }
        s
    }

    /// Every product of an entry of `a` with an entry of `b` has a length that fits in `usize`.
    pub open spec fn products_fit(a: &Matrix, b: &Matrix) -> bool {
        forall|x: int, y: int|
            0 <= x < a.content@.len() && 0 <= y < b.content@.len() ==> #[trigger] a.content@[x]@.len()
                + #[trigger] b.content@[y]@.len() <= usize::MAX
    }

    /// A matrix of the given shape from its entries, row by row. Fails with
    /// `DimensionMismatch` unless both sides are at least 1 and the content
    /// holds exactly `width * height` entries, and with `InvalidDegree` when an
    /// entry's degree does not match its number of coefficients.
    pub fn new(content: Vec<Polynomial>, width: usize, height: usize) -> (r: Result<
        Matrix,
        AlgebraError,
    >)
        ensures
            r is Ok <==> width >= 1 && height >= 1 && content@.len() == width * height && forall|
                i: int,
            | 0 <= i < content@.len() ==> (#[trigger] content@[i]).wf(),
            r matches Ok(m) ==> m.wf() && m.width == width && m.height == height && m.content@
                == content@,
            r matches Err(e) ==> e == if width >= 1 && height >= 1 && content@.len() == width
                * height {
                AlgebraError::InvalidDegree
            } else {
                AlgebraError::DimensionMismatch
            },
    {
        let n = content.len();
        if width == 0 || height == 0 {
            return Err(AlgebraError::DimensionMismatch);
        }
        match width.checked_mul(height) {
            None => {
                return Err(AlgebraError::DimensionMismatch);
            },
            Some(size) => {
                if content.len() != size {
                    return Err(AlgebraError::DimensionMismatch);
                }
            },
        }
        let mut i: usize = 0;
        while i < content.len()
            invariant
                width >= 1,
                height >= 1,
                content@.len() == width * height,
                i <= content.len(),
                forall|x: int| 0 <= x < i ==> (#[trigger] content@[x]).wf(),
            decreases content.len() - i,
        {
            if content[i].degree >= content[i].coefficients.len() || content[i].degree + 1
                != content[i].coefficients.len() {
                return Err(AlgebraError::InvalidDegree);
            }
            i += 1;
        }
        Ok(Matrix { width, height, content })
    }

    /// Entry-wise sum; fails with `DimensionMismatch` unless both shapes are equal.
    pub fn add(a: &Matrix, b: &Matrix) -> (r: Result<Matrix, AlgebraError>)
        requires
            a.wf(),
            b.wf(),
        ensures
            r is Err <==> a.width != b.width || a.height != b.height,
            r matches Err(e) ==> e == AlgebraError::DimensionMismatch,
            r matches Ok(m) ==> {
                &&& m.wf()
                &&& m.width == a.width
                &&& m.height == a.height
                &&& forall|x: int|
                    0 <= x < m.content@.len() ==> (#[trigger] m.content@[x])@ == add_spec(
                        a.content@[x]@,
                        b.content@[x]@,
                    )
            },
    {
        Matrix::add_cells(a, b, None)
    }

    /// Entry-wise sum in C[x]/(x^ring - 1); fails with `DimensionMismatch`
    /// unless both shapes are equal.
    pub fn add_in_ring(a: &Matrix, b: &Matrix, ring: usize) -> (r: Result<Matrix, AlgebraError>)
        requires
            a.wf(),
            b.wf(),
        ensures
            r is Err <==> a.width != b.width || a.height != b.height,
            r matches Err(e) ==> e == AlgebraError::DimensionMismatch,
            r matches Ok(m) ==> {
                &&& m.wf()
                &&& m.width == a.width
                &&& m.height == a.height
                &&& forall|x: int|
                    0 <= x < m.content@.len() ==> (#[trigger] m.content@[x])@ == add_in_ring_spec(
                        a.content@[x]@,
                        b.content@[x]@,
                        ring as nat,
                    )
                &&& ring > 0 ==> forall|x: int|
                    0 <= x < m.content@.len() ==> (#[trigger] m.content@[x]).degree < ring
            },
    {
        Matrix::add_cells(a, b, Some(ring))
    }

    /// Matrix product: cell `(i, j)` is the sum over `k` of `a[i, k] * b[k, j]`,
    /// accumulated in increasing `k` from the zero polynomial. Fails with
    /// `DimensionMismatch` unless `a.width == b.height`.
    pub fn mul(a: &Matrix, b: &Matrix) -> (r: Result<Matrix, AlgebraError>)
        requires
            a.wf(),
            b.wf(),
            Matrix::products_fit(a, b),
        ensures
            r is Err <==> a.width != b.height,
            r matches Err(e) ==> e == AlgebraError::DimensionMismatch,
            r matches Ok(m) ==> {
                &&& m.wf()
                &&& m.width == b.width
                &&& m.height == a.height
                &&& forall|i: int, j: int|
                    0 <= i < m.height && 0 <= j < m.width ==> (#[trigger] m.content@[j + i
                        * m.width])@ == mul_cell(
                        a.cells(),
                        a.width as int,
                        b.cells(),
                        b.width as int,
                        i,
                        j,
                        a.width as nat,
                    )
            },
    {
        Matrix::mul_cells(a, b, None)
    }

    /// Matrix product in C[x]/(x^ring - 1): every product and every partial
    /// sum is reduced into the ring. Fails with `DimensionMismatch` unless
    /// `a.width == b.height`.
    pub fn mul_in_ring(a: &Matrix, b: &Matrix, ring: usize) -> (r: Result<Matrix, AlgebraError>)
        requires
            a.wf(),
            b.wf(),
            Matrix::products_fit(a, b),
        ensures
            r is Err <==> a.width != b.height,
            r matches Err(e) ==> e == AlgebraError::DimensionMismatch,
            r matches Ok(m) ==> {
                &&& m.wf()
                &&& m.width == b.width
                &&& m.height == a.height
                &&& forall|i: int, j: int|
                    0 <= i < m.height && 0 <= j < m.width ==> (#[trigger] m.content@[j + i
                        * m.width])@ == mul_cell_in_ring(
                        a.cells(),
                        a.width as int,
                        b.cells(),
                        b.width as int,
                        i,
                        j,
                        a.width as nat,
                        ring as nat,
                    )
            },
    {
        Matrix::mul_cells(a, b, Some(ring))
    }

    /// Matrix product, in the ring C[x]/(x^n - 1) when `ring` is `Some(n)`.
    fn mul_cells(a: &Matrix, b: &Matrix, ring: Option<usize>) -> (r: Result<Matrix, AlgebraError>)
        requires
            a.wf(),
            b.wf(),
            Matrix::products_fit(a, b),
        ensures
            r is Err <==> a.width != b.height,
            r matches Err(e) ==> e == AlgebraError::DimensionMismatch,
            r matches Ok(m) ==> {
                &&& m.wf()
                &&& m.width == b.width
                &&& m.height == a.height
                &&& forall|i: int, j: int|
                    0 <= i < m.height && 0 <= j < m.width ==> (#[trigger] m.content@[j + i
                        * m.width])@ == product_cell(a, b, i, j, a.width as nat, ring)
            },
    {
        if a.width != b.height {
            return Err(AlgebraError::DimensionMismatch);
        }
        let aw = a.width;
        let bw = b.width;
        let ah = a.height;
        let alen = a.content.len();
        let blen = b.content.len();
        let mut content: Vec<Polynomial> = Vec::new();
        let mut i: usize = 0;
        while i < ah
            invariant
                a.wf(),
                b.wf(),
                Matrix::products_fit(a, b),
                aw == a.width,
                bw == b.width,
                ah == a.height,
                aw == b.height,
                i <= ah,
                alen == a.content@.len(),
                blen == b.content@.len(),
                content@.len() == i * bw,
                forall|y: int| 0 <= y < content@.len() ==> (#[trigger] content@[y]).wf(),
                forall|ii: int, jj: int|
                    0 <= ii < i && 0 <= jj < bw ==> (#[trigger] content@[jj + ii * bw])@
                        == product_cell(a, b, ii, jj, aw as nat, ring),
            decreases ah - i,
        {
            let mut j: usize = 0;
            while j < bw
                invariant
                    a.wf(),
                    b.wf(),
                    Matrix::products_fit(a, b),
                    aw == a.width,
                    bw == b.width,
                    ah == a.height,
                    aw == b.height,
                    i < ah,
                    j <= bw,
                    alen == a.content@.len(),
                blen == b.content@.len(),
                    content@.len() == i * bw + j,
                    forall|y: int| 0 <= y < content@.len() ==> (#[trigger] content@[y]).wf(),
                    forall|ii: int, jj: int|
                        (0 <= ii < i && 0 <= jj < bw) || (ii == i && 0 <= jj < j) ==> (
                        #[trigger] content@[jj + ii * bw])@ == product_cell(
                            a,
                            b,
                            ii,
                            jj,
                            aw as nat,
                            ring,
                        ),
                decreases bw - j,
            {
                let mut acc = Polynomial::zero();
                let mut k: usize = 0;
                while k < aw
                    invariant
                        a.wf(),
                        b.wf(),
                        Matrix::products_fit(a, b),
                        aw == a.width,
                        bw == b.width,
                        ah == a.height,
                        aw == b.height,
                        i < ah,
                        j < bw,
                        k <= aw,
                        alen == a.content@.len(),
                blen == b.content@.len(),
                        acc.wf(),
                        acc@ == product_cell(a, b, i as int, j as int, k as nat, ring),
                    decreases aw - k,
                {
                    proof {
                        lemma_cell_index(i as int, k as int, aw as int, ah as int);
                        lemma_cell_index(k as int, j as int, bw as int, aw as int);
                    }
                    let x = &a.content[k + i * aw];
                    let y = &b.content[j + k * bw];
                    proof {
                        assert(a.cells()[k + i * aw] == x@);
                        assert(b.cells()[j + k * bw] == y@);
                    }
                    acc = match ring {
                        None => {
                            let p = Polynomial::mul(x, y);
                            Polynomial::add(&acc, &p)
                        },
                        Some(n) => {
                            let p = Polynomial::mul_in_ring(x, y, n);
                            Polynomial::add_in_ring(&acc, &p, n)
                        },
                    };
                    k += 1;
                }
                let ghost before = content@;
                content.push(acc);
                proof {
                    assert forall|ii: int, jj: int|
                        (0 <= ii < i && 0 <= jj < bw) || (ii == i && 0 <= jj < j + 1) implies (
                        #[trigger] content@[jj + ii * bw])@ == product_cell(
                            a,
                            b,
                            ii,
                            jj,
                            aw as nat,
                            ring,
                        ) by {
                        if ii < i {
                            lemma_cell_index(ii, jj, bw as int, i as int);
                            assert((ii + 1) * bw <= i * bw) by (nonlinear_arith)
                                requires
                                    ii + 1 <= i,
                                    bw >= 0,
                            ;
                            assert(content@[jj + ii * bw] == before[jj + ii * bw]);
                        } else if jj < j {
                            assert(content@[jj + ii * bw] == before[jj + ii * bw]);
                        }
                    }
                }
                j += 1;
            }
            proof {
                assert((i + 1) * bw == i * bw + bw) by (nonlinear_arith);
            }
            i += 1;
        }
        proof {
            assert(content@.len() == bw * ah) by (nonlinear_arith)
                requires
                    content@.len() == ah * bw,
            ;
        }
        Ok(Matrix { width: bw, height: ah, content })
    }

    /// Entry-wise sum, in the ring C[x]/(x^n - 1) when `ring` is `Some(n)`.
    fn add_cells(a: &Matrix, b: &Matrix, ring: Option<usize>) -> (r: Result<Matrix, AlgebraError>)
        requires
            a.wf(),
            b.wf(),
        ensures
            r is Err <==> a.width != b.width || a.height != b.height,
            r matches Err(e) ==> e == AlgebraError::DimensionMismatch,
            r matches Ok(m) ==> {
                &&& m.wf()
                &&& m.width == a.width
                &&& m.height == a.height
                &&& forall|x: int|
                    0 <= x < m.content@.len() ==> (#[trigger] m.content@[x])@ == match ring {
                        None => add_spec(a.content@[x]@, b.content@[x]@),
                        Some(n) => add_in_ring_spec(a.content@[x]@, b.content@[x]@, n as nat),
                    }
                &&& forall|x: int|
                    0 <= x < m.content@.len() ==> match ring {
                        Some(n) => n > 0 ==> (#[trigger] m.content@[x]).degree < n,
                        None => true,
                    }
            },
    {
        if a.width != b.width || a.height != b.height {
            return Err(AlgebraError::DimensionMismatch);
        }
        let len = a.content.len();
        let mut content: Vec<Polynomial> = Vec::new();
        let mut x: usize = 0;
        while x < len
            invariant
                len == a.content@.len(),
                len == b.content@.len(),
                a.wf(),
                b.wf(),
                x <= len,
                content@.len() == x,
                forall|y: int| 0 <= y < x ==> (#[trigger] content@[y]).wf(),
                forall|y: int|
                    0 <= y < x ==> (#[trigger] content@[y])@ == match ring {
                        None => add_spec(a.content@[y]@, b.content@[y]@),
                        Some(n) => add_in_ring_spec(a.content@[y]@, b.content@[y]@, n as nat),
                    },
                forall|y: int|
                    0 <= y < x ==> match ring {
                        Some(n) => n > 0 ==> (#[trigger] content@[y]).degree < n,
                        None => true,
                    },
            decreases len - x,
        {
            let cell = match ring {
                None => Polynomial::add(&a.content[x], &b.content[x]),
                Some(n) => Polynomial::add_in_ring(&a.content[x], &b.content[x], n),
            };
            content.push(cell);
            x += 1;
        }
        Ok(Matrix { width: a.width, height: a.height, content })
    }
}

} // verus!
