use vstd::prelude::*;

use crate::array::{A, MI, fill, gives, lemma_view_fields};
use crate::ast::D;
use crate::error::{JError, R};
use crate::mat::{
    Mat, checked, layout_ok, lemma_offset_in_range, row, scalar, tabulate_checked,
};

verus! {

broadcast use lemma_view_fields;

/// `d` applied to `x` and `y`; none when the result exceeds `u32::MAX`.
pub open spec fn dyad(d: D, x: u32, y: u32) -> Option<u32> {
    match d {
        D::Plus => if x + y <= u32::MAX {
            Some((x + y) as u32)
        } else {
            None
        },
        D::Mul => if x * y <= u32::MAX {
            Some((x * y) as u32)
        } else {
            None
        },
        D::Left => Some(x),
        D::Right => Some(y),
    }
}

/// The cells of `i. m n`: `0, 1, 2, ...` row by row.
pub open spec fn idot_cell(n: nat) -> spec_fn(int, int) -> Option<u32> {
    |i: int, j: int| Some(((i - 1) * n + (j - 1)) as u32)
}

/// The `m x n` table counting up from zero: a layout error when it is too large
/// to store, an overflow when its last value exceeds `u32::MAX`.
pub open spec fn spec_idot_table(m: nat, n: nat) -> R<Mat> {
    if !layout_ok(m, n) {
        Err(JError::Layout)
    } else if m * n > u32::MAX {
        Err(JError::Overflow)
    } else {
        tabulate_checked(m, n, idot_cell(n))
    }
}

/// `i. y`: for a scalar `n`, the row `0 .. n-1`; for a pair `m n`, the `m x n`
/// table counting up from zero.
pub open spec fn spec_idot(a: Mat) -> R<Mat> {
    if a.is_scalar() {
        spec_idot_table(1, a.at(1, 1) as nat)
    } else if a.m == 1 && a.n == 2 {
        spec_idot_table(a.at(1, 1) as nat, a.at(1, 2) as nat)
    } else {
        Err(JError::IdotUnsupported { m: a.m as usize, n: a.n as usize })
    }
}

/// `$ y`: the row `m n` of the dimensions, each as a `u32`.
pub open spec fn spec_shape(a: Mat) -> R<Mat> {
    Ok(row(seq![a.m as u32, a.n as u32]))
}

/// `# y`: the number of cells, as a scalar; an error when it exceeds `u32::MAX`.
pub open spec fn spec_tally(a: Mat) -> R<Mat> {
    if a.m * a.n <= u32::MAX {
        Ok(scalar((a.m * a.n) as u32))
    } else {
        Err(JError::IntConversion)
    }
}

/// The cells of the transpose of `a`.
pub open spec fn trans_cell(a: Mat) -> spec_fn(int, int) -> Option<u32> {
    |i: int, j: int| Some(a.at(j, i))
}

/// `|: y`: the `n x m` array whose cell `(i, j)` is `y_ji`.
pub open spec fn spec_trans(a: Mat) -> R<Mat> {
    tabulate_checked(a.n, a.m, trans_cell(a))
}

/// The cells of `>: y`.
pub open spec fn inc_cell(a: Mat) -> spec_fn(int, int) -> Option<u32> {
    |i: int, j: int| dyad(D::Plus, a.at(i, j), 1)
}

/// `>: y`: every cell plus one; an overflow when some cell is `u32::MAX`.
pub open spec fn spec_inc(a: Mat) -> R<Mat> {
    tabulate_checked(a.m, a.n, inc_cell(a))
}

/// The cells of `d` between the array `a` and the scalar value `s`.
pub open spec fn scalar_cell(d: D, a: Mat, s: u32) -> spec_fn(int, int) -> Option<u32> {
    |i: int, j: int| dyad(d, a.at(i, j), s)
}

/// The cells of `d` between the array `a` and the list `s`, one value per row.
pub open spec fn slice_cell(d: D, a: Mat, s: Seq<u32>) -> spec_fn(int, int) -> Option<u32> {
    |i: int, j: int| dyad(d, a.at(i, j), s[i - 1])
}

/// The cells of `d` between two arrays of the same shape.
pub open spec fn pair_cell(d: D, l: Mat, r: Mat) -> spec_fn(int, int) -> Option<u32> {
    |i: int, j: int| dyad(d, l.at(i, j), r.at(i, j))
}

/// The cells of `d` between `l` and `r`, where `l` has the shape of `r` turned
/// on its side.
pub open spec fn rot_cell(d: D, l: Mat, r: Mat) -> spec_fn(int, int) -> Option<u32> {
    |i: int, j: int| dyad(d, l.at(j, i), r.at(i, j))
}

/// `l d r` for an arithmetic verb `d`, by the shapes of the operands:
/// - two scalars: a scalar;
/// - a scalar and an array: `d` between each cell and the scalar, the cell first;
/// - a row or column `s` and an array `a` that is neither: `d` between each cell
///   of row `i` and `s_i`, provided `s` has one value per row of `a`;
/// - two arrays of the same shape: `d` cell by cell;
/// - `l` shaped like `r` on its side: `d` between `l_ji` and `r_ij`, in the shape
///   of `r`;
///
/// and a length error otherwise. Any cell whose value exceeds `u32::MAX` makes
/// the whole result an overflow error.
pub open spec fn spec_d_do(d: D, l: Mat, r: Mat) -> R<Mat> {
    if l.is_scalar() && r.is_scalar() {
        match dyad(d, l.at(1, 1), r.at(1, 1)) {
            Some(v) => Ok(scalar(v)),
            None => Err(JError::Overflow),
        }
    } else if l.is_scalar() {
        tabulate_checked(r.m, r.n, scalar_cell(d, r, l.at(1, 1)))
    } else if r.is_scalar() {
        tabulate_checked(l.m, l.n, scalar_cell(d, l, r.at(1, 1)))
    } else if l.is_slice() && !r.is_slice() {
        if l.d.len() == r.m {
            tabulate_checked(r.m, r.n, slice_cell(d, r, l.d))
        } else {
            Err(JError::Length)
        }
    } else if !l.is_slice() && r.is_slice() {
        if r.d.len() == l.m {
            tabulate_checked(l.m, l.n, slice_cell(d, l, r.d))
        } else {
            Err(JError::Length)
        }
    } else if l.m == r.m && l.n == r.n {
        tabulate_checked(l.m, l.n, pair_cell(d, l, r))
    } else if l.m == r.n && l.n == r.m {
        tabulate_checked(r.m, r.n, rot_cell(d, l, r))
    } else {
        Err(JError::Length)
    }
}

impl D {
    /// `self` applied to `x` and `y`. Returns an overflow error when the result
    /// exceeds `u32::MAX`.
    pub fn f(&self, x: u32, y: u32) -> (r: R<u32>)
        ensures
            r == checked(dyad(*self, x, y)),
    {
        match self {
            D::Plus => D::add(x, y),
            D::Mul => D::mul(x, y),
            D::Left => D::left(x, y),
            D::Right => D::right(x, y),
        }
    }

    /// The sum of two numbers.
    fn add(x: u32, y: u32) -> (r: R<u32>)
        ensures
            r == checked(dyad(D::Plus, x, y)),
    {
        match x.checked_add(y) {
            Some(v) => Ok(v),
            None => Err(JError::Overflow),
        }
    }

    /// The product of two numbers.
    fn mul(x: u32, y: u32) -> (r: R<u32>)
        ensures
            r == checked(dyad(D::Mul, x, y)),
    {
        match x.checked_mul(y) {
            Some(v) => Ok(v),
            None => Err(JError::Overflow),
        }
    }

    /// The left number.
    fn left(x: u32, y: u32) -> (r: R<u32>)
        ensures
            r == checked(dyad(D::Left, x, y)),
    {
        Ok(x)
    }

    /// The right number.
    fn right(x: u32, y: u32) -> (r: R<u32>)
        ensures
            r == checked(dyad(D::Right, x, y)),
    {
        Ok(y)
    }
}

impl A {
    /// `[ y` and `] y`: the value itself.
    pub fn m_same(self) -> (r: R<A>)
        requires
            self.wf(),
        ensures
            gives(r, Ok(self@)),
    {
        Ok(self)
    }

    /// `i. y`: for a scalar `n`, the row `0 1 ... n-1`; for a pair `m n`, the
    /// `m x n` table `0 1 2 ...` filled row by row. Any other shape is an error.
    pub fn m_idot(self) -> (r: R<A>)
        requires
            self.wf(),
        ensures
            gives(r, spec_idot(self@)),
    {
        let (m, n) = if self.m == 1 && self.n == 1 {
            (1, self.get(1, 1)? as usize)
        } else if self.m == 1 && self.n == 2 {
            (self.get(1, 1)? as usize, self.get(1, 2)? as usize)
        } else {
            return Err(JError::IdotUnsupported { m: self.m, n: self.n });
        };
        let k = A::<MI>::l(m, n)?;
        if k > u32::MAX as usize {
            return Err(JError::Overflow);
        }
        let f = |i: usize, j: usize| -> (v: R<u32>)
            requires
                1 <= i <= m,
                1 <= j <= n,
                m * n <= u32::MAX,
            ensures
                v == checked(idot_cell(n as nat)(i as int, j as int)),
            {
                proof {
                    lemma_offset_in_range(m as nat, n as nat, i as int, j as int);
                }
                Ok(((i - 1) * n + (j - 1)) as u32)
            };
        fill(m, n, f, Ghost(idot_cell(n as nat)))
    }

    /// `$ y`: the row `m n` of the dimensions.
    pub fn m_shape(self) -> (r: R<A>)
        requires
            self.wf(),
        ensures
            gives(r, spec_shape(self@)),
    {
        let v: Vec<u32> = vec![self.m as u32, self.n as u32];
        let r = A::from_slice(v.as_slice());
        assert(v@ =~= seq![self@.m as u32, self@.n as u32]);
        r
    }

    /// `# y`: the number of cells. Returns an error when it exceeds `u32::MAX`.
    pub fn m_tally(self) -> (r: R<A>)
        requires
            self.wf(),
        ensures
            gives(r, spec_tally(self@)),
    {
        let k = A::<MI>::l(self.m, self.n)?;
        if k <= u32::MAX as usize {
            A::from_i(k as u32)
        } else {
            Err(JError::IntConversion)
        }
    }

    /// `|: y`: the transpose, `n x m`, whose cell `(i, j)` is `y_ji`.
    pub fn m_trans(self) -> (r: R<A>)
        requires
            self.wf(),
        ensures
            gives(r, spec_trans(self@)),
    {
        let a = &self;
        let f = |i: usize, j: usize| -> (v: R<u32>)
            requires
                a.wf(),
                1 <= i <= a@.n,
                1 <= j <= a@.m,
            ensures
                v == checked(trans_cell(a@)(i as int, j as int)),
            { a.get(j, i) };
        proof {
            assert(layout_ok(self@.n, self@.m)) by (nonlinear_arith)
                requires
                    layout_ok(self@.m, self@.n),
            ;
        }
        fill(self.n, self.m, f, Ghost(trans_cell(self@)))
    }

    /// `>: y`: every cell plus one. Returns an overflow error when some cell is
    /// `u32::MAX`.
    pub fn m_inc(self) -> (r: R<A>)
        requires
            self.wf(),
        ensures
            gives(r, spec_inc(self@)),
    {
        let a = &self;
        let f = |i: usize, j: usize| -> (v: R<u32>)
            requires
                a.wf(),
                1 <= i <= a@.m,
                1 <= j <= a@.n,
            ensures
                v == checked(inc_cell(a@)(i as int, j as int)),
            {
                let x = a.get(i, j)?;
                D::Plus.f(x, 1)
            };
        fill(self.m, self.n, f, Ghost(inc_cell(self@)))
    }

    /// `l [ r`: the left value.
    pub fn d_left(self, r: A) -> (o: R<A>)
        requires
            self.wf(),
        ensures
            gives(o, Ok(self@)),
    {
        Ok(self)
    }

    /// `l ] r`: the right value.
    pub fn d_right(self, r: A) -> (o: R<A>)
        requires
            r.wf(),
        ensures
            gives(o, Ok(r@)),
    {
        Ok(r)
    }

    /// `l + r`.
    pub fn d_plus(self, r: A) -> (o: R<A>)
        requires
            self.wf(),
            r.wf(),
        ensures
            gives(o, spec_d_do(D::Plus, self@, r@)),
    {
        A::d_do(self, r, D::Plus)
    }

    /// `l * r`.
    pub fn d_mul(self, r: A) -> (o: R<A>)
        requires
            self.wf(),
            r.wf(),
        ensures
            gives(o, spec_d_do(D::Mul, self@, r@)),
    {
        A::d_do(self, r, D::Mul)
    }

    /// `l d r`, combining the operands by their shapes as `spec_d_do` describes.
    pub fn d_do(l: A, r: A, d: D) -> (o: R<A>)
        requires
            l.wf(),
            r.wf(),
        ensures
            gives(o, spec_d_do(d, l@, r@)),
    {
        let ls = l.m == 1 && l.n == 1;
        let rs = r.m == 1 && r.n == 1;
        if ls && rs {
            let v = d.f(l.get(1, 1)?, r.get(1, 1)?)?;
            return A::from_i(v);
        }
        if ls || rs {
            let (a, s) = if ls {
                (&r, l.get(1, 1)?)
            } else {
                (&l, r.get(1, 1)?)
            };
            let f = |i: usize, j: usize| -> (v: R<u32>)
                requires
                    a.wf(),
                    1 <= i <= a@.m,
                    1 <= j <= a@.n,
                ensures
                    v == checked(scalar_cell(d, a@, s)(i as int, j as int)),
                {
                    let x = a.get(i, j)?;
                    d.f(x, s)
                };
            return fill(a.m, a.n, f, Ghost(scalar_cell(d, a@, s)));
        }
        let lsl = l.m == 1 || l.n == 1;
        let rsl = r.m == 1 || r.n == 1;
        if lsl != rsl {
            let (a, s) = if lsl {
                (&r, &l)
            } else {
                (&l, &r)
            };
            let sv = s.as_slice()?;
            if sv.len() != a.m {
                return Err(JError::Length);
            }
            let f = |i: usize, j: usize| -> (v: R<u32>)
                requires
                    a.wf(),
                    sv@.len() == a@.m,
                    1 <= i <= a@.m,
                    1 <= j <= a@.n,
                ensures
                    v == checked(slice_cell(d, a@, sv@)(i as int, j as int)),
                {
                    let x = a.get(i, j)?;
                    d.f(x, sv[i - 1])
                };
            return fill(a.m, a.n, f, Ghost(slice_cell(d, a@, sv@)));
        }
        if l.m == r.m && l.n == r.n {
            let (lr, rr) = (&l, &r);
            let f = |i: usize, j: usize| -> (v: R<u32>)
                requires
                    lr.wf(),
                    rr.wf(),
                    lr@.m == rr@.m,
                    lr@.n == rr@.n,
                    1 <= i <= lr@.m,
                    1 <= j <= lr@.n,
                ensures
                    v == checked(pair_cell(d, lr@, rr@)(i as int, j as int)),
                {
                    let x = lr.get(i, j)?;
                    let y = rr.get(i, j)?;
                    d.f(x, y)
                };
            return fill(l.m, l.n, f, Ghost(pair_cell(d, l@, r@)));
        }
        if l.m == r.n && l.n == r.m {
            let (lr, rr) = (&l, &r);
            let f = |i: usize, j: usize| -> (v: R<u32>)
                requires
                    lr.wf(),
                    rr.wf(),
                    lr@.m == rr@.n,
                    lr@.n == rr@.m,
                    1 <= i <= rr@.m,
                    1 <= j <= rr@.n,
                ensures
                    v == checked(rot_cell(d, lr@, rr@)(i as int, j as int)),
                {
                    let x = lr.get(j, i)?;
                    let y = rr.get(i, j)?;
                    d.f(x, y)
                };
            return fill(r.m, r.n, f, Ghost(rot_cell(d, l@, r@)));
        }
        Err(JError::Length)
    }
}

} // verus!
