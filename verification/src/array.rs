use std::marker::PhantomData;
use vstd::prelude::*;

use crate::error::{JError, R};
use crate::mat::{
    Mat, checked, layout_ok, lemma_checked_err, lemma_checked_ok, lemma_mat_ext,
    lemma_offset_in_range, lemma_offset_injective, row, scalar, tabulate_checked,
};
use vstd::slice::slice_subrange;
use vstd::std_specs::cmp::PartialEqSpecImpl;

verus! {

/// Marks whether the cells of an array may still be written before it is read.
pub trait MX {}

/// Marker: an array under construction, whose cells are being filled in.
#[derive(Clone, Copy, Debug)]
pub struct MU;

/// Marker: a finished array, whose cells may be read.
#[derive(Clone, Copy, Debug)]
pub struct MI;

impl MX for MU {}

impl MX for MI {}

/// An `m x n` array of unsigned integers, `(a_ij) : 1 <= i <= m, 1 <= j <= n`.
/// ```text
/// [a_11, a_12, ... a_1n]
/// [a_21, a_22, ... a_2n]
/// [...., ...., ... ....]
/// [a_m1, a_m2, ... a_mn]
/// ```
#[derive(Debug)]
pub struct A<X = MI> {
    /// rows
    pub m: usize,
    /// columns
    pub n: usize,
    pub(crate) d: Vec<u32>,
    pub(crate) i: PhantomData<X>,
}

impl<X> View for A<X> {
    type V = Mat;

    closed spec fn view(&self) -> Mat {
        Mat { m: self.m as nat, n: self.n as nat, d: self.d@ }
    }
}


/// The value of an array is made of its fields.
pub(crate) broadcast proof fn lemma_view_fields<X>(a: &A<X>)
    ensures
        #[trigger] a@ == (Mat { m: a.m as nat, n: a.n as nat, d: a.d@ }),
{
}

/// `r` is a well-formed array whose value is that of `s`, or the error of `s`.
pub open spec fn gives(r: R<A>, s: R<Mat>) -> bool {
    match r {
        Ok(a) => a.wf() && s == Ok::<Mat, JError>(a@),
        Err(e) => s == Err::<Mat, JError>(e),
    }
}

/// The `m x n` array of zeros.
pub open spec fn zeros(m: nat, n: nat) -> Mat {
    Mat { m, n, d: Seq::new(m * n, |k: int| 0u32) }
}

/// Allocating an `m x n` array: zeros, or a layout error when the storage is too large.
pub open spec fn spec_alloc(m: nat, n: nat) -> R<Mat> {
    if layout_ok(m, n) {
        Ok(zeros(m, n))
    } else {
        Err(JError::Layout)
    }
}

/// `f` can give a value, rather than an error, at position `(i, j)`.
pub open spec fn yields_value<F: Fn(usize, usize) -> R<u32>>(f: F, i: int, j: int) -> bool {
    exists|v: u32| f.ensures((i as usize, j as usize), Ok(v))
}

impl<X> A<X> {
    /// The cells are exactly `m * n` values, and their storage fits in `isize::MAX` bytes.
    pub open spec fn wf(&self) -> bool {
        self@.wf() && layout_ok(self@.m, self@.n)
    }

    /// The number of cells, or a layout error when `m * n` cells of four bytes
    /// would not fit in `isize::MAX` bytes.
    pub(crate) fn l(m: usize, n: usize) -> (r: R<usize>)
        ensures
            match r {
                Ok(k) => layout_ok(m as nat, n as nat) && k == m * n,
                Err(e) => !layout_ok(m as nat, n as nat) && e == JError::Layout,
            },
    {
        match m.checked_mul(n) {
            None => {
                assert(m * n * 4 > isize::MAX) by (nonlinear_arith)
                    requires
                        m * n > usize::MAX,
                        isize::MAX < usize::MAX,
                ;
                Err(JError::Layout)
            },
            Some(k) => {
                if k <= (isize::MAX as usize) / 4 {
                    Ok(k)
                } else {
                    Err(JError::Layout)
                }
            },
        }
    }

    /// A zero-filled `m x n` array.
    fn allocate(m: usize, n: usize) -> (r: R<A<X>>)
        ensures
            match r {
                Ok(a) => a.wf() && Ok::<Mat, JError>(a@) == spec_alloc(m as nat, n as nat),
                Err(e) => Err::<Mat, JError>(e) == spec_alloc(m as nat, n as nat),
            },
    {
        let k = Self::l(m, n)?;
        let mut d: Vec<u32> = Vec::new();
        while d.len() < k
            invariant
                d.len() <= k,
                forall|t: int| 0 <= t < d.len() ==> d@[t] == 0u32,
            decreases k - d.len(),
        {
            d.push(0);
        }
        let a = A { m, n, d, i: PhantomData };
        assert(a@.d =~= zeros(m as nat, n as nat).d);
        Ok(a)
    }

    /// Whether the cells and dimensions agree and the storage fits.
    fn check_wf(&self) -> (b: bool)
        ensures
            b == self.wf(),
    {
        match Self::l(self.m, self.n) {
            Ok(k) => k == self.d.len(),
            Err(_) => false,
        }
    }

    /// Checks that `(i, j)` is a position of this array.
    fn oob(&self, i: usize, j: usize) -> (r: R<()>)
        ensures
            match r {
                Ok(_) => self@.in_bounds(i as int, j as int),
                Err(e) => !self@.in_bounds(i as int, j as int) && e == (JError::OutOfBounds {
                    i,
                    j,
                    m: self@.m as usize,
                    n: self@.n as usize,
                }),
            },
    {
        if i == 0 || j == 0 || i > self.m || j > self.n {
            Err(JError::OutOfBounds { i, j, m: self.m, n: self.n })
        } else {
            Ok(())
        }
    }

    /// The offset of `A_ij` within this array's cells. Returns an error if the
    /// position is out-of-bounds.
    pub fn index(&self, i: usize, j: usize) -> (r: R<usize>)
        requires
            self.wf(),
        ensures
            match r {
                Ok(k) => self@.in_bounds(i as int, j as int) && k == self@.offset(i as int, j as int),
                Err(e) => !self@.in_bounds(i as int, j as int) && e == (JError::OutOfBounds {
                    i,
                    j,
                    m: self@.m as usize,
                    n: self@.n as usize,
                }),
            },
    {
        self.oob(i, j)?;
        proof {
            lemma_offset_in_range(self@.m, self@.n, i as int, j as int);
        }
        let (i, j) = (i - 1, j - 1);
        Ok((i * self.n) + j)
    }

    /// The offset of `A_ij` within this array's cells, without checking that the
    /// position is in bounds.
    pub fn index_uc(&self, i: usize, j: usize) -> (r: R<usize>)
        requires
            1 <= i,
            1 <= j,
            (i - 1) * self@.n + (j - 1) <= usize::MAX,
        ensures
            r == Ok::<usize, JError>(((i - 1) * self@.n + (j - 1)) as usize),
    {
        let (i, j) = (i - 1, j - 1);
        assert(i * self.n <= usize::MAX) by (nonlinear_arith)
            requires
                i * self.n + j <= usize::MAX,
                0 <= j,
        ;
        Ok((i * self.n) + j)
    }

    /// Sets the value at the given position. Returns an error, and leaves the
    /// array unchanged, if the position is out-of-bounds.
    pub fn set(&mut self, i: usize, j: usize, v: u32) -> (r: R<()>)
        requires
            old(self).wf(),
        ensures
            final(self).wf(),
            match r {
                Ok(_) => old(self)@.in_bounds(i as int, j as int) && final(self)@ == (Mat {
                    d: old(self)@.d.update(old(self)@.offset(i as int, j as int), v),
                    ..old(self)@
                }),
                Err(e) => !old(self)@.in_bounds(i as int, j as int) && final(self)@ == old(self)@
                    && e == (JError::OutOfBounds { i, j, m: old(self)@.m as usize, n: old(self)@.n as usize }),
            },
    {
        let k = self.index(i, j)?;
        proof {
            lemma_offset_in_range(self@.m, self@.n, i as int, j as int);
        }
        self.d.set(k, v);
        Ok(())
    }
}

impl A<MU> {
    /// A fresh `m x n` array to be filled in; its cells start as zeros. Returns an
    /// error if the storage for `m * n` cells would exceed `isize::MAX` bytes.
    pub fn new(m: usize, n: usize) -> (r: R<Self>)
        ensures
            match r {
                Ok(a) => a.wf() && Ok::<Mat, JError>(a@) == spec_alloc(m as nat, n as nat),
                Err(e) => Err::<Mat, JError>(e) == spec_alloc(m as nat, n as nat),
            },
    {
        Self::allocate(m, n)
    }

    /// Fills every cell `(i, j)`, row by row, with `f(i, j)`, and finishes the
    /// array. Stops with the first error that `f` returns.
    pub fn init_with<F: Fn(usize, usize) -> R<u32>>(self, f: F) -> (r: R<A<MI>>)
        requires
            self.wf(),
            forall|i: usize, j: usize|
                1 <= i <= self@.m && 1 <= j <= self@.n ==> #[trigger] f.requires((i, j)),
        ensures
            match r {
                Ok(o) => {
                    &&& o.wf()
                    &&& o@.m == self@.m
                    &&& o@.n == self@.n
                    &&& forall|i: int, j: int|
                        1 <= i <= self@.m && 1 <= j <= self@.n ==> f.ensures(
                            (i as usize, j as usize),
                            Ok(#[trigger] o@.at(i, j)),
                        )
                },
                Err(e) => exists|i: usize, j: usize|
                    1 <= i <= self@.m && 1 <= j <= self@.n && #[trigger] f.ensures((i, j), Err(e))
                        && forall|i2: int, j2: int|
                        ((1 <= i2 < i && 1 <= j2 <= self@.n) || (i2 == i && 1 <= j2 < j))
                            ==> #[trigger] yields_value(f, i2, j2),
            },
    {
        let ghost s = self@;
        let mut a = self;
        let m = a.m;
        let n = a.n;
        let mut i: usize = 0;
        while i < m
            invariant
                a.wf(),
                a.m == m,
                a.n == n,
                s.m == m as nat,
                s.n == n as nat,
                s == self@,
                i <= m,
                forall|i2: usize, j2: usize|
                    1 <= i2 <= m && 1 <= j2 <= n ==> #[trigger] f.requires((i2, j2)),
                forall|i2: int, j2: int|
                    1 <= i2 <= i && 1 <= j2 <= n ==> f.ensures(
                        (i2 as usize, j2 as usize),
                        Ok(#[trigger] a@.at(i2, j2)),
                    ),
            decreases m - i,
        {
            let mut j: usize = 0;
            while j < n
                invariant
                    a.wf(),
                    a.m == m,
                    a.n == n,
                    s.m == m as nat,
                    s.n == n as nat,
                    s == self@,
                    i < m,
                    j <= n,
                    forall|i2: usize, j2: usize|
                        1 <= i2 <= m && 1 <= j2 <= n ==> #[trigger] f.requires((i2, j2)),
                    forall|i2: int, j2: int|
                        ((1 <= i2 <= i && 1 <= j2 <= n) || (i2 == i + 1 && 1 <= j2 <= j))
                            ==> f.ensures((i2 as usize, j2 as usize), Ok(#[trigger] a@.at(i2, j2))),
                decreases n - j,
            {
                let ii = i + 1;
                let jj = j + 1;
                let v = match f(ii, jj) {
                    Ok(v) => v,
                    Err(e) => {
                        proof {
                            assert forall|i2: int, j2: int|
                                ((1 <= i2 < ii && 1 <= j2 <= n) || (i2 == ii && 1 <= j2 < jj))
                                    implies #[trigger] yields_value(f, i2, j2) by {
                                assert(f.ensures((i2 as usize, j2 as usize), Ok(a@.at(i2, j2))));
                            }
                        }
                        return Err(e);
                    },
                };
                proof {
                    lemma_offset_in_range(m as nat, n as nat, i + 1, j + 1);
                }
                let ghost prev = a@;
                let k = i * n + j;
                a.d.set(k, v);
                assert forall|i2: int, j2: int|
                    ((1 <= i2 <= i && 1 <= j2 <= n) || (i2 == i + 1 && 1 <= j2 <= j + 1))
                        implies f.ensures((i2 as usize, j2 as usize), Ok(#[trigger] a@.at(i2, j2))) by {
                    if i2 == i + 1 && j2 == j + 1 {
                    } else {
                        lemma_offset_in_range(m as nat, n as nat, i2, j2);
                        if prev.offset(i2, j2) == k {
                            lemma_offset_injective(n as nat, i2, j2, i + 1, j + 1);
                        }
                        assert(a@.at(i2, j2) == prev.at(i2, j2));
                    }
                }
                j = j + 1;
            }
            i = i + 1;
        }
        Ok(a.finish())
    }

    /// Marks the array as finished; its cells may be read from now on.
    pub fn finish(self) -> (r: A<MI>)
        ensures
            r@ == self@,
    {
        A { m: self.m, n: self.n, d: self.d, i: PhantomData }
    }
}

impl A<MI> {
    /// A zero-filled `m x n` array. Returns an error if the storage for `m * n`
    /// cells would exceed `isize::MAX` bytes.
    pub fn zeroed(m: usize, n: usize) -> (r: R<Self>)
        ensures
            match r {
                Ok(a) => a.wf() && Ok::<Mat, JError>(a@) == spec_alloc(m as nat, n as nat),
                Err(e) => Err::<Mat, JError>(e) == spec_alloc(m as nat, n as nat),
            },
    {
        Self::allocate(m, n)
    }

    /// The `1 x 1` array holding `i`.
    pub fn from_i(i: u32) -> (r: R<Self>)
        ensures
            r matches Ok(a) && a.wf() && a@ == scalar(i),
    {
        let mut a = A::new(1, 1)?;
        a.set(1, 1, i)?;
        let a = a.finish();
        assert(a@.d =~= scalar(i).d);
        Ok(a)
    }

    /// The value `A_ij`. Returns an error if the position is out-of-bounds.
    pub fn get(&self, i: usize, j: usize) -> (r: R<u32>)
        requires
            self.wf(),
        ensures
            match r {
                Ok(v) => self@.in_bounds(i as int, j as int) && v == self@.at(i as int, j as int),
                Err(e) => !self@.in_bounds(i as int, j as int) && e == (JError::OutOfBounds {
                    i,
                    j,
                    m: self@.m as usize,
                    n: self@.n as usize,
                }),
            },
    {
        let k = self.index(i, j)?;
        proof {
            lemma_offset_in_range(self@.m, self@.n, i as int, j as int);
        }
        Ok(self.d[k])
    }

    /// The value at the row-major offset of `(i, j)`, without checking that the
    /// position is in bounds; the offset itself must fall inside the cells.
    pub fn get_uc(&self, i: usize, j: usize) -> (r: R<u32>)
        requires
            self.wf(),
            1 <= i,
            1 <= j,
            (i - 1) * self@.n + (j - 1) < self@.d.len(),
        ensures
            r == Ok::<u32, JError>(self@.d[(i - 1) * self@.n + (j - 1)]),
    {
        let k = self.index_uc(i, j)?;
        Ok(self.d[k])
    }

    /// Every position `(i, j)` of the array, row by row.
    pub fn iter(&self) -> (r: Vec<(usize, usize)>)
        requires
            self.wf(),
        ensures
            r@.len() == self@.d.len(),
            forall|i: int, j: int|
                self@.in_bounds(i, j) ==> r@[#[trigger] self@.offset(i, j)] == (i as usize, j as usize),
    {
        let mut r: Vec<(usize, usize)> = Vec::new();
        let m = self.m;
        let n = self.n;
        let mut i: usize = 0;
        while i < m
            invariant
                self.wf(),
                m == self@.m,
                n == self@.n,
                i <= m,
                r@.len() == i * n,
                forall|i2: int, j2: int|
                    1 <= i2 <= i && 1 <= j2 <= n ==> r@[#[trigger] self@.offset(i2, j2)] == (
                    i2 as usize,
                    j2 as usize,
                ),
            decreases m - i,
        {
            let mut j: usize = 0;
            while j < n
                invariant
                    self.wf(),
                    m == self@.m,
                    n == self@.n,
                    i < m,
                    j <= n,
                    r@.len() == i * n + j,
                    forall|i2: int, j2: int|
                        (1 <= i2 <= i && 1 <= j2 <= n) || (i2 == i + 1 && 1 <= j2 <= j) ==> r@[
                        #[trigger] self@.offset(i2, j2)] == (i2 as usize, j2 as usize),
                decreases n - j,
            {
                proof {
                    lemma_offset_in_range(self@.m, self@.n, i + 1, j + 1);
                }
                let ghost prev = r@;
                r.push((i + 1, j + 1));
                assert forall|i2: int, j2: int|
                    (1 <= i2 <= i && 1 <= j2 <= n) || (i2 == i + 1 && 1 <= j2 <= j + 1) implies r@[
                    #[trigger] self@.offset(i2, j2)] == (i2 as usize, j2 as usize) by {
                    if !(i2 == i + 1 && j2 == j + 1) {
                        lemma_offset_in_range(i as nat + 1, n as nat, i2, j2);
                        assert((i as nat + 1) * n == i * n + n) by (nonlinear_arith);
                        assert(self@.offset(i2, j2) < i * n + j) by (nonlinear_arith)
                            requires
                                self@.offset(i2, j2) == (i2 - 1) * n + (j2 - 1),
                                (1 <= i2 <= i && 1 <= j2 <= n) || (i2 == i + 1 && 1 <= j2 <= j),
                        ;
                        assert(r@[self@.offset(i2, j2)] == prev[self@.offset(i2, j2)]);
                    }
                }
                j = j + 1;
            }
            assert((i + 1) * n == i * n + n) by (nonlinear_arith);
            i = i + 1;
        }
        proof {
            assert(self@.d.len() == m * n);
        }
        r
    }

    /// Every cell, row by row.
    pub fn vals(&self) -> (r: Vec<u32>)
        ensures
            r@ == self@.d,
    {
        let mut r: Vec<u32> = Vec::new();
        let mut k: usize = 0;
        while k < self.d.len()
            invariant
                k <= self.d@.len(),
                r@ == self.d@.subrange(0, k as int),
            decreases self.d@.len() - k,
        {
            r.push(self.d[k]);
            k = k + 1;
            assert(r@ =~= self.d@.subrange(0, k as int));
        }
        assert(r@ =~= self.d@);
        r
    }

    /// A copy of this array, with storage of its own.
    pub fn deep_copy(&self) -> (r: R<A>)
        requires
            self.wf(),
        ensures
            r matches Ok(c) && c.wf() && c@ == self@,
    {
        let f = |i: usize, j: usize| -> (v: R<u32>)
            requires
                self.wf(),
                self@.in_bounds(i as int, j as int),
            ensures
                v == Ok::<u32, JError>(self@.at(i as int, j as int)),
            { self.get(i, j) };
        let c = A::new(self.m, self.n)?.init_with(f)?;
        proof {
            assert forall|i: int, j: int| c@.in_bounds(i, j) implies #[trigger] c@.at(i, j)
                == self@.at(i, j) by {
                assert(f.ensures((i as usize, j as usize), Ok(c@.at(i, j))));
            }
            lemma_mat_ext(c@, self@);
        }
        Ok(c)
    }
}

impl A<MI> {
    /// The value of a `1 x 1` array. Returns an error for any other shape.
    pub fn as_i(&self) -> (r: R<u32>)
        requires
            self.wf(),
        ensures
            match r {
                Ok(v) => self@.is_scalar() && v == self@.at(1, 1),
                Err(e) => !self@.is_scalar() && e == JError::NotAScalar,
            },
    {
        if self.m == 1 && self.n == 1 {
            self.get(1, 1)
        } else {
            Err(JError::NotAScalar)
        }
    }

    /// The cells of a row or a column, as one list. Returns an error for any
    /// other shape.
    pub fn as_slice(&self) -> (r: R<&[u32]>)
        ensures
            match r {
                Ok(s) => self@.is_slice() && s@ == self@.d,
                Err(e) => !self@.is_slice() && e == JError::NotASlice,
            },
    {
        if self.m == 1 || self.n == 1 {
            Ok(self.d.as_slice())
        } else {
            Err(JError::NotASlice)
        }
    }

    /// The rows of the array. Returns an error when the array has rows but no
    /// columns, since its first row has no position `(1, 1)`.
    pub fn into_matrix(&self) -> (r: R<Vec<&[u32]>>)
        requires
            self.wf(),
        ensures
            match r {
                Ok(rows) => !(self@.m > 0 && self@.n == 0) && rows@.len() == self@.m && forall|i: int|
                    0 <= i < self@.m ==> #[trigger] rows@[i]@ == self@.d.subrange(
                        i * self@.n,
                        (i + 1) * self@.n,
                    ),
                Err(e) => self@.m > 0 && self@.n == 0 && e == (JError::OutOfBounds {
                    i: 1,
                    j: 1,
                    m: self@.m as usize,
                    n: 0,
                }),
            },
    {
        let m = self.m;
        let n = self.n;
        if m > 0 && n == 0 {
            return Err(JError::OutOfBounds { i: 1, j: 1, m, n });
        }
        let mut rows: Vec<&[u32]> = Vec::new();
        let mut i: usize = 0;
        while i < m
            invariant
                self.wf(),
                m == self@.m,
                n == self@.n,
                i <= m,
                rows@.len() == i,
                forall|i2: int|
                    0 <= i2 < i ==> #[trigger] rows@[i2]@ == self@.d.subrange(i2 * n, (i2 + 1) * n),
            decreases m - i,
        {
            assert((i + 1) * n <= m * n) by (nonlinear_arith)
                requires
                    i < m,
            ;
            assert((i + 1) * n == i * n + n) by (nonlinear_arith);
            let rw = slice_subrange(self.d.as_slice(), i * n, (i + 1) * n);
            rows.push(rw);
            i = i + 1;
        }
        Ok(rows)
    }

    /// A `1 x k` array holding the values of `s`. Returns an error if the storage
    /// for `k` cells would exceed `isize::MAX` bytes.
    pub fn from_slice(s: &[u32]) -> (r: R<A>)
        ensures
            match r {
                Ok(a) => a.wf() && layout_ok(1, s@.len()) && a@ == row(s@),
                Err(e) => !layout_ok(1, s@.len()) && e == JError::Layout,
            },
    {
        let mut a = A::new(1, s.len())?;
        let mut k: usize = 0;
        while k < s.len()
            invariant
                a.wf(),
                a@.m == 1,
                a@.n == s@.len(),
                k <= s@.len(),
                forall|t: int| 0 <= t < k ==> #[trigger] a@.d[t] == s@[t],
            decreases s@.len() - k,
        {
            let ghost prev = a@;
            a.set(1, k + 1, s[k])?;
            k = k + 1;
            assert forall|t: int| 0 <= t < k implies #[trigger] a@.d[t] == s@[t] by {
                if t < k - 1 {
                    assert(a@.d[t] == prev.d[t]);
                }
            }
        }
        let a = a.finish();
        assert(a@.d =~= s@);
        Ok(a)
    }

    /// Whether the array is a row or a column whose cells are the values of `r`.
    fn eq_slice(&self, r: &[u32]) -> (b: bool)
        ensures
            b == (self@.is_slice() && self@.d == r@),
    {
        match self.as_slice() {
            Ok(s) => {
                if s.len() != r.len() {
                    return false;
                }
                let mut k: usize = 0;
                while k < s.len()
                    invariant
                        s@ == self@.d,
                        s@.len() == r@.len(),
                        k <= s@.len(),
                        forall|t: int| 0 <= t < k ==> s@[t] == r@[t],
                    decreases s@.len() - k,
                {
                    if s[k] != r[k] {
                        return false;
                    }
                    k = k + 1;
                }
                assert(s@ =~= r@);
                true
            },
            Err(_) => false,
        }
    }

    /// Whether the array has as many rows as `r`, each with the values of the
    /// corresponding slice of `r`.
    fn eq_rows(&self, r: &[&[u32]]) -> (b: bool)
        ensures
            b == (self.wf() && r@.len() == self@.m && forall|i: int|
                0 <= i < self@.m ==> (#[trigger] r@[i])@ == self@.d.subrange(
                    i * self@.n,
                    (i + 1) * self@.n,
                )),
    {
        if !self.check_wf() {
            return false;
        }
        let m = self.m;
        let n = self.n;
        if r.len() != m {
            return false;
        }
        let mut i: usize = 0;
        while i < m
            invariant
                self.wf(),
                m == self@.m,
                n == self@.n,
                r@.len() == m,
                i <= m,
                forall|i2: int|
                    0 <= i2 < i ==> (#[trigger] r@[i2])@ == self@.d.subrange(i2 * n, (i2 + 1) * n),
            decreases m - i,
        {
            let ri = r[i];
            assert((i + 1) * n <= m * n) by (nonlinear_arith)
                requires
                    i < m,
            ;
            assert((i + 1) * n == i * n + n) by (nonlinear_arith);
            if ri.len() != n {
                assert(self@.d.subrange(i * n, (i + 1) * n).len() == n);
                return false;
            }
            let base = i * n;
            let mut j: usize = 0;
            while j < n
                invariant
                    self.wf(),
                    m == self@.m,
                    n == self@.n,
                    i < m,
                    ri@ == r@[i as int]@,
                    ri@.len() == n,
                    base == i * n,
                    (i + 1) * n == base + n,
                    base + n <= self@.d.len(),
                    j <= n,
                    forall|t: int| 0 <= t < j ==> ri@[t] == self@.d[base + t],
                decreases n - j,
            {
                if ri[j] != self.d[base + j] {
                    assert(self@.d.subrange(i * n, (i + 1) * n)[j as int] == self@.d[base + j]);
                    return false;
                }
                j = j + 1;
            }
            assert(ri@ =~= self@.d.subrange(i * n, (i + 1) * n));
            i = i + 1;
        }
        true
    }
}

impl<'a> PartialEq<&'a [u32]> for A {
    fn eq(&self, r: &&'a [u32]) -> (b: bool) {
        self.eq_slice(*r)
    }
}

impl<'a> PartialEqSpecImpl<&'a [u32]> for A {
    open spec fn obeys_eq_spec() -> bool {
        true
    }

    open spec fn eq_spec(&self, other: &&'a [u32]) -> bool {
        self@.is_slice() && self@.d == other@
    }
}

impl<'a, 'b> PartialEq<&'a [&'b [u32]]> for A {
    fn eq(&self, r: &&'a [&'b [u32]]) -> (b: bool) {
        self.eq_rows(*r)
    }
}

impl<'a, 'b> PartialEqSpecImpl<&'a [&'b [u32]]> for A {
    open spec fn obeys_eq_spec() -> bool {
        true
    }

    open spec fn eq_spec(&self, other: &&'a [&'b [u32]]) -> bool {
        self.wf() && other@.len() == self@.m && forall|i: int|
            0 <= i < self@.m ==> (#[trigger] other@[i])@ == self@.d.subrange(
                i * self@.n,
                (i + 1) * self@.n,
            )
    }
}

/// The `m x n` array whose cell `(i, j)` is `f(i, j)`, where `f` gives the value
/// of `c(i, j)` or an overflow error when `c(i, j)` has none.
pub(crate) fn fill<F: Fn(usize, usize) -> R<u32>>(
    m: usize,
    n: usize,
    f: F,
    Ghost(c): Ghost<spec_fn(int, int) -> Option<u32>>,
) -> (r: R<A>)
    requires
        forall|i: usize, j: usize| 1 <= i <= m && 1 <= j <= n ==> #[trigger] f.requires((i, j)),
        forall|i: usize, j: usize, v: R<u32>|
            1 <= i <= m && 1 <= j <= n && #[trigger] f.ensures((i, j), v) ==> v == checked(
                c(i as int, j as int),
            ),
    ensures
        gives(
            r,
            if layout_ok(m as nat, n as nat) {
                tabulate_checked(m as nat, n as nat, c)
            } else {
                Err(JError::Layout)
            },
        ),
{
    let a = A::new(m, n)?;
    match a.init_with(f) {
        Ok(o) => {
            proof {
                assert forall|i: int, j: int| o@.in_bounds(i, j) implies checked(c(i, j)) == Ok::<
                    u32,
                    JError,
                >(#[trigger] o@.at(i, j)) by {
                    assert(f.ensures((i as usize, j as usize), Ok(o@.at(i, j))));
                }
                lemma_checked_ok(o@, c);
            }
            Ok(o)
        },
        Err(e) => {
            proof {
                let (i, j) = choose|i: usize, j: usize|
                    1 <= i <= m && 1 <= j <= n && #[trigger] f.ensures((i, j), Err(e));
                lemma_checked_err(m as nat, n as nat, c, i as int, j as int, e);
            }
            Err(e)
        },
    }
}

} // verus!
