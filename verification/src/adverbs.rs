use vstd::prelude::*;

use crate::array::{A, fill, gives, lemma_view_fields};
use crate::ast::{D, Ym, Yd};
use crate::error::{JError, R};
use crate::mat::{Mat, checked, layout_ok, scalar, tabulate_checked};
use crate::verbs::dyad;

verus! {

broadcast use lemma_view_fields;

/// `d` used monadically: `+` is the conjugate, which leaves a natural number as
/// it is; `*` is the sign; `[` and `]` give their argument.
pub open spec fn monad(d: D, x: u32) -> u32 {
    match d {
        D::Mul => if x == 0 {
            0
        } else {
            1
        },
        _ => x,
    }
}

/// The value of `d` over no items: `0` for `+`, `1` for `*`, none for `[` and `]`.
pub open spec fn identity(d: D) -> Option<u32> {
    match d {
        D::Plus => Some(0),
        D::Mul => Some(1),
        _ => None,
    }
}

/// `d` placed between the items of a non-empty list, grouping from the right:
/// `s0 d (s1 d (... d sk))`; none when some step overflows.
pub open spec fn fold_right(d: D, s: Seq<u32>) -> Option<u32>
    decreases s.len(),
{
    if s.len() == 0 {
        None
    } else if s.len() == 1 {
        Some(s[0])
    } else {
        match fold_right(d, s.drop_first()) {
            Some(acc) => dyad(d, s[0], acc),
            None => None,
        }
    }
}

/// Column `j` of `a`, top to bottom.
pub open spec fn column(a: Mat, j: int) -> Seq<u32> {
    Seq::new(a.m, |k: int| a.at(k + 1, j))
}

/// The cells of `d/` over the rows of `a`: column `j` folded.
pub open spec fn column_cell(d: D, a: Mat) -> spec_fn(int, int) -> Option<u32> {
    |i: int, j: int| fold_right(d, column(a, j))
}

/// Every cell holds `v`.
pub open spec fn const_cell(v: u32) -> spec_fn(int, int) -> Option<u32> {
    |i: int, j: int| Some(v)
}

/// `d/ y`, insert: `d` placed between the items of `y`. The items of a row or a
/// column are its cells, and the result is a scalar; the items of any other
/// array are its rows, and the result is the row of column-wise folds. Over no
/// items the result is the identity of `d`, a domain error when it has none.
pub open spec fn spec_insert(d: D, a: Mat) -> R<Mat> {
    if a.is_slice() {
        if a.d.len() == 0 {
            match identity(d) {
                Some(v) => Ok(scalar(v)),
                None => Err(JError::Domain),
            }
        } else {
            match fold_right(d, a.d) {
                Some(v) => Ok(scalar(v)),
                None => Err(JError::Overflow),
            }
        }
    } else if a.m == 0 {
        match identity(d) {
            Some(v) => if layout_ok(1, a.n) {
                tabulate_checked(1, a.n, const_cell(v))
            } else {
                Err(JError::Layout)
            },
            None => Err(JError::Domain),
        }
    } else {
        tabulate_checked(1, a.n, column_cell(d, a))
    }
}

/// The cells of `d\`: row `i` holds `d` applied monadically to the first `i`
/// items, then zeros.
pub open spec fn prefix_cell(d: D, s: Seq<u32>) -> spec_fn(int, int) -> Option<u32> {
    |i: int, j: int|
        if j <= i {
            Some(monad(d, s[j - 1]))
        } else {
            Some(0u32)
        }
}

/// `d\ y`, prefix: for a list of `n` items, the `n x n` array whose row `i` is
/// the prefix of length `i`, with `d` applied monadically, padded with zeros.
/// Only rows and columns are lists.
pub open spec fn spec_prefix(d: D, a: Mat) -> R<Mat> {
    if !a.is_slice() {
        Err(JError::Rank)
    } else if !layout_ok(a.d.len(), a.d.len()) {
        Err(JError::Layout)
    } else {
        tabulate_checked(a.d.len(), a.d.len(), prefix_cell(d, a.d))
    }
}

/// The cells of `x d/ y`.
pub open spec fn table_cell(d: D, x: Seq<u32>, y: Seq<u32>) -> spec_fn(int, int) -> Option<u32> {
    |i: int, j: int| dyad(d, x[i - 1], y[j - 1])
}

/// `x d/ y`, table: for lists of `p` and `q` items, the `p x q` array whose cell
/// `(i, j)` is `x_i d y_j`.
pub open spec fn spec_table(d: D, x: Mat, y: Mat) -> R<Mat> {
    if !x.is_slice() || !y.is_slice() {
        Err(JError::Rank)
    } else if !layout_ok(x.d.len(), y.d.len()) {
        Err(JError::Layout)
    } else {
        tabulate_checked(x.d.len(), y.d.len(), table_cell(d, x.d, y.d))
    }
}

/// The number of infixes of length `k` in a list of `n` items.
pub open spec fn infix_count(k: nat, n: nat) -> nat {
    if k <= n + 1 {
        (n + 1 - k) as nat
    } else {
        0
    }
}

/// The cells of `x d\ y`: row `i` is the infix starting at item `i`.
pub open spec fn infix_cell(d: D, s: Seq<u32>) -> spec_fn(int, int) -> Option<u32> {
    |i: int, j: int| Some(monad(d, s[i + j - 2]))
}

/// `k d\ y`, infix: for a scalar `k` and a list of `n` items, the array whose
/// rows are the successive infixes of length `k`, with `d` applied monadically.
pub open spec fn spec_infix(d: D, x: Mat, y: Mat) -> R<Mat> {
    if !x.is_scalar() {
        Err(JError::NotAScalar)
    } else if !y.is_slice() {
        Err(JError::Rank)
    } else {
        let k = x.at(1, 1) as nat;
        let rows = infix_count(k, y.d.len());
        if !layout_ok(rows, k) {
            Err(JError::Layout)
        } else {
            tabulate_checked(rows, k, infix_cell(d, y.d))
        }
    }
}

/// A fold that fails on a suffix fails on the whole list.
proof fn lemma_fold_none(d: D, s: Seq<u32>, k: int)
    requires
        0 <= k < s.len(),
        fold_right(d, s.subrange(k, s.len() as int)) is None,
    ensures
        fold_right(d, s) is None,
    decreases k,
{
    if k > 0 {
        assert(s.subrange(k - 1, s.len() as int).drop_first() =~= s.subrange(k, s.len() as int));
        lemma_fold_none(d, s, k - 1);
    } else {
        assert(s.subrange(0, s.len() as int) =~= s);
    }
}

impl D {
    /// `self` used monadically.
    pub fn monad(&self, x: u32) -> (r: u32)
        ensures
            r == monad(*self, x),
    {
        match self {
            D::Mul => if x == 0 {
                0
            } else {
                1
            },
            _ => x,
        }
    }
}

/// `d` placed between the items of a non-empty list, grouping from the right.
/// Returns an overflow error when some step overflows.
fn fold(d: D, s: &[u32]) -> (r: R<u32>)
    requires
        s@.len() > 0,
    ensures
        r == checked(fold_right(d, s@)),
{
    let n = s.len();
    let mut k = n - 1;
    let mut acc = s[k];
    assert(s@.subrange(k as int, n as int) =~= seq![s@[k as int]]);
    while k > 0
        invariant
            n == s@.len(),
            k < n,
            fold_right(d, s@.subrange(k as int, n as int)) == Some(acc),
        decreases k,
    {
        k = k - 1;
        assert(s@.subrange(k as int, n as int).drop_first() =~= s@.subrange(k + 1, n as int));
        match d.f(s[k], acc) {
            Ok(v) => {
                acc = v;
            },
            Err(e) => {
                proof {
                    lemma_fold_none(d, s@, k as int);
                }
                return Err(e);
            },
        }
    }
    assert(s@.subrange(0, n as int) =~= s@);
    Ok(acc)
}

/// Column `j` of `a` folded with `d`.
fn fold_column(d: D, a: &A, j: usize) -> (r: R<u32>)
    requires
        a.wf(),
        a@.m > 0,
        1 <= j <= a@.n,
    ensures
        r == checked(fold_right(d, column(a@, j as int))),
{
    let mut col: Vec<u32> = Vec::new();
    let mut i: usize = 0;
    while i < a.m
        invariant
            a.wf(),
            1 <= j <= a@.n,
            i <= a@.m,
            col@ =~= column(a@, j as int).subrange(0, i as int),
        decreases a@.m - i,
    {
        let v = a.get(i + 1, j)?;
        col.push(v);
        i = i + 1;
    }
    assert(col@ =~= column(a@, j as int));
    fold(d, col.as_slice())
}

/// `d/ y`.
fn insert(d: D, a: A) -> (r: R<A>)
    requires
        a.wf(),
    ensures
        gives(r, spec_insert(d, a@)),
{
    if a.m == 1 || a.n == 1 {
        let s = a.as_slice()?;
        if s.len() == 0 {
            match d {
                D::Plus => A::from_i(0),
                D::Mul => A::from_i(1),
                _ => Err(JError::Domain),
            }
        } else {
            let v = fold(d, s)?;
            A::from_i(v)
        }
    } else if a.m == 0 {
        let v: u32 = match d {
            D::Plus => 0,
            D::Mul => 1,
            _ => {
                return Err(JError::Domain);
            },
        };
        let f = |i: usize, j: usize| -> (o: R<u32>)
            ensures
                o == checked(const_cell(v)(i as int, j as int)),
            { Ok(v) };
        fill(1, a.n, f, Ghost(const_cell(v)))
    } else {
        let ar = &a;
        let f = |i: usize, j: usize| -> (o: R<u32>)
            requires
                ar.wf(),
                ar@.m > 0,
                1 <= j <= ar@.n,
            ensures
                o == checked(column_cell(d, ar@)(i as int, j as int)),
            { fold_column(d, ar, j) };
        proof {
            assert(layout_ok(1, a@.n)) by (nonlinear_arith)
                requires
                    layout_ok(a@.m, a@.n),
                    a@.m > 0,
            ;
        }
        fill(1, a.n, f, Ghost(column_cell(d, a@)))
    }
}

/// `d\ y`.
fn prefix(d: D, a: A) -> (r: R<A>)
    requires
        a.wf(),
    ensures
        gives(r, spec_prefix(d, a@)),
{
    let s = match a.as_slice() {
        Ok(s) => s,
        Err(_) => {
            return Err(JError::Rank);
        },
    };
    let n = s.len();
    let f = |i: usize, j: usize| -> (o: R<u32>)
        requires
            1 <= j <= n,
            n == s@.len(),
        ensures
            o == checked(prefix_cell(d, s@)(i as int, j as int)),
        {
            if j <= i {
                Ok(d.monad(s[j - 1]))
            } else {
                Ok(0)
            }
        };
    fill(n, n, f, Ghost(prefix_cell(d, s@)))
}

/// `x d/ y`.
fn table(d: D, x: A, y: A) -> (r: R<A>)
    requires
        x.wf(),
        y.wf(),
    ensures
        gives(r, spec_table(d, x@, y@)),
{
    let (xs, ys) = match (x.as_slice(), y.as_slice()) {
        (Ok(xs), Ok(ys)) => (xs, ys),
        _ => {
            return Err(JError::Rank);
        },
    };
    let f = |i: usize, j: usize| -> (o: R<u32>)
        requires
            1 <= i <= xs@.len(),
            1 <= j <= ys@.len(),
        ensures
            o == checked(table_cell(d, xs@, ys@)(i as int, j as int)),
        { d.f(xs[i - 1], ys[j - 1]) };
    fill(xs.len(), ys.len(), f, Ghost(table_cell(d, xs@, ys@)))
}

/// `x d\ y`.
fn infix(d: D, x: A, y: A) -> (r: R<A>)
    requires
        x.wf(),
        y.wf(),
    ensures
        gives(r, spec_infix(d, x@, y@)),
{
    let k = x.as_i()? as usize;
    let s = match y.as_slice() {
        Ok(s) => s,
        Err(_) => {
            return Err(JError::Rank);
        },
    };
    let n = s.len();
    let rows = if k <= n {
        n - k + 1
    } else {
        0
    };
    let f = |i: usize, j: usize| -> (o: R<u32>)
        requires
            1 <= i <= rows,
            1 <= j <= k,
            rows == infix_count(k as nat, n as nat),
            n == s@.len(),
        ensures
            o == checked(infix_cell(d, s@)(i as int, j as int)),
        { Ok(d.monad(s[i + j - 2])) };
    fill(rows, k, f, Ghost(infix_cell(d, s@)))
}

impl Ym {
    /// This adverb applied to the verb `d` and the operand `a`.
    pub fn apply(&self, d: D, a: A) -> (r: R<A>)
        requires
            a.wf(),
        ensures
            gives(
                r,
                match self {
                    Ym::Insert => spec_insert(d, a@),
                    Ym::Prefix => spec_prefix(d, a@),
                },
            ),
    {
        match self {
            Ym::Insert => insert(d, a),
            Ym::Prefix => prefix(d, a),
        }
    }
}

impl Yd {
    /// This adverb applied to the verb `d` and the operands `l` and `r`.
    pub fn apply(&self, d: D, l: A, r: A) -> (o: R<A>)
        requires
            l.wf(),
            r.wf(),
        ensures
            gives(
                o,
                match self {
                    Yd::Table => spec_table(d, l@, r@),
                    Yd::Infix => spec_infix(d, l@, r@),
                },
            ),
    {
        match self {
            Yd::Table => table(d, l, r),
            Yd::Infix => infix(d, l, r),
        }
    }
}

} // verus!
