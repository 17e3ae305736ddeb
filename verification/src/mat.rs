use vstd::prelude::*;
use vstd::arithmetic::div_mod::lemma_fundamental_div_mod_converse;

use crate::error::{JError, R};

verus! {

/// The mathematical value of an `m x n` array: its dimensions and its cells in
/// row-major order. Positions are 1-based: `(1, 1)` is the top-left cell.
pub struct Mat {
    pub m: nat,
    pub n: nat,
    pub d: Seq<u32>,
}

impl Mat {
    /// The cells are exactly `m * n` values.
    pub open spec fn wf(self) -> bool {
        self.d.len() == self.m * self.n
    }

    /// The offset of position `(i, j)` in row-major order.
    pub open spec fn offset(self, i: int, j: int) -> int {
        (i - 1) * self.n + (j - 1)
    }

    /// Whether `(i, j)` names a cell of this array.
    pub open spec fn in_bounds(self, i: int, j: int) -> bool {
        1 <= i <= self.m && 1 <= j <= self.n
    }

    /// The cell at position `(i, j)`.
    pub open spec fn at(self, i: int, j: int) -> u32 {
        self.d[self.offset(i, j)]
    }

    /// A `1 x 1` array.
    pub open spec fn is_scalar(self) -> bool {
        self.m == 1 && self.n == 1
    }

    /// A single row or a single column, whose cells read as one list.
    pub open spec fn is_slice(self) -> bool {
        self.m == 1 || self.n == 1
    }
}

/// Storage for `m * n` cells of four bytes each fits in `isize::MAX` bytes.
pub open spec fn layout_ok(m: nat, n: nat) -> bool {
    m * n * 4 <= isize::MAX
}

/// The `m x n` array whose cell `(i, j)` is `g(i, j)`.
pub open spec fn tabulate(m: nat, n: nat, g: spec_fn(int, int) -> u32) -> Mat {
    Mat { m, n, d: Seq::new(m * n, |k: int| g(k / (n as int) + 1, k % (n as int) + 1)) }
}

/// A `1 x 1` array holding `x`.
pub open spec fn scalar(x: u32) -> Mat {
    Mat { m: 1, n: 1, d: seq![x] }
}

/// A `1 x k` row holding the values of `s`.
pub open spec fn row(s: Seq<u32>) -> Mat {
    Mat { m: 1, n: s.len(), d: s }
}

/// A cell value, or an overflow error when there is none.
pub open spec fn checked(v: Option<u32>) -> R<u32> {
    match v {
        Some(x) => Ok(x),
        None => Err(JError::Overflow),
    }
}

/// The `m x n` array whose cell `(i, j)` is `c(i, j)`, or an overflow error when
/// some cell has no value.
pub open spec fn tabulate_checked(m: nat, n: nat, c: spec_fn(int, int) -> Option<u32>) -> R<Mat> {
    if exists|i: int, j: int| 1 <= i <= m && 1 <= j <= n && #[trigger] c(i, j) is None {
        Err(JError::Overflow)
    } else {
        Ok(tabulate(m, n, |i: int, j: int| c(i, j)->0))
    }
}

/// Every in-bounds position has an offset inside the cells.
pub proof fn lemma_offset_in_range(m: nat, n: nat, i: int, j: int)
    requires
        1 <= i <= m,
        1 <= j <= n,
    ensures
        0 <= (i - 1) * n + (j - 1) < m * n,
{
    assert(0 <= (i - 1) * n) by (nonlinear_arith)
        requires
            1 <= i,
    ;
    assert((i - 1) * n + n <= m * n) by (nonlinear_arith)
        requires
            i <= m,
    ;
}

/// The offset of an in-bounds position determines the position: its quotient by
/// `n` is the row and its remainder the column.
pub proof fn lemma_offset_div_mod(n: nat, i: int, j: int)
    requires
        1 <= i,
        1 <= j <= n,
    ensures
        ((i - 1) * n + (j - 1)) / (n as int) == i - 1,
        ((i - 1) * n + (j - 1)) % (n as int) == j - 1,
{
    lemma_fundamental_div_mod_converse((i - 1) * n + (j - 1), n as int, i - 1, j - 1);
}

/// Two distinct in-bounds positions have distinct offsets.
pub proof fn lemma_offset_injective(n: nat, i1: int, j1: int, i2: int, j2: int)
    requires
        1 <= i1,
        1 <= j1 <= n,
        1 <= i2,
        1 <= j2 <= n,
        (i1 - 1) * n + (j1 - 1) == (i2 - 1) * n + (j2 - 1),
    ensures
        i1 == i2,
        j1 == j2,
{
    lemma_offset_div_mod(n, i1, j1);
    lemma_offset_div_mod(n, i2, j2);
}

/// Every offset below `m * n` is the offset of the in-bounds position
/// `(k / n + 1, k % n + 1)`.
pub proof fn lemma_position_of_offset(m: nat, n: nat, k: int)
    requires
        0 <= k < m * n,
    ensures
        n > 0,
        1 <= k / (n as int) + 1 <= m,
        1 <= k % (n as int) + 1 <= n,
        (k / (n as int)) * n + k % (n as int) == k,
{
    if n == 0 {
        assert(m * n == 0) by (nonlinear_arith)
            requires
                n == 0,
        ;
    }
    assert(n > 0);
    let q = k / (n as int);
    let r = k % (n as int);
    assert(k == q * n + r && 0 <= r < n) by (nonlinear_arith)
        requires
            n > 0,
            q == k / (n as int),
            r == k % (n as int),
    ;
    assert(0 <= q) by (nonlinear_arith)
        requires
            n > 0,
            0 <= k,
            q == k / (n as int),
    ;
    assert(q < m) by (nonlinear_arith)
        requires
            n > 0,
            k < m * n,
            k == q * n + r,
            0 <= r,
    ;
}

/// The cell `(i, j)` of a tabulation is `g(i, j)`.
pub proof fn lemma_tabulate_at(m: nat, n: nat, g: spec_fn(int, int) -> u32, i: int, j: int)
    requires
        1 <= i <= m,
        1 <= j <= n,
    ensures
        tabulate(m, n, g).wf(),
        tabulate(m, n, g).at(i, j) == g(i, j),
{
    lemma_offset_in_range(m, n, i, j);
    lemma_offset_div_mod(n, i, j);
}

/// An array whose every cell `(i, j)` is `g(i, j)` is the tabulation of `g`.
pub proof fn lemma_tabulate_ext(a: Mat, g: spec_fn(int, int) -> u32)
    requires
        a.wf(),
        forall|i: int, j: int| a.in_bounds(i, j) ==> #[trigger] a.at(i, j) == g(i, j),
    ensures
        a == tabulate(a.m, a.n, g),
{
    let t = tabulate(a.m, a.n, g);
    assert forall|k: int| 0 <= k < a.d.len() implies a.d[k] == t.d[k] by {
        lemma_position_of_offset(a.m, a.n, k);
        let i = k / (a.n as int) + 1;
        let j = k % (a.n as int) + 1;
        assert(a.offset(i, j) == k);
        assert(a.at(i, j) == g(i, j));
    }
    assert(a.d =~= t.d);
}

/// Two arrays with the same dimensions and the same cells are equal.
pub proof fn lemma_mat_ext(a: Mat, b: Mat)
    requires
        a.wf(),
        b.wf(),
        a.m == b.m,
        a.n == b.n,
        forall|i: int, j: int| a.in_bounds(i, j) ==> #[trigger] a.at(i, j) == b.at(i, j),
    ensures
        a == b,
{
    lemma_tabulate_ext(a, |i: int, j: int| b.at(i, j));
    lemma_tabulate_ext(b, |i: int, j: int| b.at(i, j));
}

/// An array whose every cell `(i, j)` is the value of `c(i, j)` is what
/// `tabulate_checked` gives.
pub proof fn lemma_checked_ok(o: Mat, c: spec_fn(int, int) -> Option<u32>)
    requires
        o.wf(),
        forall|i: int, j: int| o.in_bounds(i, j) ==> checked(c(i, j)) == Ok::<u32, JError>(#[trigger] o.at(i, j)),
    ensures
        tabulate_checked(o.m, o.n, c) == Ok::<Mat, JError>(o),
{
    assert forall|i: int, j: int| 1 <= i <= o.m && 1 <= j <= o.n implies !(#[trigger] c(i, j) is None) by {
        assert(checked(c(i, j)) == Ok::<u32, JError>(o.at(i, j)));
    }
    assert forall|i: int, j: int| o.in_bounds(i, j) implies #[trigger] o.at(i, j) == c(i, j)->0 by {
        assert(checked(c(i, j)) == Ok::<u32, JError>(o.at(i, j)));
    }
    lemma_tabulate_ext(o, |i: int, j: int| c(i, j)->0);
}

/// A cell without a value makes `tabulate_checked` fail with an overflow.
pub proof fn lemma_checked_err(m: nat, n: nat, c: spec_fn(int, int) -> Option<u32>, i: int, j: int, e: JError)
    requires
        1 <= i <= m,
        1 <= j <= n,
        checked(c(i, j)) == Err::<u32, JError>(e),
    ensures
        tabulate_checked(m, n, c) == Err::<Mat, JError>(e),
{
    assert(c(i, j) is None);
}

} // verus!
