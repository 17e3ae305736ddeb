use vstd::prelude::*;

use crate::array::{A, lemma_view_fields};
use crate::mat::Mat;

verus! {

/// The decimal digit character for `d < 10`.
pub open spec fn digit_char(d: nat) -> char {
    if d == 0 {
        '0'
    } else if d == 1 {
        '1'
    } else if d == 2 {
        '2'
    } else if d == 3 {
        '3'
    } else if d == 4 {
        '4'
    } else if d == 5 {
        '5'
    } else if d == 6 {
        '6'
    } else if d == 7 {
        '7'
    } else if d == 8 {
        '8'
    } else {
        '9'
    }
}

/// The decimal notation of `x`, without leading zeros.
pub open spec fn decimal(x: nat) -> Seq<char>
    decreases x,
{
    if x < 10 {
        seq![digit_char(x)]
    } else {
        decimal(x / 10) + seq![digit_char(x % 10)]
    }
}

/// The character written after the cell at row-major offset `k` of an array with
/// `n` columns: a newline after the last column, a space otherwise.
pub open spec fn separator(n: nat, k: int) -> char {
    if k % (n as int) == n - 1 {
        '\n'
    } else {
        ' '
    }
}

/// The text of the first `k` cells of `a`: each cell in decimal, followed by its
/// separator.
pub open spec fn display_prefix(a: Mat, k: nat) -> Seq<char>
    decreases k,
{
    if k == 0 {
        Seq::empty()
    } else {
        display_prefix(a, (k - 1) as nat) + decimal(a.d[k - 1] as nat) + seq![
            separator(a.n, k - 1),
        ]
    }
}

/// The text of an array: one line per row, cells separated by single spaces.
pub open spec fn display(a: Mat) -> Seq<char> {
    display_prefix(a, a.d.len())
}

/// The one-character text of the digit `d`.
fn digit_str(d: u32) -> (s: &'static str)
    requires
        d < 10,
    ensures
        s@ == seq![digit_char(d as nat)],
{
    if d == 0 {
        proof {
            reveal_strlit("0");
        }
        "0"
    } else if d == 1 {
        proof {
            reveal_strlit("1");
        }
        "1"
    } else if d == 2 {
        proof {
            reveal_strlit("2");
        }
        "2"
    } else if d == 3 {
        proof {
            reveal_strlit("3");
        }
        "3"
    } else if d == 4 {
        proof {
            reveal_strlit("4");
        }
        "4"
    } else if d == 5 {
        proof {
            reveal_strlit("5");
        }
        "5"
    } else if d == 6 {
        proof {
            reveal_strlit("6");
        }
        "6"
    } else if d == 7 {
        proof {
            reveal_strlit("7");
        }
        "7"
    } else if d == 8 {
        proof {
            reveal_strlit("8");
        }
        "8"
    } else {
        proof {
            reveal_strlit("9");
        }
        "9"
    }
}

/// Appends the decimal notation of `x` to `s`.
fn push_decimal(s: &mut String, x: u32)
    ensures
        final(s)@ == old(s)@ + decimal(x as nat),
    decreases x,
{
    if x < 10 {
        s.append(digit_str(x));
    } else {
        push_decimal(s, x / 10);
        s.append(digit_str(x % 10));
    }
}

impl A {
    /// The text of the array: one line per row, each cell in decimal, cells
    /// separated by single spaces, every row ended by a newline.
    pub fn to_string(&self) -> (r: String)
        requires
            self.wf(),
        ensures
            r@ == display(self@),
    {
        broadcast use lemma_view_fields;

        let cells = self.vals();
        let n = self.n;
        let mut s = String::new();
        let mut k: usize = 0;
        while k < cells.len()
            invariant
                self.wf(),
                cells@ == self@.d,
                n == self@.n,
                k <= cells@.len(),
                s@ == display_prefix(self@, k as nat),
            decreases cells@.len() - k,
        {
            proof {
                if n == 0 {
                    assert(self@.m * self@.n == 0) by (nonlinear_arith)
                        requires
                            self@.n == 0,
                    ;
                }
            }
            push_decimal(&mut s, cells[k]);
            if k % n == n - 1 {
                proof {
                    reveal_strlit("\n");
                }
                s.append("\n");
            } else {
                proof {
                    reveal_strlit(" ");
                }
                s.append(" ");
            }
            k = k + 1;
        }
        s
    }
}

} // verus!
