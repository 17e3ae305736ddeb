use vstd::prelude::*;

use crate::array::A;
use crate::mat::Mat;
use crate::symbol::SY;

verus! {

/// A dyadic verb.
#[derive(Clone, Copy, Debug, PartialEq, Eq, Structural, PartialOrd)]
pub enum D {
    /// `+`
    Plus,
    /// `*`
    Mul,
    /// `[`
    Left,
    /// `]`
    Right,
}

/// A monadic verb.
#[derive(Clone, Copy, Debug, PartialEq, Eq, Structural, PartialOrd)]
pub enum M {
    /// `i.`
    Idot,
    /// `$`
    Shape,
    /// `#`
    Tally,
    /// `|:`
    Transpose,
    /// `[` and `]`
    Same,
    /// `>:`
    Inc,
}

/// A monadic adverb: it takes a dyadic verb and one operand.
#[derive(Clone, Copy, Debug, PartialEq, Eq, Structural)]
pub enum Ym {
    /// monadic `/`
    Insert,
    /// monadic `\`
    Prefix,
}

/// A dyadic adverb: it takes a dyadic verb and two operands.
#[derive(Clone, Copy, Debug, PartialEq, Eq, Structural)]
pub enum Yd {
    /// dyadic `/`
    Table,
    /// dyadic `\`
    Infix,
}

/// A node of the syntax tree.
#[derive(Debug)]
pub enum N {
    /// an array literal
    A { a: A },
    /// a dyadic verb
    D { d: D, l: Box<N>, r: Box<N> },
    /// a monadic verb
    M { m: M, o: Box<N> },
    /// a dyadic adverb
    Yd { yd: Yd, d: D, l: Box<N>, r: Box<N> },
    /// a monadic adverb
    Ym { ym: Ym, d: D, o: Box<N> },
    /// a symbol
    S { sy: SY },
    /// a symbol assignment
    E { sy: SY, e: Box<N> },
}

/// The value of a syntax tree: its literals as `Mat`s and its symbols as names.
pub enum NS {
    A(Mat),
    D(D, Box<NS>, Box<NS>),
    M(M, Box<NS>),
    Yd(Yd, D, Box<NS>, Box<NS>),
    Ym(Ym, D, Box<NS>),
    S(Seq<char>),
    E(Seq<char>, Box<NS>),
}

impl N {
    /// The value of this tree.
    pub open spec fn tree(&self) -> NS
        decreases self,
    {
        match self {
            N::A { a } => NS::A(a@),
            N::D { d, l, r } => NS::D(*d, Box::new(l.tree()), Box::new(r.tree())),
            N::M { m, o } => NS::M(*m, Box::new(o.tree())),
            N::Yd { yd, d, l, r } => NS::Yd(*yd, *d, Box::new(l.tree()), Box::new(r.tree())),
            N::Ym { ym, d, o } => NS::Ym(*ym, *d, Box::new(o.tree())),
            N::S { sy } => NS::S(sy@),
            N::E { sy, e } => NS::E(sy@, Box::new(e.tree())),
        }
    }

    /// Every array literal in this tree is well-formed.
    pub open spec fn wf(&self) -> bool
        decreases self,
    {
        match self {
            N::A { a } => a.wf(),
            N::D { d, l, r } => l.wf() && r.wf(),
            N::M { m, o } => o.wf(),
            N::Yd { yd, d, l, r } => l.wf() && r.wf(),
            N::Ym { ym, d, o } => o.wf(),
            N::S { sy } => true,
            N::E { sy, e } => e.wf(),
        }
    }
}

} // verus!
