use vstd::prelude::*;

use crate::adverbs::{spec_infix, spec_insert, spec_prefix, spec_table};
use crate::array::{A, gives};
use crate::ast::{D, M, N, NS, Yd, Ym};
use crate::error::{JError, R};
use crate::mat::Mat;
use crate::parse::{parse, spec_parse};
use crate::symbol::ST;
use crate::verbs::{spec_d_do, spec_idot, spec_inc, spec_shape, spec_tally, spec_trans};

verus! {

/// The monadic verb `m` applied to `a`.
pub open spec fn spec_monad(m: M, a: Mat) -> R<Mat> {
    match m {
        M::Idot => spec_idot(a),
        M::Shape => spec_shape(a),
        M::Tally => spec_tally(a),
        M::Transpose => spec_trans(a),
        M::Same => Ok(a),
        M::Inc => spec_inc(a),
    }
}

/// The dyadic verb `d` applied to `l` and `r`.
pub open spec fn spec_dyad(d: D, l: Mat, r: Mat) -> R<Mat> {
    match d {
        D::Plus => spec_d_do(D::Plus, l, r),
        D::Mul => spec_d_do(D::Mul, l, r),
        D::Left => Ok(l),
        D::Right => Ok(r),
    }
}

/// The monadic adverb `ym` with the verb `d`, applied to `a`.
pub open spec fn spec_ym(ym: Ym, d: D, a: Mat) -> R<Mat> {
    match ym {
        Ym::Insert => spec_insert(d, a),
        Ym::Prefix => spec_prefix(d, a),
    }
}

/// The dyadic adverb `yd` with the verb `d`, applied to `l` and `r`.
pub open spec fn spec_yd(yd: Yd, d: D, l: Mat, r: Mat) -> R<Mat> {
    match yd {
        Yd::Table => spec_table(d, l, r),
        Yd::Infix => spec_infix(d, l, r),
    }
}

/// The value an operand must have: an expression without one, such as an
/// assignment, is an error.
pub open spec fn need_value(r: R<Option<Mat>>) -> R<Mat> {
    match r {
        Ok(Some(a)) => Ok(a),
        Ok(None) => Err(JError::NoValue),
        Err(e) => Err(e),
    }
}

/// A verb's result as the value of an expression.
pub open spec fn some(r: R<Mat>) -> R<Option<Mat>> {
    match r {
        Ok(a) => Ok(Some(a)),
        Err(e) => Err(e),
    }
}

/// The value of the tree `n` and the variables after evaluating it, starting
/// from the variables `st`. Operands are evaluated before the verb that takes
/// them, the left one first; the first error stops the evaluation, keeping the
/// assignments made before it. A symbol gives the value bound to it; an
/// assignment binds its symbol and has no value.
pub open spec fn spec_eval(n: NS, st: Map<Seq<char>, Mat>) -> (R<Option<Mat>>, Map<Seq<char>, Mat>)
    decreases n,
{
    match n {
        NS::A(a) => (Ok(Some(a)), st),
        NS::M(m, o) => {
            let (ro, s1) = spec_eval(*o, st);
            (
                match need_value(ro) {
                    Ok(a) => some(spec_monad(m, a)),
                    Err(e) => Err(e),
                },
                s1,
            )
        },
        NS::D(d, l, r) => {
            let (rl, s1) = spec_eval(*l, st);
            match need_value(rl) {
                Err(e) => (Err(e), s1),
                Ok(lv) => {
                    let (rr, s2) = spec_eval(*r, s1);
                    (
                        match need_value(rr) {
                            Ok(rv) => some(spec_dyad(d, lv, rv)),
                            Err(e) => Err(e),
                        },
                        s2,
                    )
                },
            }
        },
        NS::Ym(ym, d, o) => {
            let (ro, s1) = spec_eval(*o, st);
            (
                match need_value(ro) {
                    Ok(a) => some(spec_ym(ym, d, a)),
                    Err(e) => Err(e),
                },
                s1,
            )
        },
        NS::Yd(yd, d, l, r) => {
            let (rl, s1) = spec_eval(*l, st);
            match need_value(rl) {
                Err(e) => (Err(e), s1),
                Ok(lv) => {
                    let (rr, s2) = spec_eval(*r, s1);
                    (
                        match need_value(rr) {
                            Ok(rv) => some(spec_yd(yd, d, lv, rv)),
                            Err(e) => Err(e),
                        },
                        s2,
                    )
                },
            }
        },
        NS::S(s) => (
            if st.contains_key(s) {
                Ok(Some(st[s]))
            } else {
                Err(JError::UndefinedSymbol)
            },
            st,
        ),
        NS::E(s, e) => {
            let (re, s1) = spec_eval(*e, st);
            match need_value(re) {
                Ok(a) => (Ok(None), s1.insert(s, a)),
                Err(er) => (Err(er), s1),
            }
        },
    }
}

/// The value of an input line and the variables after evaluating it: nothing
/// for a blank line, the parsing error for a line that does not parse.
pub open spec fn spec_run(s: Seq<char>, st: Map<Seq<char>, Mat>) -> (R<Option<Mat>>, Map<Seq<char>, Mat>) {
    match spec_parse(s) {
        Err(e) => (Err(e), st),
        Ok(None) => (Ok(None), st),
        Ok(Some(n)) => spec_eval(n, st),
    }
}

/// `r` is nothing, or a well-formed array, or an error, as `s` is.
pub open spec fn gives_opt(r: R<Option<A>>, s: R<Option<Mat>>) -> bool {
    match r {
        Ok(Some(a)) => a.wf() && s == Ok::<Option<Mat>, JError>(Some(a@)),
        Ok(None) => s == Ok::<Option<Mat>, JError>(None),
        Err(e) => s == Err::<Option<Mat>, JError>(e),
    }
}

/// The value of an operand; an error when the expression has none.
fn value(r: R<Option<A>>) -> (o: R<A>)
    ensures
        forall|s: R<Option<Mat>>| gives_opt(r, s) ==> gives(o, #[trigger] need_value(s)),
{
    match r {
        Ok(Some(a)) => Ok(a),
        Ok(None) => Err(JError::NoValue),
        Err(e) => Err(e),
    }
}

/// A verb's result as the value of an expression.
fn some_value(r: R<A>) -> (o: R<Option<A>>)
    ensures
        forall|s: R<Mat>| gives(r, s) ==> gives_opt(o, #[trigger] some(s)),
{
    match r {
        Ok(a) => Ok(Some(a)),
        Err(e) => Err(e),
    }
}

/// Evaluates a syntax tree against the variables in `st`, as `spec_eval`
/// describes.
fn eval_(ast: Box<N>, st: &mut ST) -> (r: R<Option<A>>)
    requires
        ast.wf(),
    ensures
        gives_opt(r, spec_eval(ast.tree(), old(st)@).0),
        final(st)@ == spec_eval(ast.tree(), old(st)@).1,
    decreases ast,
{
    match *ast {
        N::A { a } => Ok(Some(a)),
        N::M { m, o } => {
            let a = value(eval_(o, st))?;
            some_value(
                match m {
                    M::Idot => a.m_idot(),
                    M::Shape => a.m_shape(),
                    M::Same => a.m_same(),
                    M::Tally => a.m_tally(),
                    M::Transpose => a.m_trans(),
                    M::Inc => a.m_inc(),
                },
            )
        },
        N::D { d, l, r } => {
            let l = value(eval_(l, st))?;
            let r = value(eval_(r, st))?;
            some_value(
                match d {
                    D::Plus => l.d_plus(r),
                    D::Mul => l.d_mul(r),
                    D::Left => l.d_left(r),
                    D::Right => l.d_right(r),
                },
            )
        },
        N::Ym { ym, d, o } => {
            let a = value(eval_(o, st))?;
            some_value(ym.apply(d, a))
        },
        N::Yd { yd, d, l, r } => {
            let l = value(eval_(l, st))?;
            let r = value(eval_(r, st))?;
            some_value(yd.apply(d, l, r))
        },
        N::S { sy } => match st.get(&sy) {
            Some(a) => {
                let c = a.deep_copy()?;
                Ok(Some(c))
            },
            None => Err(JError::UndefinedSymbol),
        },
        N::E { sy, e } => {
            let a = value(eval_(e, st))?;
            st.insert(sy, a);
            Ok(None)
        },
    }
}

/// Reads and evaluates one input line against the variables in `st`: the value
/// of its expression, or nothing for a blank line or an assignment.
pub fn eval(input: &str, st: &mut ST) -> (r: R<Option<A>>)
    ensures
        gives_opt(r, spec_run(input@, old(st)@).0),
        final(st)@ == spec_run(input@, old(st)@).1,
{
    match parse(input)? {
        Some(ast) => eval_(ast, st),
        None => Ok(None),
    }
}

} // verus!
