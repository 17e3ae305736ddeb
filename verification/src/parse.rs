use vstd::prelude::*;

use crate::array::A;
use crate::ast::{D, M, N, NS, Yd, Ym};
use crate::error::{JError, R};
use crate::lex::{T, TS, lex, spec_lex, tokens_view};
use crate::mat::{layout_ok, row};
use crate::symbol::{SY, spec_symbol};

verus! {

/// The monadic verb a word names.
pub open spec fn verb_m(w: Seq<char>) -> Option<M> {
    if w == seq!['i', '.'] {
        Some(M::Idot)
    } else if w == seq!['$'] {
        Some(M::Shape)
    } else if w == seq!['#'] {
        Some(M::Tally)
    } else if w == seq!['|', ':'] {
        Some(M::Transpose)
    } else if w == seq!['['] || w == seq![']'] {
        Some(M::Same)
    } else if w == seq!['>', ':'] {
        Some(M::Inc)
    } else {
        None
    }
}

/// The dyadic verb a word names.
pub open spec fn verb_d(w: Seq<char>) -> Option<D> {
    if w == seq!['+'] {
        Some(D::Plus)
    } else if w == seq!['*'] {
        Some(D::Mul)
    } else if w == seq!['['] {
        Some(D::Left)
    } else if w == seq![']'] {
        Some(D::Right)
    } else {
        None
    }
}

/// The adverb a word names, as its monadic and its dyadic meaning.
pub open spec fn adverb(w: Seq<char>) -> Option<(Ym, Yd)> {
    if w == seq!['/'] {
        Some((Ym::Insert, Yd::Table))
    } else if w == seq!['\\'] {
        Some((Ym::Prefix, Yd::Infix))
    } else {
        None
    }
}

/// The assignment word `=:`.
pub open spec fn is_assign(w: Seq<char>) -> bool {
    w == seq!['=', ':']
}

/// The number of number tokens on top of the token stack.
pub open spec fn int_run(ts: Seq<TS>) -> nat
    decreases ts.len(),
{
    if ts.len() > 0 && ts.last() is I {
        1 + int_run(ts.drop_last())
    } else {
        0
    }
}

/// The value of a number token.
pub open spec fn int_of(t: TS) -> u32 {
    match t {
        TS::I(i) => i,
        _ => 0,
    }
}

/// Takes the run of number tokens on top of the stack as one row literal; a
/// stack with no number on top is left as it is.
pub open spec fn spec_reada(ts: Seq<TS>) -> R<(Seq<TS>, Option<NS>)> {
    let k = int_run(ts);
    if k == 0 {
        Ok((ts, None))
    } else if !layout_ok(1, k) {
        Err(JError::Layout)
    } else {
        let start = ts.len() - k;
        Ok(
            (
                ts.take(start),
                Some(NS::A(row(ts.skip(start).map_values(|t: TS| int_of(t))))),
            ),
        )
    }
}

/// Whether the token on top of the stack begins an operand: a number or a symbol.
pub open spec fn starts_noun(ts: Seq<TS>) -> bool {
    ts.len() > 0 && match ts.last() {
        TS::I(_) => true,
        TS::V(w) => spec_symbol(w) is Ok,
    }
}

/// One parsing step on the token stack `ts`, read from its top (the end of the
/// line) towards its bottom, and the stack `ctx` of operands parsed so far:
/// - a run of numbers becomes a row literal;
/// - a monadic verb takes the operand on top of `ctx`; `[` and `]`, which are
///   both monadic and dyadic, are monadic only when no operand starts to their
///   left;
/// - a dyadic verb takes the operand on top of `ctx` as its right operand, parses
///   one more step, and takes the new top as its left operand;
/// - an adverb takes the dyadic verb to its left and the operand on top of `ctx`;
///   when an operand starts further left it parses one more step and applies
///   dyadically, else monadically;
/// - `=:` binds the symbol to its left to the operand on top of `ctx`;
/// - any other word is a symbol.
pub open spec fn spec_step(ts: Seq<TS>, ctx: Seq<NS>) -> R<(Seq<TS>, Seq<NS>)>
    decreases ts.len(),
{
    match spec_reada(ts) {
        Err(e) => Err(e),
        Ok((ts1, Some(a))) => Ok((ts1, ctx.push(a))),
        Ok((_, None)) => {
            if ts.len() == 0 {
                Ok((ts, ctx))
            } else {
                match ts.last() {
                    TS::I(_) => Ok((ts, ctx)),
                    TS::V(v) => {
                        let rest = ts.drop_last();
                        if verb_m(v) is Some && !(verb_d(v) is Some && starts_noun(rest)) {
                            let m = verb_m(v)->0;
                            if ctx.len() == 0 {
                                Err(JError::NoOperand(m))
                            } else {
                                Ok((rest, ctx.drop_last().push(NS::M(m, Box::new(ctx.last())))))
                            }
                        } else if verb_d(v) is Some {
                            let d = verb_d(v)->0;
                            if ctx.len() == 0 {
                                Err(JError::NoRhs(d))
                            } else {
                                match spec_step(rest, ctx.drop_last()) {
                                    Err(e) => Err(e),
                                    Ok((ts2, c2)) => if c2.len() == 0 {
                                        Err(JError::NoLhs)
                                    } else {
                                        Ok(
                                            (
                                                ts2,
                                                c2.drop_last().push(
                                                    NS::D(d, Box::new(c2.last()), Box::new(ctx.last())),
                                                ),
                                            ),
                                        )
                                    },
                                }
                            }
                        } else if adverb(v) is Some {
                            let (ym, yd) = adverb(v)->0;
                            let vd = if rest.len() > 0 {
                                match rest.last() {
                                    TS::V(w) => verb_d(w),
                                    TS::I(_) => None,
                                }
                            } else {
                                None
                            };
                            if vd is None {
                                Err(JError::AdverbNeedsVerb)
                            } else {
                                let d = vd->0;
                                let rest2 = rest.drop_last();
                                if ctx.len() == 0 {
                                    Err(JError::NoRhs(d))
                                } else if starts_noun(rest2) {
                                    match spec_step(rest2, ctx.drop_last()) {
                                        Err(e) => Err(e),
                                        Ok((ts2, c2)) => if c2.len() == 0 {
                                            Err(JError::NoLhs)
                                        } else {
                                            Ok(
                                                (
                                                    ts2,
                                                    c2.drop_last().push(
                                                        NS::Yd(
                                                            yd,
                                                            d,
                                                            Box::new(c2.last()),
                                                            Box::new(ctx.last()),
                                                        ),
                                                    ),
                                                ),
                                            )
                                        },
                                    }
                                } else {
                                    Ok(
                                        (
                                            rest2,
                                            ctx.drop_last().push(NS::Ym(ym, d, Box::new(ctx.last()))),
                                        ),
                                    )
                                }
                            }
                        } else if is_assign(v) {
                            if ctx.len() == 0 {
                                Err(JError::AssignNoExpr)
                            } else if rest.len() > 0 && rest.last() is V {
                                let name = match rest.last() {
                                    TS::V(w) => w,
                                    TS::I(_) => Seq::empty(),
                                };
                                match spec_symbol(name) {
                                    Ok(sy) => Ok(
                                        (
                                            rest.drop_last(),
                                            ctx.drop_last().push(NS::E(sy, Box::new(ctx.last()))),
                                        ),
                                    ),
                                    Err(e) => Err(e),
                                }
                            } else {
                                Err(JError::AssignNotVariable)
                            }
                        } else {
                            match spec_symbol(v) {
                                Ok(sy) => Ok((rest, ctx.push(NS::S(sy)))),
                                Err(_) => Err(JError::Unrecognized),
                            }
                        }
                    },
                }
            }
        },
    }
}

/// The most parsing steps one line may take, plus one.
pub const MAX: u32 = 128;

/// Parsing steps until the token stack is empty, counting them from `i`; an
/// error once more than `MAX + 1` steps would be needed.
pub open spec fn spec_loop(ts: Seq<TS>, ctx: Seq<NS>, i: nat) -> R<Seq<NS>>
    decreases MAX + 1 - i,
{
    if ts.len() == 0 {
        Ok(ctx)
    } else if i > MAX {
        Err(JError::MaxIterations)
    } else {
        match spec_step(ts, ctx) {
            Err(e) => Err(e),
            Ok((ts2, c2)) => spec_loop(ts2, c2, i + 1),
        }
    }
}

/// The syntax tree of an input line: none for a blank line, and an error when
/// the line leaves more than one expression side by side.
pub open spec fn spec_parse(s: Seq<char>) -> R<Option<NS>> {
    match spec_loop(spec_lex(s), Seq::empty(), 0) {
        Err(e) => Err(e),
        Ok(ctx) => if ctx.len() > 1 {
            Err(JError::TrailingOperands)
        } else if ctx.len() == 0 {
            Ok(None)
        } else {
            Ok(Some(ctx[0]))
        },
    }
}

/// The values of a stack of parsed operands.
pub open spec fn ctx_view(c: Seq<Box<N>>) -> Seq<NS> {
    c.map_values(|b: Box<N>| b.tree())
}

/// Every parsed operand is well-formed.
pub open spec fn ctx_wf(c: Seq<Box<N>>) -> bool {
    forall|k: int| 0 <= k < c.len() ==> (#[trigger] c[k]).wf()
}

/// Whether a run of number tokens sits at positions `j ..` of the stack: then
/// the run on top is those plus the run below them.
pub(crate) proof fn lemma_int_run_take(s: Seq<TS>, j: int)
    requires
        0 <= j <= s.len(),
        forall|t: int| j <= t < s.len() ==> #[trigger] s[t] is I,
    ensures
        int_run(s) == (s.len() - j) + int_run(s.take(j)),
    decreases s.len(),
{
    if j == s.len() {
        assert(s.take(j) =~= s);
    } else {
        lemma_int_run_take(s.drop_last(), j);
        assert(s.drop_last().take(j) =~= s.take(j));
    }
}

/// Whether two words are the same.
fn word_eq(w: &str, lit: &str) -> (b: bool)
    ensures
        b == (w@ == lit@),
{
    let n = w.unicode_len();
    if n != lit.unicode_len() {
        return false;
    }
    let mut k: usize = 0;
    while k < n
        invariant
            n == w@.len(),
            n == lit@.len(),
            k <= n,
            forall|t: int| 0 <= t < k ==> w@[t] == lit@[t],
        decreases n - k,
    {
        if w.get_char(k) != lit.get_char(k) {
            return false;
        }
        k = k + 1;
    }
    assert(w@ =~= lit@);
    true
}

impl M {
    /// The monadic verb a word names, if any.
    fn new(s: &str) -> (r: Option<M>)
        ensures
            r == verb_m(s@),
    {
        proof {
            reveal_strlit("i.");
            reveal_strlit("$");
            reveal_strlit("#");
            reveal_strlit("|:");
            reveal_strlit("[");
            reveal_strlit("]");
            reveal_strlit(">:");
            assert("i."@ =~= seq!['i', '.']);
            assert("$"@ =~= seq!['$']);
            assert("#"@ =~= seq!['#']);
            assert("|:"@ =~= seq!['|', ':']);
            assert("["@ =~= seq!['[']);
            assert("]"@ =~= seq![']']);
            assert(">:"@ =~= seq!['>', ':']);
        }
        if word_eq(s, "i.") {
            Some(M::Idot)
        } else if word_eq(s, "$") {
            Some(M::Shape)
        } else if word_eq(s, "#") {
            Some(M::Tally)
        } else if word_eq(s, "|:") {
            Some(M::Transpose)
        } else if word_eq(s, "[") || word_eq(s, "]") {
            Some(M::Same)
        } else if word_eq(s, ">:") {
            Some(M::Inc)
        } else {
            None
        }
    }
}

impl D {
    /// The dyadic verb a word names, if any.
    fn new(s: &str) -> (r: Option<D>)
        ensures
            r == verb_d(s@),
    {
        proof {
            reveal_strlit("+");
            reveal_strlit("*");
            reveal_strlit("[");
            reveal_strlit("]");
            assert("+"@ =~= seq!['+']);
            assert("*"@ =~= seq!['*']);
            assert("["@ =~= seq!['[']);
            assert("]"@ =~= seq![']']);
        }
        if word_eq(s, "+") {
            Some(D::Plus)
        } else if word_eq(s, "*") {
            Some(D::Mul)
        } else if word_eq(s, "[") {
            Some(D::Left)
        } else if word_eq(s, "]") {
            Some(D::Right)
        } else {
            None
        }
    }
}

/// The adverb a word names, if any, as its monadic and its dyadic meaning.
fn adverb_of(s: &str) -> (r: Option<(Ym, Yd)>)
    ensures
        r == adverb(s@),
{
    proof {
        reveal_strlit("/");
        reveal_strlit("\\");
        assert("/"@ =~= seq!['/']);
        assert("\\"@ =~= seq!['\\']);
    }
    if word_eq(s, "/") {
        Some((Ym::Insert, Yd::Table))
    } else if word_eq(s, "\\") {
        Some((Ym::Prefix, Yd::Infix))
    } else {
        None
    }
}

/// Whether a token is a number.
fn is_num(t: &T) -> (b: bool)
    ensures
        b == (t@ is I),
{
    match t {
        T::I(_) => true,
        T::V(_) => false,
    }
}

/// Whether the token on top of the stack begins an operand.
fn noun_next(ts: &Vec<T>) -> (b: bool)
    ensures
        b == starts_noun(tokens_view(ts@)),
{
    if ts.len() == 0 {
        return false;
    }
    match &ts[ts.len() - 1] {
        T::I(_) => true,
        T::V(w) => SY::from_str(w.as_str()).is_ok(),
    }
}

/// Reads array values from the token stack: takes the run of numbers on top of
/// it, if any, as one row literal.
fn reada(ts: &mut Vec<T>) -> (r: R<Option<Box<N>>>)
    ensures
        match r {
            Ok(Some(a)) => a.wf() && spec_reada(tokens_view(old(ts)@)) == Ok::<
                (Seq<TS>, Option<NS>),
                JError,
            >((tokens_view(final(ts)@), Some(a.tree()))),
            Ok(None) => final(ts)@ == old(ts)@ && spec_reada(tokens_view(old(ts)@)) == Ok::<
                (Seq<TS>, Option<NS>),
                JError,
            >((tokens_view(old(ts)@), None)),
            Err(e) => spec_reada(tokens_view(old(ts)@)) == Err::<(Seq<TS>, Option<NS>), JError>(e),
        },
{
    let ghost tv = tokens_view(ts@);
    let len = ts.len();
    let mut start = len;
    while start > 0 && is_num(&ts[start - 1])
        invariant
            len == ts@.len(),
            tv == tokens_view(ts@),
            start <= len,
            forall|t: int| start <= t < len ==> #[trigger] tv[t] is I,
        decreases start,
    {
        start = start - 1;
    }
    proof {
        lemma_int_run_take(tv, start as int);
        assert(int_run(tv.take(start as int)) == 0);
    }
    if start == len {
        return Ok(None);
    }
    let mut vals: Vec<u32> = Vec::new();
    let mut k = start;
    while k < len
        invariant
            len == ts@.len(),
            tv == tokens_view(ts@),
            start <= k <= len,
            forall|t: int| start <= t < len ==> #[trigger] tv[t] is I,
            vals@ =~= tv.subrange(start as int, k as int).map_values(|t: TS| int_of(t)),
        decreases len - k,
    {
        match &ts[k] {
            T::I(i) => {
                vals.push(*i);
            },
            T::V(_) => {
                assert(tv[k as int] is I);
            },
        }
        k = k + 1;
    }
    let a = A::from_slice(vals.as_slice())?;
    ts.truncate(start);
    assert(tokens_view(ts@) =~= tv.take(start as int));
    assert(tv.subrange(start as int, len as int) =~= tv.skip(start as int));
    Ok(Some(Box::new(N::A { a })))
}

/// One parsing step, as `spec_step` describes, on the token stack `ts` and the
/// stack `ctx` of operands parsed so far.
fn parse_(ts: &mut Vec<T>, ctx: &mut Vec<Box<N>>) -> (r: R<()>)
    requires
        ctx_wf(old(ctx)@),
    ensures
        match r {
            Ok(_) => ctx_wf(final(ctx)@) && spec_step(
                tokens_view(old(ts)@),
                ctx_view(old(ctx)@),
            ) == Ok::<(Seq<TS>, Seq<NS>), JError>(
                (tokens_view(final(ts)@), ctx_view(final(ctx)@)),
            ),
            Err(e) => spec_step(tokens_view(old(ts)@), ctx_view(old(ctx)@)) == Err::<
                (Seq<TS>, Seq<NS>),
                JError,
            >(e),
        },
    decreases old(ts)@.len(),
{
    let ghost t0 = tokens_view(ts@);
    let ghost c0 = ctx_view(ctx@);
    let ghost cv0 = ctx@;
    if let Some(a) = reada(ts)? {
        ctx.push(a);
        assert(ctx_view(ctx@) =~= c0.push(a.tree()));
        return Ok(());
    }
    let v = match ts.pop() {
        Some(T::V(v)) => v,
        Some(T::I(_)) => {
            assert(false);
            return Ok(());
        },
        None => {
            return Ok(());
        },
    };
    assert(tokens_view(ts@) =~= t0.drop_last());
    let ghost rest = t0.drop_last();
    let dv = D::new(v.as_str());
    let dyadic = match dv {
        Some(_) => noun_next(ts),
        None => false,
    };
    let mv = if dyadic {
        None
    } else {
        M::new(v.as_str())
    };
    if let Some(m) = mv {
        let o = match ctx.pop() {
            Some(o) => o,
            None => {
                return Err(JError::NoOperand(m));
            },
        };
        assert(o.tree() == c0.last());
        ctx.push(Box::new(N::M { m, o }));
        assert(ctx_view(ctx@) =~= c0.drop_last().push(NS::M(m, Box::new(c0.last()))));
        assert forall|k: int| 0 <= k < ctx@.len() implies (#[trigger] ctx@[k]).wf() by {
            if k < ctx@.len() - 1 {
                assert(ctx@[k] == cv0[k]);
            }
        }
        return Ok(());
    }
    if let Some(d) = dv {
        let r = match ctx.pop() {
            Some(r) => r,
            None => {
                return Err(JError::NoRhs(d));
            },
        };
        assert(r.tree() == c0.last());
        assert(ctx_view(ctx@) =~= c0.drop_last());
        parse_(ts, ctx)?;
        let ghost c2 = ctx_view(ctx@);
        let ghost cv2 = ctx@;
        let l = match ctx.pop() {
            Some(l) => l,
            None => {
                return Err(JError::NoLhs);
            },
        };
        assert(l.tree() == c2.last());
        ctx.push(Box::new(N::D { d, l, r }));
        assert(ctx_view(ctx@) =~= c2.drop_last().push(
            NS::D(d, Box::new(c2.last()), Box::new(c0.last())),
        ));
        assert forall|k: int| 0 <= k < ctx@.len() implies (#[trigger] ctx@[k]).wf() by {
            if k < ctx@.len() - 1 {
                assert(ctx@[k] == cv2[k]);
            }
        }
        return Ok(());
    }
    if let Some((ym, yd)) = adverb_of(v.as_str()) {
        let d = match ts.pop() {
            Some(T::V(w)) => match D::new(w.as_str()) {
                Some(d) => d,
                None => {
                    return Err(JError::AdverbNeedsVerb);
                },
            },
            _ => {
                return Err(JError::AdverbNeedsVerb);
            },
        };
        assert(tokens_view(ts@) =~= rest.drop_last());
        let o = match ctx.pop() {
            Some(o) => o,
            None => {
                return Err(JError::NoRhs(d));
            },
        };
        assert(o.tree() == c0.last());
        assert(ctx_view(ctx@) =~= c0.drop_last());
        if noun_next(ts) {
            parse_(ts, ctx)?;
            let ghost c2 = ctx_view(ctx@);
            let ghost cv2 = ctx@;
            let l = match ctx.pop() {
                Some(l) => l,
                None => {
                    return Err(JError::NoLhs);
                },
            };
            assert(l.tree() == c2.last());
            ctx.push(Box::new(N::Yd { yd, d, l, r: o }));
            assert(ctx_view(ctx@) =~= c2.drop_last().push(
                NS::Yd(yd, d, Box::new(c2.last()), Box::new(c0.last())),
            ));
            assert forall|k: int| 0 <= k < ctx@.len() implies (#[trigger] ctx@[k]).wf() by {
                if k < ctx@.len() - 1 {
                    assert(ctx@[k] == cv2[k]);
                }
            }
        } else {
            ctx.push(Box::new(N::Ym { ym, d, o }));
            assert(ctx_view(ctx@) =~= c0.drop_last().push(NS::Ym(ym, d, Box::new(c0.last()))));
            assert forall|k: int| 0 <= k < ctx@.len() implies (#[trigger] ctx@[k]).wf() by {
                if k < ctx@.len() - 1 {
                    assert(ctx@[k] == cv0[k]);
                }
            }
        }
        return Ok(());
    }
    proof {
        reveal_strlit("=:");
        assert("=:"@ =~= seq!['=', ':']);
    }
    if word_eq(v.as_str(), "=:") {
        let e = match ctx.pop() {
            Some(e) => e,
            None => {
                return Err(JError::AssignNoExpr);
            },
        };
        assert(e.tree() == c0.last());
        let sy = match ts.pop() {
            Some(T::V(w)) => SY::from_str(w.as_str())?,
            _ => {
                return Err(JError::AssignNotVariable);
            },
        };
        assert(tokens_view(ts@) =~= rest.drop_last());
        ctx.push(Box::new(N::E { sy, e }));
        assert(ctx_view(ctx@) =~= c0.drop_last().push(NS::E(sy@, Box::new(c0.last()))));
        assert forall|k: int| 0 <= k < ctx@.len() implies (#[trigger] ctx@[k]).wf() by {
            if k < ctx@.len() - 1 {
                assert(ctx@[k] == cv0[k]);
            }
        }
        return Ok(());
    }
    match SY::from_str(v.as_str()) {
        Ok(sy) => {
            ctx.push(Box::new(N::S { sy }));
            assert(ctx_view(ctx@) =~= c0.push(NS::S(sy@)));
            assert forall|k: int| 0 <= k < ctx@.len() implies (#[trigger] ctx@[k]).wf() by {
                if k < ctx@.len() - 1 {
                    assert(ctx@[k] == cv0[k]);
                }
            }
            Ok(())
        },
        Err(_) => Err(JError::Unrecognized),
    }
}

/// Parses an input line into a syntax tree: none for a blank line. Returns an
/// error when a step fails, when the line takes more than `MAX + 1` steps, or
/// when it leaves more than one expression side by side.
pub fn parse(input: &str) -> (r: R<Option<Box<N>>>)
    ensures
        match r {
            Ok(Some(n)) => n.wf() && spec_parse(input@) == Ok::<Option<NS>, JError>(Some(n.tree())),
            Ok(None) => spec_parse(input@) == Ok::<Option<NS>, JError>(None),
            Err(e) => spec_parse(input@) == Err::<Option<NS>, JError>(e),
        },
{
    let mut ts = lex(input)?;
    let mut ctx: Vec<Box<N>> = Vec::new();
    let mut i: u32 = 0;
    assert(ctx_view(ctx@) =~= Seq::<NS>::empty());
    while !ts.is_empty()
        invariant
            i <= MAX + 1,
            ctx_wf(ctx@),
            spec_loop(spec_lex(input@), Seq::empty(), 0) == spec_loop(
                tokens_view(ts@),
                ctx_view(ctx@),
                i as nat,
            ),
        decreases MAX + 1 - i,
    {
        if i > MAX {
            return Err(JError::MaxIterations);
        }
        parse_(&mut ts, &mut ctx)?;
        i = i + 1;
    }
    if ctx.len() > 1 {
        return Err(JError::TrailingOperands);
    }
    let ghost c = ctx_view(ctx@);
    let r = ctx.pop();
    proof {
        if c.len() == 1 {
            assert(r.unwrap().tree() == c[0]);
        }
    }
    Ok(r)
}

} // verus!
