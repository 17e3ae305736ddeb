use vstd::prelude::*;

use crate::adverbs::{
    column, column_cell, fold_right, infix_cell, prefix_cell, spec_infix, spec_insert, spec_prefix,
    spec_table, table_cell,
};
use crate::ast::{D, M, NS, Yd};
use crate::error::JError;
use crate::eval::{need_value, some, spec_dyad, spec_eval, spec_run};
use crate::display::{decimal, digit_char, display, display_prefix, separator};
use crate::lex::{
    TS, all_digits, digits_val, is_digit, is_ws, lemma_word_len_bound, spec_lex, spec_parse_u32, token,
    unsigned_digits, word_len,
};
use crate::mat::{
    Mat, layout_ok, lemma_offset_in_range, lemma_tabulate_at, lemma_tabulate_ext, row, scalar, tabulate,
    tabulate_checked,
};
use crate::parse::{
    MAX, int_of, int_run, lemma_int_run_take, spec_loop, spec_parse, spec_reada, spec_step,
    adverb, is_assign, starts_noun, verb_d, verb_m,
};
use crate::symbol::{is_lower, is_symbol_char, spec_symbol};
use crate::verbs::{
    dyad, idot_cell, pair_cell, rot_cell, scalar_cell, spec_d_do, spec_idot, spec_shape, spec_tally, spec_trans, trans_cell,
};

verus! {

/// Transposing twice gives back the array: `|: |: y` is `y`.
pub proof fn law_transpose_twice(a: Mat)
    requires
        a.wf(),
    ensures
        spec_trans(a) is Ok,
        spec_trans(spec_trans(a)->Ok_0) == Ok::<Mat, JError>(a),
{
    let c = trans_cell(a);
    assert(!exists|i: int, j: int| 1 <= i <= a.n && 1 <= j <= a.m && #[trigger] c(i, j) is None);
    let t = tabulate(a.n, a.m, |i: int, j: int| c(i, j)->0);
    assert(spec_trans(a) == Ok::<Mat, JError>(t));
    let c2 = trans_cell(t);
    assert(!exists|i: int, j: int| 1 <= i <= t.n && 1 <= j <= t.m && #[trigger] c2(i, j) is None);
    assert forall|i: int, j: int| a.in_bounds(i, j) implies #[trigger] a.at(i, j) == c2(i, j)->0 by {
        lemma_tabulate_at(a.n, a.m, |i: int, j: int| c(i, j)->0, j, i);
    }
    lemma_tabulate_ext(a, |i: int, j: int| c2(i, j)->0);
}

/// The shape of a transpose is the shape turned around: `$ |: y` is `n m`.
pub proof fn law_shape_of_transpose(a: Mat)
    requires
        a.wf(),
    ensures
        spec_trans(a) is Ok,
        spec_shape(spec_trans(a)->Ok_0) == Ok::<Mat, JError>(row(seq![a.n as u32, a.m as u32])),
{
    let c = trans_cell(a);
    assert(!exists|i: int, j: int| 1 <= i <= a.n && 1 <= j <= a.m && #[trigger] c(i, j) is None);
}

/// `i. m n` has shape `m n` and `m * n` cells, whenever it can be built.
pub proof fn law_shape_and_tally_of_idot(m: u32, n: u32)
    ensures
        spec_idot(row(seq![m, n])) matches Ok(t) ==> spec_shape(t) == Ok::<Mat, JError>(
            row(seq![m, n]),
        ) && spec_tally(t) == Ok::<Mat, JError>(scalar((m * n) as u32)),
{
    let a = row(seq![m, n]);
    assert(a.at(1, 1) == m && a.at(1, 2) == n);
}

/// `i. n` counts up from zero: its cell `(1, j)` is `j - 1`.
pub proof fn law_idot_counts_from_zero(n: u32, j: int)
    requires
        1 <= j <= n,
    ensures
        spec_idot(scalar(n)) matches Ok(t) ==> t.at(1, j) == j - 1,
{
    if spec_idot(scalar(n)) is Ok {
        let c = idot_cell(n as nat);
        lemma_tabulate_at(1, n as nat, |i: int, j: int| c(i, j)->0, 1, j);
    }
}

/// Whether `l` and `r` have different shapes, each the other turned on its side.
pub open spec fn rotated(l: Mat, r: Mat) -> bool {
    l.m == r.n && l.n == r.m && !(l.m == r.m && l.n == r.n)
}

/// `+` and `*` give the same result with their operands swapped. When the
/// operands have different shapes, each the other turned on its side, the result
/// takes the shape of the right operand: swapping them gives its transpose.
pub proof fn law_arithmetic_commutes(d: D, l: Mat, r: Mat)
    requires
        d == D::Plus || d == D::Mul,
    ensures
        !rotated(l, r) ==> spec_dyad(d, l, r) == spec_dyad(d, r, l),
        rotated(l, r) ==> spec_dyad(d, l, r) == match spec_dyad(d, r, l) {
            Ok(t) => spec_trans(t),
            Err(e) => Err(e),
        },
{
    if !rotated(l, r) {
        if !l.is_scalar() && !r.is_scalar() && !(l.is_slice() != r.is_slice()) && l.m == r.m
            && l.n == r.n {
            assert(pair_cell(d, l, r) =~= pair_cell(d, r, l));
        }
    } else {
        let c1 = rot_cell(d, l, r);
        let c2 = rot_cell(d, r, l);
        assert(spec_dyad(d, l, r) == tabulate_checked(r.m, r.n, c1));
        assert(spec_dyad(d, r, l) == tabulate_checked(l.m, l.n, c2));
        if exists|i: int, j: int| 1 <= i <= l.m && 1 <= j <= l.n && #[trigger] c2(i, j) is None {
            let (i, j) = choose|i: int, j: int| 1 <= i <= l.m && 1 <= j <= l.n && #[trigger] c2(i, j) is None;
            assert(c1(j, i) is None);
        } else {
            assert forall|i: int, j: int| 1 <= i <= r.m && 1 <= j <= r.n implies !(#[trigger] c1(i, j) is None) by {
                assert(!(c2(j, i) is None));
            }
            let g2 = |i: int, j: int| c2(i, j)->0;
            let t = tabulate(l.m, l.n, g2);
            assert(spec_dyad(d, r, l) == Ok::<Mat, JError>(t));
            let ct = trans_cell(t);
            assert(!exists|i: int, j: int| 1 <= i <= t.n && 1 <= j <= t.m && #[trigger] ct(i, j) is None);
            let g1 = |i: int, j: int| c1(i, j)->0;
            let u = tabulate(r.m, r.n, g1);
            assert(spec_dyad(d, l, r) == Ok::<Mat, JError>(u));
            assert forall|i: int, j: int| u.in_bounds(i, j) implies #[trigger] u.at(i, j) == ct(i, j)->0 by {
                lemma_tabulate_at(r.m, r.n, g1, i, j);
                lemma_tabulate_at(l.m, l.n, g2, j, i);
            }
            lemma_tabulate_ext(u, |i: int, j: int| ct(i, j)->0);
        }
    }
}

/// A line of white space only parses to nothing.
pub proof fn law_blank_line_parses_to_nothing(s: Seq<char>)
    requires
        forall|k: int| 0 <= k < s.len() ==> #[trigger] is_ws(s[k]),
    ensures
        spec_parse(s) == Ok::<Option<NS>, JError>(None),
    decreases s.len(),
{
    lemma_blank_lex(s);
    assert(spec_loop(spec_lex(s), Seq::empty(), 0) == Ok::<Seq<NS>, JError>(Seq::empty()));
}

/// A line of white space holds no tokens.
proof fn lemma_blank_lex(s: Seq<char>)
    requires
        forall|k: int| 0 <= k < s.len() ==> #[trigger] is_ws(s[k]),
    ensures
        spec_lex(s).len() == 0,
    decreases s.len(),
{
    if s.len() > 0 {
        assert(is_ws(s[0]));
        assert forall|k: int| 0 <= k < s.drop_first().len() implies #[trigger] is_ws(
            s.drop_first()[k],
        ) by {
            assert(is_ws(s[k + 1]));
        }
        lemma_blank_lex(s.drop_first());
    }
}

/// After `x =: e` succeeds, reading `x` gives back the value of `e`, and every
/// other variable keeps the value it had after evaluating `e`.
pub proof fn law_assignment_reads_back(x: Seq<char>, e: NS, st: Map<Seq<char>, Mat>)
    ensures
        ({
            let (r, st1) = spec_eval(NS::E(x, Box::new(e)), st);
            let v = need_value(spec_eval(e, st).0);
            r is Ok ==> {
                &&& r == Ok::<Option<Mat>, JError>(None)
                &&& v is Ok
                &&& spec_eval(NS::S(x), st1) == (Ok::<Option<Mat>, JError>(Some(v->Ok_0)), st1)
                &&& forall|y: Seq<char>|
                    y != x ==> #[trigger] st1.contains_key(y) == spec_eval(e, st).1.contains_key(y)
                        && (st1.contains_key(y) ==> st1[y] == spec_eval(e, st).1[y])
            }
        }),
{
}

/// A symbol table read after a write: once `x` is bound to `a`, reading `x`
/// gives `a`, and every other name reads as it did before.
pub proof fn law_symbol_table_reads_back(st: Map<Seq<char>, Mat>, x: Seq<char>, a: Mat)
    ensures
        st.insert(x, a).contains_key(x),
        st.insert(x, a)[x] == a,
        forall|y: Seq<char>|
            y != x ==> (#[trigger] st.insert(x, a).contains_key(y) == st.contains_key(y)) && (
            st.contains_key(y) ==> st.insert(x, a)[y] == st[y]),
{
}

/// Insert places the verb between the items, grouping from the right:
/// `d/ x0 x1 ... xk` is `x0 d (d/ x1 ... xk)`, so `+ / 1 2 3` is `1 + 2 + 3`.
pub proof fn law_insert_unfolds(d: D, s: Seq<u32>)
    requires
        s.len() >= 2,
    ensures
        spec_insert(d, row(s)) == match spec_insert(d, row(s.drop_first())) {
            Ok(rest) => spec_dyad(d, scalar(s[0]), rest),
            Err(e) => Err(e),
        },
{
    let t = s.drop_first();
    assert(row(s).d == s);
    assert(row(t).d == t);
    assert(fold_right(d, s) == match fold_right(d, t) {
        Some(acc) => dyad(d, s[0], acc),
        None => None,
    });
    if let Some(acc) = fold_right(d, t) {
        assert(scalar(acc).at(1, 1) == acc);
    }
}

/// Whether a tree holds no assignment.
pub open spec fn no_assignment(n: NS) -> bool
    decreases n,
{
    match n {
        NS::A(_) => true,
        NS::S(_) => true,
        NS::M(_, o) => no_assignment(*o),
        NS::Ym(_, _, o) => no_assignment(*o),
        NS::D(_, l, r) => no_assignment(*l) && no_assignment(*r),
        NS::Yd(_, _, l, r) => no_assignment(*l) && no_assignment(*r),
        NS::E(_, _) => false,
    }
}

/// Evaluating a tree without assignments leaves the variables as they were.
pub proof fn law_only_assignment_changes_variables(n: NS, st: Map<Seq<char>, Mat>)
    requires
        no_assignment(n),
    ensures
        spec_eval(n, st).1 == st,
    decreases n,
{
    match n {
        NS::M(_, o) => law_only_assignment_changes_variables(*o, st),
        NS::Ym(_, _, o) => law_only_assignment_changes_variables(*o, st),
        NS::D(_, l, r) => {
            law_only_assignment_changes_variables(*l, st);
            law_only_assignment_changes_variables(*r, st);
        },
        NS::Yd(_, _, l, r) => {
            law_only_assignment_changes_variables(*l, st);
            law_only_assignment_changes_variables(*r, st);
        },
        _ => {},
    }
}


/// The run of numbers on top of a stack is no longer than the stack.
proof fn lemma_int_run_bound(ts: Seq<TS>)
    ensures
        int_run(ts) <= ts.len(),
    decreases ts.len(),
{
    if ts.len() > 0 {
        lemma_int_run_bound(ts.drop_last());
    }
}

/// Each parsing step takes at least one token off the top of a non-empty token
/// stack and leaves the rest as it was.
pub proof fn law_step_consumes(ts: Seq<TS>, ctx: Seq<NS>)
    ensures
        spec_step(ts, ctx) matches Ok((ts2, _)) ==> {
            &&& ts2.len() <= ts.len()
            &&& ts.len() > 0 ==> ts2.len() < ts.len()
            &&& ts2 == ts.take(ts2.len() as int)
        },
    decreases ts.len(),
{
    assert(ts.take(ts.len() as int) =~= ts);
    match spec_reada(ts) {
        Ok((ts1, Some(_))) => {
            lemma_int_run_bound(ts);
            assert(int_run(ts) > 0);
            assert(ts1 =~= ts.take(ts1.len() as int));
        },
        Ok((_, None)) => {
            if ts.len() > 0 && ts.last() is V {
                let rest = ts.drop_last();
                assert(rest =~= ts.take(rest.len() as int));
                law_step_consumes(rest, ctx.drop_last());
                if let Ok((t2, _)) = spec_step(rest, ctx.drop_last()) {
                    assert(t2 =~= ts.take(t2.len() as int));
                }
                if rest.len() > 0 {
                    let rest2 = rest.drop_last();
                    assert(rest2 =~= ts.take(rest2.len() as int));
                    law_step_consumes(rest2, ctx.drop_last());
                    if let Ok((t2, _)) = spec_step(rest2, ctx.drop_last()) {
                        assert(t2 =~= ts.take(t2.len() as int));
                    }
                }
            } else if ts.len() > 0 {
                assert(int_run(ts) > 0);
            }
        },
        Err(_) => {},
    }
}

/// `n` copies of the word `#`.
pub open spec fn tallies(n: nat) -> Seq<TS> {
    Seq::new(n, |k: int| TS::V(seq!['#']))
}

/// With `k` tallies left and the step counter at `i`, parsing ends with one
/// operand exactly when the `k` steps fit in the limit.
proof fn lemma_tally_loop(k: nat, c: NS, i: nat)
    requires
        i <= MAX + 1,
    ensures
        k + i <= MAX + 1 ==> (spec_loop(tallies(k), seq![c], i) matches Ok(c2) && c2.len() == 1),
        k + i > MAX + 1 ==> spec_loop(tallies(k), seq![c], i) == Err::<Seq<NS>, JError>(
            JError::MaxIterations,
        ),
    decreases k,
{
    if k > 0 && i <= MAX {
        let ts = tallies(k);
        assert(int_run(ts) == 0);
        assert(ts.last() == TS::V(seq!['#']));
        assert(ts.drop_last() =~= tallies((k - 1) as nat));
        let c1 = NS::M(M::Tally, Box::new(c));
        assert(seq![c].drop_last().push(c1) =~= seq![c1]);
        assert(spec_step(ts, seq![c]) == Ok::<(Seq<TS>, Seq<NS>), JError>(
            (tallies((k - 1) as nat), seq![c1]),
        ));
        lemma_tally_loop((k - 1) as nat, c1, i + 1);
    }
}

/// A line takes one parsing step per word or run of numbers, and at most
/// `MAX + 1` of them: `n` words `#` followed by `1` parse when `n <= MAX`, and
/// fail with `MaxIterations` when `n > MAX`.
pub proof fn law_iteration_limit(n: nat, s: Seq<char>)
    requires
        spec_lex(s) == tallies(n).push(TS::I(1)),
    ensures
        n <= MAX ==> (spec_parse(s) matches Ok(Some(_))),
        n > MAX ==> spec_parse(s) == Err::<Option<NS>, JError>(JError::MaxIterations),
{
    let ts = tallies(n).push(TS::I(1));
    assert(ts.drop_last() =~= tallies(n));
    assert(int_run(tallies(n)) == 0);
    assert(int_run(ts) == 1);
    assert(ts.take(n as int) =~= tallies(n));
    let a = NS::A(row(ts.skip(n as int).map_values(|t: TS| int_of(t))));
    assert(spec_step(ts, Seq::empty()) == Ok::<(Seq<TS>, Seq<NS>), JError>(
        (tallies(n), seq![a]),
    ));
    lemma_tally_loop(n, a, 1);
}

/// The number tokens of the values `xs`.
pub open spec fn num_tokens(xs: Seq<u32>) -> Seq<TS> {
    xs.map_values(|x: u32| TS::I(x))
}

/// The row literal read from the number tokens of `xs` holds `xs`.
proof fn lemma_num_tokens(xs: Seq<u32>)
    ensures
        int_run(num_tokens(xs)) == xs.len(),
        num_tokens(xs).map_values(|t: TS| int_of(t)) == xs,
{
    lemma_int_run_take(num_tokens(xs), 0);
    assert(num_tokens(xs).take(0) =~= Seq::<TS>::empty());
    assert(num_tokens(xs).map_values(|t: TS| int_of(t)) =~= xs);
}

/// A line of numbers, a dyadic verb and numbers parses to that verb between the
/// two row literals, and evaluates to the verb applied to them without touching
/// the variables: `x ] y` gives `y`, and `x [ y` gives `x`.
pub proof fn law_dyad_line(
    xs: Seq<u32>,
    w: Seq<char>,
    ys: Seq<u32>,
    s: Seq<char>,
    st: Map<Seq<char>, Mat>,
)
    requires
        xs.len() > 0,
        ys.len() > 0,
        layout_ok(1, xs.len()),
        layout_ok(1, ys.len()),
        verb_d(w) is Some,
        spec_lex(s) == num_tokens(xs).push(TS::V(w)) + num_tokens(ys),
    ensures
        spec_parse(s) == Ok::<Option<NS>, JError>(
            Some(NS::D(verb_d(w)->0, Box::new(NS::A(row(xs))), Box::new(NS::A(row(ys))))),
        ),
        spec_run(s, st) == (some(spec_dyad(verb_d(w)->0, row(xs), row(ys))), st),
        verb_d(w) == Some(D::Right) ==> spec_run(s, st).0 == Ok::<Option<Mat>, JError>(
            Some(row(ys)),
        ),
        verb_d(w) == Some(D::Left) ==> spec_run(s, st).0 == Ok::<Option<Mat>, JError>(
            Some(row(xs)),
        ),
{
    let d = verb_d(w)->0;
    let xt = num_tokens(xs);
    let yt = num_tokens(ys);
    let p = xt.push(TS::V(w));
    let ts = p + yt;
    lemma_num_tokens(xs);
    lemma_num_tokens(ys);
    assert forall|t: int| p.len() <= t < ts.len() implies #[trigger] ts[t] is I by {
        assert(ts[t] == yt[t - p.len()]);
    }
    lemma_int_run_take(ts, p.len() as int);
    assert(ts.take(p.len() as int) =~= p);
    assert(int_run(p) == 0);
    assert(ts.skip(p.len() as int) =~= yt);
    let ay = NS::A(row(ys));
    let ax = NS::A(row(xs));
    assert(spec_reada(ts) == Ok::<(Seq<TS>, Option<NS>), JError>((p, Some(ay))));
    assert(spec_step(ts, Seq::empty()) == Ok::<(Seq<TS>, Seq<NS>), JError>((p, seq![ay])));
    assert(p.drop_last() =~= xt);
    assert(xt.take(0) =~= Seq::<TS>::empty());
    assert(xt.skip(0) =~= xt);
    assert(spec_reada(xt) == Ok::<(Seq<TS>, Option<NS>), JError>((Seq::empty(), Some(ax))));
    assert(Seq::<NS>::empty().push(ax) =~= seq![ax]);
    assert(spec_step(xt, Seq::empty()) == Ok::<(Seq<TS>, Seq<NS>), JError>(
        (Seq::empty(), seq![ax]),
    ));
    assert(starts_noun(xt));
    assert(spec_reada(p) == Ok::<(Seq<TS>, Option<NS>), JError>((p, None)));
    assert(p.last() == TS::V(w));
    assert(seq![ay].drop_last() =~= Seq::<NS>::empty());
    assert(seq![ay].last() == ay);
    let dn = NS::D(d, Box::new(ax), Box::new(ay));
    assert(seq![ax].drop_last().push(dn) =~= seq![dn]);
    assert(spec_step(p, seq![ay]) == Ok::<(Seq<TS>, Seq<NS>), JError>((Seq::empty(), seq![dn])));
    assert(spec_loop(Seq::<TS>::empty(), seq![dn], 2) == Ok::<Seq<NS>, JError>(seq![dn]));
    assert(p.len() > 0);
    assert(spec_loop(p, seq![ay], 1) == Ok::<Seq<NS>, JError>(seq![dn]));
    assert(spec_loop(ts, Seq::empty(), 0) == Ok::<Seq<NS>, JError>(seq![dn]));
    assert(spec_eval(ax, st) == (Ok::<Option<Mat>, JError>(Some(row(xs))), st));
    assert(spec_eval(ay, st) == (Ok::<Option<Mat>, JError>(Some(row(ys))), st));
    assert(spec_eval(dn, st) == (some(spec_dyad(d, row(xs), row(ys))), st));
}

/// The characters with the Unicode `White_Space` property: tab, line feed,
/// vertical tab, form feed, carriage return, space, next line, no-break space,
/// ogham space mark, the spaces U+2000 to U+200A, line separator, paragraph
/// separator, narrow no-break space, medium mathematical space and ideographic
/// space.
pub open spec fn unicode_white_space(c: char) -> bool {
    c == '\t' || c == '\n' || c == '\u{b}' || c == '\u{c}' || c == '\r' || c == ' '
        || c == '\u{85}' || c == '\u{a0}' || c == '\u{1680}' || ('\u{2000}' <= c <= '\u{200a}')
        || c == '\u{2028}' || c == '\u{2029}' || c == '\u{202f}' || c == '\u{205f}'
        || c == '\u{3000}'
}

/// A word that reaches a white space character ends there.
proof fn lemma_word_len_split(s1: Seq<char>, c: char, s2: Seq<char>)
    requires
        is_ws(c),
    ensures
        word_len(s1 + seq![c] + s2) == word_len(s1),
    decreases s1.len(),
{
    let t = s1 + seq![c] + s2;
    if s1.len() == 0 {
        assert(t[0] == c);
    } else {
        assert(t[0] == s1[0]);
        if !is_ws(s1[0]) {
            assert(t.drop_first() =~= s1.drop_first() + seq![c] + s2);
            lemma_word_len_split(s1.drop_first(), c, s2);
        }
    }
}

/// White space splits a line: the tokens of `s1`, a white space character and
/// `s2` are the tokens of `s1` followed by those of `s2`.
pub proof fn law_white_space_splits(s1: Seq<char>, c: char, s2: Seq<char>)
    requires
        unicode_white_space(c),
    ensures
        spec_lex(s1 + seq![c] + s2) == spec_lex(s1) + spec_lex(s2),
    decreases s1.len(),
{
    assert(is_ws(c));
    let t = s1 + seq![c] + s2;
    if s1.len() == 0 {
        assert(t[0] == c);
        assert(t.drop_first() =~= s2);
        assert(spec_lex(s1) =~= Seq::<TS>::empty());
        assert(spec_lex(s1) + spec_lex(s2) =~= spec_lex(s2));
    } else if is_ws(s1[0]) {
        assert(t[0] == s1[0]);
        assert(t.drop_first() =~= s1.drop_first() + seq![c] + s2);
        law_white_space_splits(s1.drop_first(), c, s2);
    } else {
        assert(t[0] == s1[0]);
        lemma_word_len_split(s1, c, s2);
        lemma_word_len_bound(s1);
        let k = word_len(s1);
        assert(t.take(k as int) =~= s1.take(k as int));
        assert(t.skip(k as int) =~= s1.skip(k as int) + seq![c] + s2);
        law_white_space_splits(s1.skip(k as int), c, s2);
        assert(spec_lex(t) == seq![token(s1.take(k as int))] + spec_lex(t.skip(k as int)));
        assert(spec_lex(s1) == seq![token(s1.take(k as int))] + spec_lex(s1.skip(k as int)));
        assert(spec_lex(t) =~= spec_lex(s1) + spec_lex(s2));
    }
}

/// A white space character at the end of a line, such as the line feed that
/// reading a line keeps, changes nothing: `s` and `s` followed by `c` have the
/// same tokens.
pub proof fn law_trailing_white_space(s: Seq<char>, c: char)
    requires
        unicode_white_space(c),
    ensures
        spec_lex(s.push(c)) == spec_lex(s),
{
    law_white_space_splits(s, c, Seq::empty());
    assert(s + seq![c] + Seq::<char>::empty() =~= s.push(c));
    assert(spec_lex(Seq::<char>::empty()) =~= Seq::<TS>::empty());
    assert(spec_lex(s) + Seq::<TS>::empty() =~= spec_lex(s));
}

/// Infix takes every run of `k` successive items: for a list of `n` items and
/// `1 <= k <= n`, `k d\ y` has `n - k + 1` rows of `k` cells, row `i` holding
/// items `i` to `i + k - 1`. `[`, `]` and `+` leave the items as they are, and
/// `*` gives their signs.
pub proof fn law_infix_rows(d: D, k: u32, y: Mat)
    requires
        y.wf(),
        y.m == 1 || y.n == 1,
        1 <= k <= y.d.len(),
        layout_ok((y.d.len() - k + 1) as nat, k as nat),
    ensures
        spec_infix(d, scalar(k), y) matches Ok(o) && {
            &&& o.m == y.d.len() - k + 1
            &&& o.n == k
            &&& forall|i: int, j: int|
                1 <= i <= o.m && 1 <= j <= k ==> #[trigger] o.at(i, j) == if d == D::Mul {
                    if y.d[i + j - 2] == 0 {
                        0u32
                    } else {
                        1u32
                    }
                } else {
                    y.d[i + j - 2]
                }
        },
{
    let n = y.d.len();
    let rows = (n - k + 1) as nat;
    assert(scalar(k).at(1, 1) == k);
    let c = infix_cell(d, y.d);
    assert(!exists|i: int, j: int| 1 <= i <= rows && 1 <= j <= k && #[trigger] c(i, j) is None);
    let g = |i: int, j: int| c(i, j)->0;
    let o = tabulate(rows, k as nat, g);
    assert(spec_infix(d, scalar(k), y) == Ok::<Mat, JError>(o));
    assert forall|i: int, j: int| 1 <= i <= o.m && 1 <= j <= k implies #[trigger] o.at(i, j) == if d
        == D::Mul {
        if y.d[i + j - 2] == 0 {
            0u32
        } else {
            1u32
        }
    } else {
        y.d[i + j - 2]
    } by {
        lemma_tabulate_at(rows, k as nat, g, i, j);
    }
}

/// The items of column `j` of `a`, top to bottom.
pub open spec fn items_of_column(a: Mat, j: int) -> Seq<u32> {
    Seq::new(a.m, |k: int| a.at(k + 1, j))
}

/// Insert over a matrix inserts the verb into each column: `d/ y` for a `y`
/// of at least two rows and two columns is the row whose cell `j` is `d/`
/// applied to column `j` as a list, and it fails exactly when one of those
/// fails. With the list case of `law_insert_unfolds`, cell `j` is
/// `y_1j d y_2j d ... d y_mj`.
pub proof fn law_insert_over_columns(d: D, a: Mat)
    requires
        a.wf(),
        a.m >= 2,
        a.n >= 2,
    ensures
        spec_insert(d, a) is Ok <==> forall|j: int|
            1 <= j <= a.n ==> #[trigger] spec_insert(
                d,
                row(items_of_column(a, j)),
            ) is Ok,
        spec_insert(d, a) matches Ok(o) ==> {
            &&& o.m == 1
            &&& o.n == a.n
            &&& forall|j: int|
                1 <= j <= a.n ==> #[trigger] o.at(1, j) == spec_insert(
                    d,
                    row(items_of_column(a, j)),
                )->Ok_0.at(1, 1)
        },
{
    let c = column_cell(d, a);
    assert forall|j: int| 1 <= j <= a.n implies {
        &&& #[trigger] spec_insert(d, row(items_of_column(a, j))) == match c(1, j) {
            Some(v) => Ok::<Mat, JError>(scalar(v)),
            None => Err(JError::Overflow),
        }
    } by {
        let col = items_of_column(a, j);
        assert(col =~= column(a, j));
        assert(row(col).d == col);
    }
    if spec_insert(d, a) is Ok {
        assert(!exists|i: int, j: int| 1 <= i <= 1 && 1 <= j <= a.n && #[trigger] c(i, j) is None);
        let g = |i: int, j: int| c(i, j)->0;
        let o = tabulate(1, a.n, g);
        assert(spec_insert(d, a) == Ok::<Mat, JError>(o));
        assert forall|j: int| 1 <= j <= a.n implies #[trigger] o.at(1, j) == spec_insert(
            d,
            row(items_of_column(a, j)),
        )->Ok_0.at(1, 1) by {
            assert(!(c(1, j) is None));
            lemma_tabulate_at(1, a.n, g, 1, j);
        }
        assert forall|j: int| 1 <= j <= a.n implies #[trigger] spec_insert(
            d,
            row(items_of_column(a, j)),
        ) is Ok by {
            assert(!(c(1, j) is None));
        }
    } else {
        assert(spec_insert(d, a) == tabulate_checked(1, a.n, c));
        let (i, j) = choose|i: int, j: int| 1 <= i <= 1 && 1 <= j <= a.n && #[trigger] c(i, j) is None;
        assert(c(1, j) is None);
        assert(spec_insert(d, row(items_of_column(a, j))) is Err);
    }
}

/// `x + y` or `x * y` as a natural number.
pub open spec fn arith(d: D, x: u32, y: u32) -> int {
    if d == D::Plus {
        x + y
    } else {
        x * y
    }
}

/// A scalar combines with every cell of an array of any shape: `s + y`,
/// `y + s`, `s * y` and `y * s` have the shape of `y`, and cell `(i, j)` is
/// `y_ij + s` (or `y_ij * s`); an overflow error when some cell exceeds
/// `u32::MAX`.
pub proof fn law_scalar_broadcasts(d: D, s: u32, a: Mat)
    requires
        d == D::Plus || d == D::Mul,
        a.wf(),
    ensures
        (forall|i: int, j: int| a.in_bounds(i, j) ==> #[trigger] arith(d, a.at(i, j), s) <= u32::MAX)
            ==> {
            &&& spec_d_do(d, scalar(s), a) matches Ok(o) && o.m == a.m && o.n == a.n && forall|
                i: int,
                j: int,
            | a.in_bounds(i, j) ==> #[trigger] o.at(i, j) == arith(d, a.at(i, j), s)
            &&& spec_d_do(d, a, scalar(s)) == spec_d_do(d, scalar(s), a)
        },
        (exists|i: int, j: int| a.in_bounds(i, j) && #[trigger] arith(d, a.at(i, j), s) > u32::MAX)
            ==> {
            &&& spec_d_do(d, scalar(s), a) == Err::<Mat, JError>(JError::Overflow)
            &&& spec_d_do(d, a, scalar(s)) == Err::<Mat, JError>(JError::Overflow)
        },
{
    let sc = scalar(s);
    assert(sc.at(1, 1) == s);
    let c = scalar_cell(d, a, s);
    assert forall|i: int, j: int| a.in_bounds(i, j) implies (#[trigger] c(i, j) is None) == (arith(
        d,
        a.at(i, j),
        s,
    ) > u32::MAX) && (c(i, j) matches Some(v) ==> v == arith(d, a.at(i, j), s)) by {
        assert(a.at(i, j) * s == s * a.at(i, j)) by (nonlinear_arith);
    }
    if a.is_scalar() {
        let x = a.at(1, 1);
        assert(a.in_bounds(1, 1));
        assert(dyad(d, x, s) == dyad(d, s, x)) by {
            assert(x * s == s * x) by (nonlinear_arith);
        }
        assert(dyad(d, s, x) == c(1, 1));
        if let Some(v) = dyad(d, x, s) {
            let o = scalar(v);
            assert forall|i: int, j: int| a.in_bounds(i, j) implies #[trigger] o.at(i, j) == arith(
                d,
                a.at(i, j),
                s,
            ) by {
                assert(i == 1 && j == 1);
            }
        }
    } else {
        assert(spec_d_do(d, sc, a) == tabulate_checked(a.m, a.n, c));
        assert(spec_d_do(d, a, sc) == tabulate_checked(a.m, a.n, c));
        if forall|i: int, j: int| a.in_bounds(i, j) ==> #[trigger] arith(d, a.at(i, j), s) <= u32::MAX {
            assert(!exists|i: int, j: int| 1 <= i <= a.m && 1 <= j <= a.n && #[trigger] c(i, j) is None) by {
                assert forall|i: int, j: int| 1 <= i <= a.m && 1 <= j <= a.n implies !(#[trigger] c(i, j) is None) by {
                    assert(a.in_bounds(i, j));
                    assert(arith(d, a.at(i, j), s) <= u32::MAX);
                }
            }
            let g = |i: int, j: int| c(i, j)->0;
            let o = tabulate(a.m, a.n, g);
            assert forall|i: int, j: int| a.in_bounds(i, j) implies #[trigger] o.at(i, j) == arith(
                d,
                a.at(i, j),
                s,
            ) by {
                lemma_tabulate_at(a.m, a.n, g, i, j);
                assert(arith(d, a.at(i, j), s) <= u32::MAX);
            }
        } else {
            let (i, j) = choose|i: int, j: int| a.in_bounds(i, j) && #[trigger] arith(d, a.at(i, j), s) > u32::MAX;
            assert(c(i, j) is None);
        }
    }
}

/// A valid symbol name is not a verb, an adverb or `=:`.
proof fn lemma_symbol_is_no_word(y: Seq<char>)
    requires
        spec_symbol(y) is Ok,
    ensures
        verb_m(y) is None,
        verb_d(y) is None,
        adverb(y) is None,
        !is_assign(y),
{
    assert(is_lower(y[0]));
    if y.len() == 2 {
        assert(is_symbol_char(y[1]));
    }
}

/// The dyadic meaning of an adverb word.
pub open spec fn dyadic_meaning(av: Seq<char>) -> Yd {
    match adverb(av) {
        Some((_, yd)) => yd,
        None => Yd::Table,
    }
}

/// An adverb with an operand on its left applies dyadically whether that
/// operand is written as numbers or as symbols: the line `x w a y` of symbols
/// `x` and `y`, a dyadic verb `w` and an adverb `a` parses to the dyadic adverb
/// between the two symbols, and when `x` and `y` are bound to the rows `xs` and
/// `ys` it evaluates as the line `xs w a ys` written with numbers does. So
/// after `a =: 1 2 3`, `a * / a` is the table `1 2 3 * / 1 2 3`.
pub proof fn law_adverb_with_symbols(
    x: Seq<char>,
    w: Seq<char>,
    av: Seq<char>,
    y: Seq<char>,
    xs: Seq<u32>,
    ys: Seq<u32>,
    s: Seq<char>,
    lit: Seq<char>,
    st: Map<Seq<char>, Mat>,
)
    requires
        spec_symbol(x) is Ok,
        spec_symbol(y) is Ok,
        verb_d(w) is Some,
        adverb(av) is Some,
        spec_lex(s) == seq![TS::V(x), TS::V(w), TS::V(av), TS::V(y)],
        xs.len() > 0,
        ys.len() > 0,
        layout_ok(1, xs.len()),
        layout_ok(1, ys.len()),
        spec_lex(lit) == num_tokens(xs).push(TS::V(w)).push(TS::V(av)) + num_tokens(ys),
        st.contains_key(x),
        st.contains_key(y),
        st[x] == row(xs),
        st[y] == row(ys),
    ensures
        spec_parse(s) == Ok::<Option<NS>, JError>(
            Some(NS::Yd(dyadic_meaning(av), verb_d(w)->0, Box::new(NS::S(x)), Box::new(NS::S(y)))),
        ),
        spec_parse(lit) == Ok::<Option<NS>, JError>(
            Some(
                NS::Yd(
                    dyadic_meaning(av),
                    verb_d(w)->0,
                    Box::new(NS::A(row(xs))),
                    Box::new(NS::A(row(ys))),
                ),
            ),
        ),
        spec_run(s, st) == spec_run(lit, st),
{
    let d = verb_d(w)->0;
    let yd = dyadic_meaning(av);
    lemma_symbol_is_no_word(x);
    lemma_symbol_is_no_word(y);
    assert(verb_m(av) is None && verb_d(av) is None);
    // the line of symbols
    let t0 = seq![TS::V(x), TS::V(w), TS::V(av), TS::V(y)];
    let t1 = seq![TS::V(x), TS::V(w), TS::V(av)];
    let tx = seq![TS::V(x)];
    assert(int_run(t0) == 0);
    assert(int_run(t1) == 0);
    assert(int_run(tx) == 0);
    assert(t0.drop_last() =~= t1);
    assert(t1.drop_last() =~= seq![TS::V(x), TS::V(w)]);
    assert(seq![TS::V(x), TS::V(w)].drop_last() =~= tx);
    assert(tx.drop_last() =~= Seq::<TS>::empty());
    let sy = NS::S(y);
    let sx = NS::S(x);
    assert(Seq::<NS>::empty().push(sy) =~= seq![sy]);
    assert(Seq::<NS>::empty().push(sx) =~= seq![sx]);
    assert(spec_step(t0, Seq::empty()) == Ok::<(Seq<TS>, Seq<NS>), JError>((t1, seq![sy])));
    assert(spec_step(tx, Seq::empty()) == Ok::<(Seq<TS>, Seq<NS>), JError>((Seq::empty(), seq![sx])));
    assert(starts_noun(tx));
    assert(seq![sy].drop_last() =~= Seq::<NS>::empty());
    let yn = NS::Yd(yd, d, Box::new(sx), Box::new(sy));
    assert(seq![sx].drop_last().push(yn) =~= seq![yn]);
    assert(spec_step(t1, seq![sy]) == Ok::<(Seq<TS>, Seq<NS>), JError>((Seq::empty(), seq![yn])));
    assert(spec_loop(Seq::<TS>::empty(), seq![yn], 2) == Ok::<Seq<NS>, JError>(seq![yn]));
    assert(spec_loop(t1, seq![sy], 1) == Ok::<Seq<NS>, JError>(seq![yn]));
    assert(spec_loop(t0, Seq::empty(), 0) == Ok::<Seq<NS>, JError>(seq![yn]));
    // the line of numbers
    let xt = num_tokens(xs);
    let yt = num_tokens(ys);
    let q = xt.push(TS::V(w));
    let p = q.push(TS::V(av));
    let ts = p + yt;
    lemma_num_tokens(xs);
    lemma_num_tokens(ys);
    assert forall|t: int| p.len() <= t < ts.len() implies #[trigger] ts[t] is I by {
        assert(ts[t] == yt[t - p.len()]);
    }
    lemma_int_run_take(ts, p.len() as int);
    assert(ts.take(p.len() as int) =~= p);
    assert(int_run(p) == 0);
    assert(ts.skip(p.len() as int) =~= yt);
    let ay = NS::A(row(ys));
    let ax = NS::A(row(xs));
    assert(spec_reada(ts) == Ok::<(Seq<TS>, Option<NS>), JError>((p, Some(ay))));
    assert(spec_step(ts, Seq::empty()) == Ok::<(Seq<TS>, Seq<NS>), JError>((p, seq![ay])));
    assert(p.drop_last() =~= q);
    assert(q.drop_last() =~= xt);
    assert(xt.take(0) =~= Seq::<TS>::empty());
    assert(xt.skip(0) =~= xt);
    assert(spec_reada(xt) == Ok::<(Seq<TS>, Option<NS>), JError>((Seq::empty(), Some(ax))));
    assert(Seq::<NS>::empty().push(ax) =~= seq![ax]);
    assert(spec_step(xt, Seq::empty()) == Ok::<(Seq<TS>, Seq<NS>), JError>(
        (Seq::empty(), seq![ax]),
    ));
    assert(starts_noun(xt));
    assert(spec_reada(p) == Ok::<(Seq<TS>, Option<NS>), JError>((p, None)));
    assert(p.last() == TS::V(av));
    assert(q.last() == TS::V(w));
    assert(seq![ay].drop_last() =~= Seq::<NS>::empty());
    let ln = NS::Yd(yd, d, Box::new(ax), Box::new(ay));
    assert(seq![ax].drop_last().push(ln) =~= seq![ln]);
    assert(spec_step(p, seq![ay]) == Ok::<(Seq<TS>, Seq<NS>), JError>((Seq::empty(), seq![ln])));
    assert(spec_loop(Seq::<TS>::empty(), seq![ln], 2) == Ok::<Seq<NS>, JError>(seq![ln]));
    assert(p.len() > 0);
    assert(spec_loop(p, seq![ay], 1) == Ok::<Seq<NS>, JError>(seq![ln]));
    assert(spec_loop(ts, Seq::empty(), 0) == Ok::<Seq<NS>, JError>(seq![ln]));
    // both evaluate alike
    assert(spec_eval(sx, st) == (Ok::<Option<Mat>, JError>(Some(row(xs))), st));
    assert(spec_eval(sy, st) == (Ok::<Option<Mat>, JError>(Some(row(ys))), st));
    assert(spec_eval(ax, st) == (Ok::<Option<Mat>, JError>(Some(row(xs))), st));
    assert(spec_eval(ay, st) == (Ok::<Option<Mat>, JError>(Some(row(ys))), st));
}

/// `i. m n` counts up from zero row by row: it has `m` rows of `n` cells, and
/// cell `(i, j)` is `(i - 1) * n + (j - 1)`, whenever all of them fit in `u32`.
pub proof fn law_idot_table(m: u32, n: u32)
    requires
        layout_ok(m as nat, n as nat),
        m * n <= u32::MAX,
    ensures
        spec_idot(row(seq![m, n])) matches Ok(o) && o.m == m && o.n == n && forall|i: int, j: int|
            1 <= i <= m && 1 <= j <= n ==> #[trigger] o.at(i, j) == (i - 1) * n + (j - 1),
{
    let a = row(seq![m, n]);
    assert(a.at(1, 1) == m && a.at(1, 2) == n);
    let c = idot_cell(n as nat);
    assert(!exists|i: int, j: int| 1 <= i <= m && 1 <= j <= n && #[trigger] c(i, j) is None);
    let g = |i: int, j: int| c(i, j)->0;
    let o = tabulate(m as nat, n as nat, g);
    assert(spec_idot(a) == Ok::<Mat, JError>(o));
    assert forall|i: int, j: int| 1 <= i <= m && 1 <= j <= n implies #[trigger] o.at(i, j) == (i - 1)
        * n + (j - 1) by {
        lemma_tabulate_at(m as nat, n as nat, g, i, j);
        lemma_offset_in_range(m as nat, n as nat, i, j);
        assert((i - 1) * n + (j - 1) < m * n);
    }
}

/// The value of `x d y` as a number: `x + y`, `x * y`, `x` or `y`.
pub open spec fn verb_value(d: D, x: u32, y: u32) -> int {
    match d {
        D::Plus => x + y,
        D::Mul => x * y,
        D::Left => x as int,
        D::Right => y as int,
    }
}

/// Table combines every item of the left list with every item of the right:
/// `x d/ y` has a row per item of `x` and a column per item of `y`, and cell
/// `(i, j)` is `x_i d y_j`; an overflow error when some cell exceeds `u32::MAX`.
pub proof fn law_table_cells(d: D, x: Mat, y: Mat)
    requires
        x.wf(),
        y.wf(),
        x.m == 1 || x.n == 1,
        y.m == 1 || y.n == 1,
        layout_ok(x.d.len(), y.d.len()),
    ensures
        (forall|i: int, j: int|
            1 <= i <= x.d.len() && 1 <= j <= y.d.len() ==> #[trigger] verb_value(d, x.d[i - 1], y.d[j - 1])
                <= u32::MAX) ==> (spec_table(d, x, y) matches Ok(o) && o.m == x.d.len() && o.n
            == y.d.len() && forall|i: int, j: int|
            1 <= i <= x.d.len() && 1 <= j <= y.d.len() ==> #[trigger] o.at(i, j) == verb_value(
                d,
                x.d[i - 1],
                y.d[j - 1],
            )),
        (exists|i: int, j: int|
            1 <= i <= x.d.len() && 1 <= j <= y.d.len() && #[trigger] verb_value(d, x.d[i - 1], y.d[j - 1])
                > u32::MAX) ==> spec_table(d, x, y) == Err::<Mat, JError>(JError::Overflow),
{
    let p = x.d.len();
    let q = y.d.len();
    let c = table_cell(d, x.d, y.d);
    assert(spec_table(d, x, y) == tabulate_checked(p, q, c));
    assert forall|i: int, j: int| 1 <= i <= p && 1 <= j <= q implies ((#[trigger] c(i, j) is None) == (
    verb_value(d, x.d[i - 1], y.d[j - 1]) > u32::MAX)) && (c(i, j) matches Some(v) ==> v
        == verb_value(d, x.d[i - 1], y.d[j - 1])) by {
    }
    if forall|i: int, j: int|
        1 <= i <= p && 1 <= j <= q ==> #[trigger] verb_value(d, x.d[i - 1], y.d[j - 1]) <= u32::MAX {
        assert forall|i: int, j: int| 1 <= i <= p && 1 <= j <= q implies !(#[trigger] c(i, j) is None) by {
            assert(verb_value(d, x.d[i - 1], y.d[j - 1]) <= u32::MAX);
        }
        let g = |i: int, j: int| c(i, j)->0;
        let o = tabulate(p, q, g);
        assert(spec_table(d, x, y) == Ok::<Mat, JError>(o));
        assert forall|i: int, j: int| 1 <= i <= p && 1 <= j <= q implies #[trigger] o.at(i, j)
            == verb_value(d, x.d[i - 1], y.d[j - 1]) by {
            lemma_tabulate_at(p, q, g, i, j);
            assert(verb_value(d, x.d[i - 1], y.d[j - 1]) <= u32::MAX);
        }
    } else {
        let (i, j) = choose|i: int, j: int|
            1 <= i <= p && 1 <= j <= q && #[trigger] verb_value(d, x.d[i - 1], y.d[j - 1]) > u32::MAX;
        assert(c(i, j) is None);
    }
}

/// Prefix lists the successive prefixes of a list: for `n` items, `d\ y` is
/// `n x n`, row `i` holding items `1` to `i` and then zeros. `[`, `]` and `+`
/// leave the items as they are, and `*` gives their signs.
pub proof fn law_prefix_rows(d: D, y: Mat)
    requires
        y.wf(),
        y.m == 1 || y.n == 1,
        layout_ok(y.d.len(), y.d.len()),
    ensures
        spec_prefix(d, y) matches Ok(o) && {
            &&& o.m == y.d.len()
            &&& o.n == y.d.len()
            &&& forall|i: int, j: int|
                1 <= i <= o.m && 1 <= j <= o.n ==> #[trigger] o.at(i, j) == if j > i {
                    0u32
                } else if d == D::Mul {
                    if y.d[j - 1] == 0 {
                        0u32
                    } else {
                        1u32
                    }
                } else {
                    y.d[j - 1]
                }
        },
{
    let n = y.d.len();
    let c = prefix_cell(d, y.d);
    assert(!exists|i: int, j: int| 1 <= i <= n && 1 <= j <= n && #[trigger] c(i, j) is None);
    let g = |i: int, j: int| c(i, j)->0;
    let o = tabulate(n, n, g);
    assert(spec_prefix(d, y) == Ok::<Mat, JError>(o));
    assert forall|i: int, j: int| 1 <= i <= o.m && 1 <= j <= o.n implies #[trigger] o.at(i, j) == if j
        > i {
        0u32
    } else if d == D::Mul {
        if y.d[j - 1] == 0 {
            0u32
        } else {
            1u32
        }
    } else {
        y.d[j - 1]
    } by {
        lemma_tabulate_at(n, n, g, i, j);
    }
}

/// A digit character stands for its digit.
proof fn lemma_digit_char(d: nat)
    requires
        d < 10,
    ensures
        is_digit(digit_char(d)),
        (digit_char(d) as int) - ('0' as int) == d,
{
}

/// The decimal notation of a number is a non-empty string of digits that
/// reads back as the number.
proof fn lemma_decimal_digits(x: nat)
    ensures
        decimal(x).len() > 0,
        all_digits(decimal(x)),
        digits_val(decimal(x)) == x,
        decimal(x)[0] != '+',
        forall|k: int| 0 <= k < decimal(x).len() ==> !#[trigger] is_ws(decimal(x)[k]),
    decreases x,
{
    let ds = decimal(x);
    if x >= 10 {
        lemma_decimal_digits(x / 10);
        let p = decimal(x / 10);
        lemma_digit_char(x % 10);
        assert(ds == p + seq![digit_char(x % 10)]);
        assert(ds.last() == digit_char(x % 10));
        assert(x == (x / 10) * 10 + x % 10);
        assert(ds.drop_last() =~= p);
        assert(digits_val(ds) == digits_val(p) * 10 + (x % 10));
        assert(ds[0] == p[0]);
        assert forall|k: int| 0 <= k < ds.len() implies #[trigger] is_digit(ds[k]) by {
            if k < p.len() {
                assert(ds[k] == p[k]);
                assert(is_digit(p[k]));
            }
        }
        assert forall|k: int| 0 <= k < ds.len() implies !#[trigger] is_ws(ds[k]) by {
            if k < p.len() {
                assert(ds[k] == p[k]);
                assert(!is_ws(p[k]));
            }
        }
    } else {
        lemma_digit_char(x);
        assert(ds.drop_last() =~= Seq::<char>::empty());
        assert(ds.last() == digit_char(x));
        assert(digits_val(ds.drop_last()) == 0);
        assert(digits_val(ds) == x);
    }
}

/// A line without white space is one word.
proof fn lemma_one_word(s: Seq<char>)
    requires
        forall|k: int| 0 <= k < s.len() ==> !#[trigger] is_ws(s[k]),
    ensures
        word_len(s) == s.len(),
    decreases s.len(),
{
    if s.len() > 0 {
        assert forall|k: int| 0 <= k < s.drop_first().len() implies !#[trigger] is_ws(
            s.drop_first()[k],
        ) by {
            assert(s.drop_first()[k] == s[k + 1]);
        }
        lemma_one_word(s.drop_first());
    }
}

/// A number reads back from its decimal notation: the one token of the line
/// `decimal(x)` is the number `x`, and so is that of the text of the scalar `x`,
/// its line feed included.
pub proof fn law_number_reads_back(x: u32)
    ensures
        spec_lex(decimal(x as nat)) == seq![TS::I(x)],
        spec_lex(display(scalar(x))) == seq![TS::I(x)],
{
    let ds = decimal(x as nat);
    lemma_decimal_digits(x as nat);
    lemma_one_word(ds);
    assert(!is_ws(ds[0]));
    assert(ds.take(ds.len() as int) =~= ds);
    assert(ds.skip(ds.len() as int) =~= Seq::<char>::empty());
    assert(unsigned_digits(ds) == ds);
    assert(spec_parse_u32(ds) == Some(x));
    assert(spec_lex(Seq::<char>::empty()) =~= Seq::<TS>::empty());
    assert(spec_lex(ds) =~= seq![TS::I(x)]);
    let a = scalar(x);
    assert(display_prefix(a, 0) =~= Seq::<char>::empty());
    assert(separator(1, 0) == '\n');
    assert(display(a) =~= ds.push('\n'));
    law_trailing_white_space(ds, '\n');
}

} // verus!
