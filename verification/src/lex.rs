use vstd::prelude::*;

use crate::error::R;

verus! {

/// Whether `c` has the Unicode `White_Space` property, which is what separates
/// the words of an input line.
pub open spec fn is_ws(c: char) -> bool {
    ('\u{9}' <= c <= '\u{d}') || c == ' ' || c == '\u{85}' || c == '\u{a0}' || c == '\u{1680}'
        || ('\u{2000}' <= c <= '\u{200a}') || c == '\u{2028}' || c == '\u{2029}' || c == '\u{202f}'
        || c == '\u{205f}' || c == '\u{3000}'
}

/// The number of leading characters of `s` that are not white space.
pub open spec fn word_len(s: Seq<char>) -> nat
    decreases s.len(),
{
    if s.len() == 0 || is_ws(s[0]) {
        0
    } else {
        1 + word_len(s.drop_first())
    }
}

/// A word is never longer than the text it starts.
pub proof fn lemma_word_len_bound(s: Seq<char>)
    ensures
        word_len(s) <= s.len(),
        s.len() > 0 && !is_ws(s[0]) ==> word_len(s) >= 1,
    decreases s.len(),
{
    if s.len() > 0 {
        lemma_word_len_bound(s.drop_first());
    }
}

/// Whether `c` is one of `0` to `9`.
pub open spec fn is_digit(c: char) -> bool {
    '0' <= c <= '9'
}

/// The value of a string of decimal digits.
pub open spec fn digits_val(ds: Seq<char>) -> nat
    decreases ds.len(),
{
    if ds.len() == 0 {
        0
    } else {
        digits_val(ds.drop_last()) * 10 + ((ds.last() as int) - ('0' as int)) as nat
    }
}

/// A word without its leading `+`, if it has one.
pub open spec fn unsigned_digits(w: Seq<char>) -> Seq<char> {
    if w.len() > 0 && w[0] == '+' {
        w.drop_first()
    } else {
        w
    }
}

/// Whether every character is a decimal digit.
pub open spec fn all_digits(ds: Seq<char>) -> bool {
    forall|k: int| 0 <= k < ds.len() ==> #[trigger] is_digit(ds[k])
}

/// A word read as an unsigned 32-bit number: an optional `+` followed by one or
/// more decimal digits, whose value fits in `u32`.
pub open spec fn spec_parse_u32(w: Seq<char>) -> Option<u32> {
    let ds = unsigned_digits(w);
    if ds.len() > 0 && all_digits(ds) && digits_val(ds) <= u32::MAX {
        Some(digits_val(ds) as u32)
    } else {
        None
    }
}

/// A syntax token.
#[derive(Clone, Debug, PartialEq)]
pub enum T {
    /// a number
    I(u32),
    /// any other word: a verb, an adverb, `=:`, or a symbol
    V(String),
}

/// The value of a token.
pub enum TS {
    I(u32),
    V(Seq<char>),
}

impl View for T {
    type V = TS;

    open spec fn view(&self) -> TS {
        match self {
            T::I(i) => TS::I(*i),
            T::V(s) => TS::V(s@),
        }
    }
}

/// The token a word stands for: a number when it reads as one, a word otherwise.
pub open spec fn token(w: Seq<char>) -> TS {
    match spec_parse_u32(w) {
        Some(i) => TS::I(i),
        None => TS::V(w),
    }
}

/// The tokens of an input line: its words, split at white space, in order.
pub open spec fn spec_lex(s: Seq<char>) -> Seq<TS>
    decreases s.len(),
{
    if s.len() == 0 {
        seq![]
    } else if is_ws(s[0]) {
        spec_lex(s.drop_first())
    } else {
        let k = word_len(s);
        proof {
            lemma_word_len_bound(s);
        }
        seq![token(s.take(k as int))] + spec_lex(s.skip(k as int))
    }
}

/// The values of a sequence of tokens.
pub open spec fn tokens_view(ts: Seq<T>) -> Seq<TS> {
    ts.map_values(|t: T| t@)
}

/// A longer string of digits is worth at least as much as its prefix.
proof fn lemma_digits_val_prefix(ds: Seq<char>, j: int)
    requires
        0 <= j <= ds.len(),
        forall|k: int| 0 <= k < ds.len() ==> #[trigger] is_digit(ds[k]),
    ensures
        digits_val(ds.take(j)) <= digits_val(ds),
    decreases ds.len() - j,
{
    if j < ds.len() {
        let t = ds.take(j + 1);
        assert(t.drop_last() =~= ds.take(j));
        assert(is_digit(ds[j]));
        lemma_digits_val_prefix(ds, j + 1);
    } else {
        assert(ds.take(j) =~= ds);
    }
}

/// Whether `c` has the Unicode `White_Space` property.
fn is_whitespace(c: char) -> (b: bool)
    ensures
        b == is_ws(c),
{
    ('\u{9}' <= c && c <= '\u{d}') || c == ' ' || c == '\u{85}' || c == '\u{a0}' || c == '\u{1680}'
        || ('\u{2000}' <= c && c <= '\u{200a}') || c == '\u{2028}' || c == '\u{2029}' || c
        == '\u{202f}' || c == '\u{205f}' || c == '\u{3000}'
}

/// The word read as an unsigned 32-bit number, if it is one.
fn parse_u32(w: &str) -> (r: Option<u32>)
    ensures
        r == spec_parse_u32(w@),
{
    let len = w.unicode_len();
    if len == 0 {
        return None;
    }
    let mut k: usize = 0;
    if w.get_char(0) == '+' {
        k = 1;
    }
    let start = k;
    let ghost ds = unsigned_digits(w@);
    assert(ds =~= w@.subrange(start as int, len as int));
    if start == len {
        return None;
    }
    let mut v: u32 = 0;
    while k < len
        invariant
            len == w@.len(),
            start <= k <= len,
            start < len,
            ds == w@.subrange(start as int, len as int),
            ds == unsigned_digits(w@),
            forall|t: int| start <= t < k ==> #[trigger] is_digit(w@[t]),
            v == digits_val(w@.subrange(start as int, k as int)),
        decreases len - k,
    {
        let c = w.get_char(k);
        if !('0' <= c && c <= '9') {
            assert(!is_digit(ds[k - start]));
            return None;
        }
        let d = (c as u32) - ('0' as u32);
        let ghost prev = w@.subrange(start as int, k as int);
        assert(w@.subrange(start as int, k + 1).drop_last() =~= prev);
        let nv = match v.checked_mul(10) {
            Some(t) => t.checked_add(d),
            None => None,
        };
        match nv {
            Some(t) => {
                v = t;
            },
            None => {
                proof {
                    if all_digits(ds) {
                        assert(ds.take(k + 1 - start) =~= w@.subrange(start as int, k + 1));
                        lemma_digits_val_prefix(ds, k + 1 - start);
                    }
                }
                return None;
            },
        }
        k = k + 1;
    }
    assert(w@.subrange(start as int, len as int) =~= ds);
    Some(v)
}

impl T {
    /// The token a word stands for: a number when it reads as one, a word otherwise.
    fn from_word(w: &str) -> (r: T)
        ensures
            r@ == token(w@),
    {
        match parse_u32(w) {
            Some(i) => T::I(i),
            None => T::V(w.to_owned()),
        }
    }
}

/// Splits an input line into tokens at white space. A word is a number when it
/// is an optional `+` followed by decimal digits whose value fits in `u32`.
pub fn lex(input: &str) -> (r: R<Vec<T>>)
    ensures
        r matches Ok(ts) && tokens_view(ts@) == spec_lex(input@),
{
    let len = input.unicode_len();
    let mut out: Vec<T> = Vec::new();
    let mut i: usize = 0;
    assert(input@.skip(0) =~= input@);
    assert(tokens_view(out@) =~= Seq::<TS>::empty());
    while i < len
        invariant
            len == input@.len(),
            i <= len,
            tokens_view(out@) + spec_lex(input@.skip(i as int)) == spec_lex(input@),
        decreases len - i,
    {
        let ghost rest = input@.skip(i as int);
        let c = input.get_char(i);
        if is_whitespace(c) {
            assert(rest.drop_first() =~= input@.skip(i + 1));
            i = i + 1;
        } else {
            let start = i;
            while i < len && !is_whitespace(input.get_char(i))
                invariant
                    len == input@.len(),
                    start < len,
                    start <= i <= len,
                    word_len(input@.skip(start as int)) == (i - start) + word_len(
                        input@.skip(i as int),
                    ),
                decreases len - i,
            {
                assert(input@.skip(i as int).drop_first() =~= input@.skip(i + 1));
                i = i + 1;
            }
            assert(word_len(input@.skip(i as int)) == 0);
            assert(i > start);
            let w = input.substring_char(start, i);
            let t = T::from_word(w);
            assert(rest.take(i - start) =~= w@);
            assert(rest.skip(i - start) =~= input@.skip(i as int));
            let ghost before = out@;
            out.push(t);
            assert(tokens_view(out@) =~= tokens_view(before) + seq![t@]);
        }
    }
    assert(input@.skip(len as int) =~= Seq::<char>::empty());
    assert(tokens_view(out@) + spec_lex(Seq::<char>::empty()) =~= tokens_view(out@));
    Ok(out)
}

} // verus!
