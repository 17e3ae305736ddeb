use vstd::prelude::*;

use crate::array::A;
use crate::error::{JError, R};
use crate::mat::Mat;

verus! {

/// Whether `c` is one of `a` to `z`.
pub open spec fn is_lower(c: char) -> bool {
    'a' <= c <= 'z'
}

/// Whether `c` may appear in a symbol: `a` to `z`, `0` to `9`, or `_`.
pub open spec fn is_symbol_char(c: char) -> bool {
    is_lower(c) || ('0' <= c <= '9') || c == '_'
}

/// The checks a symbol name passes, in order: it is not empty, it starts with
/// `a` to `z`, and it holds only `a` to `z`, `0` to `9` and `_`.
pub open spec fn spec_symbol(s: Seq<char>) -> R<Seq<char>> {
    if s.len() == 0 {
        Err(JError::EmptySymbol)
    } else if !is_lower(s[0]) {
        Err(JError::SymbolStart)
    } else if exists|k: int| 0 <= k < s.len() && !#[trigger] is_symbol_char(s[k]) {
        Err(JError::SymbolChars)
    } else {
        Ok(s)
    }
}

/// A symbol: the name of a variable.
#[derive(Debug, Clone, PartialEq, Eq, PartialOrd, Ord)]
pub struct SY(String);

impl View for SY {
    type V = Seq<char>;

    closed spec fn view(&self) -> Seq<char> {
        self.0@
    }
}

impl SY {
    /// Parses a symbol name. Returns an error if it is empty, does not start with
    /// `a` to `z`, or holds a character other than `a` to `z`, `0` to `9` and `_`.
    pub fn from_str(s: &str) -> (r: R<SY>)
        ensures
            match r {
                Ok(sy) => spec_symbol(s@) == Ok::<Seq<char>, JError>(sy@),
                Err(e) => spec_symbol(s@) == Err::<Seq<char>, JError>(e),
            },
    {
        let len = s.unicode_len();
        if len == 0 {
            return Err(JError::EmptySymbol);
        }
        let c0 = s.get_char(0);
        if !('a' <= c0 && c0 <= 'z') {
            return Err(JError::SymbolStart);
        }
        let mut k: usize = 0;
        while k < len
            invariant
                len == s@.len(),
                len > 0,
                is_lower(s@[0]),
                k <= len,
                forall|t: int| 0 <= t < k ==> #[trigger] is_symbol_char(s@[t]),
            decreases len - k,
        {
            let c = s.get_char(k);
            if !(('a' <= c && c <= 'z') || ('0' <= c && c <= '9') || c == '_') {
                assert(!is_symbol_char(s@[k as int]));
                return Err(JError::SymbolChars);
            }
            k = k + 1;
        }
        Ok(SY(s.to_owned()))
    }
}

/// No two entries bind the same name.
pub open spec fn distinct_keys(s: Seq<(SY, A)>) -> bool {
    forall|i: int, k: int|
        0 <= i < s.len() && 0 <= k < s.len() && i != k ==> #[trigger] s[i].0@ != #[trigger] s[k].0@
}

/// Whether some entry binds the name `k`.
pub open spec fn binds(s: Seq<(SY, A)>, k: Seq<char>) -> bool {
    exists|i: int| 0 <= i < s.len() && #[trigger] s[i].0@ == k
}

/// The position of an entry binding `k`.
pub open spec fn position(s: Seq<(SY, A)>, k: Seq<char>) -> int {
    choose|i: int| 0 <= i < s.len() && #[trigger] s[i].0@ == k
}

/// The map from each bound name to the value of its entry.
pub open spec fn map_of(s: Seq<(SY, A)>) -> Map<Seq<char>, Mat> {
    Map::new(|k: Seq<char>| binds(s, k), |k: Seq<char>| s[position(s, k)].1@)
}

/// The entry at position `i` is what the map gives for its name.
proof fn lemma_map_of_entry(s: Seq<(SY, A)>, i: int)
    requires
        distinct_keys(s),
        0 <= i < s.len(),
    ensures
        map_of(s).contains_key(s[i].0@),
        map_of(s)[s[i].0@] == s[i].1@,
        position(s, s[i].0@) == i,
{
    let k = s[i].0@;
    assert(binds(s, k));
    let p = position(s, k);
    assert(s[p].0@ == k);
}

/// Replacing the entry of a name already bound rebinds that name.
proof fn lemma_map_of_update(s: Seq<(SY, A)>, i: int, e: (SY, A))
    requires
        distinct_keys(s),
        0 <= i < s.len(),
        s[i].0@ == e.0@,
    ensures
        distinct_keys(s.update(i, e)),
        map_of(s.update(i, e)) == map_of(s).insert(e.0@, e.1@),
{
    let t = s.update(i, e);
    assert forall|a: int, b: int|
        0 <= a < t.len() && 0 <= b < t.len() && a != b implies #[trigger] t[a].0@ != #[trigger] t[b].0@ by {
        assert(t[a].0@ == s[a].0@);
        assert(t[b].0@ == s[b].0@);
    }
    lemma_map_of_entry(t, i);
    assert forall|k: Seq<char>| #[trigger] map_of(t).contains_key(k) == map_of(s).insert(
        e.0@,
        e.1@,
    ).contains_key(k) by {
        if binds(t, k) {
            let p = position(t, k);
            assert(s[p].0@ == t[p].0@);
        }
        if binds(s, k) {
            let p = position(s, k);
            assert(s[p].0@ == t[p].0@);
        }
    }
    assert forall|k: Seq<char>| #[trigger] map_of(t).contains_key(k) && k != e.0@ implies map_of(
        t,
    )[k] == map_of(s)[k] by {
        let p = position(t, k);
        assert(t[p] == s[p]);
        lemma_map_of_entry(s, p);
        lemma_map_of_entry(t, p);
    }
    assert(map_of(t) =~= map_of(s).insert(e.0@, e.1@));
}

/// Adding an entry for an unbound name binds it.
proof fn lemma_map_of_push(s: Seq<(SY, A)>, e: (SY, A))
    requires
        distinct_keys(s),
        !map_of(s).contains_key(e.0@),
    ensures
        distinct_keys(s.push(e)),
        map_of(s.push(e)) == map_of(s).insert(e.0@, e.1@),
{
    let t = s.push(e);
    assert forall|a: int, b: int|
        0 <= a < t.len() && 0 <= b < t.len() && a != b implies #[trigger] t[a].0@ != #[trigger] t[b].0@ by {
        if a < s.len() && b < s.len() {
            assert(t[a] == s[a] && t[b] == s[b]);
        } else if a < s.len() {
            assert(t[a] == s[a]);
            assert(!binds(s, e.0@));
        } else if b < s.len() {
            assert(t[b] == s[b]);
            assert(!binds(s, e.0@));
        }
    }
    lemma_map_of_entry(t, s.len() as int);
    assert forall|k: Seq<char>| #[trigger] map_of(t).contains_key(k) == map_of(s).insert(
        e.0@,
        e.1@,
    ).contains_key(k) by {
        if binds(t, k) {
            let p = position(t, k);
            if p < s.len() {
                assert(s[p] == t[p]);
            }
        }
        if binds(s, k) {
            let p = position(s, k);
            assert(s[p] == t[p]);
        }
    }
    assert forall|k: Seq<char>| #[trigger] map_of(t).contains_key(k) && k != e.0@ implies map_of(
        t,
    )[k] == map_of(s)[k] by {
        let p = position(t, k);
        assert(p < s.len());
        assert(t[p] == s[p]);
        lemma_map_of_entry(s, p);
        lemma_map_of_entry(t, p);
    }
    assert(map_of(t) =~= map_of(s).insert(e.0@, e.1@));
}

/// A symbol table: the variables defined so far and their values.
pub struct ST {
    st: Vec<(SY, A)>,
}

impl ST {
    /// No name is bound twice, and every value is a well-formed array.
    #[verifier::type_invariant]
    closed spec fn inv(self) -> bool {
        &&& distinct_keys(self.st@)
        &&& forall|i: int| 0 <= i < self.st@.len() ==> (#[trigger] self.st@[i]).1.wf()
    }
}

impl View for ST {
    type V = Map<Seq<char>, Mat>;

    closed spec fn view(&self) -> Map<Seq<char>, Mat> {
        map_of(self.st@)
    }
}

impl Default for ST {
    /// An empty symbol table.
    fn default() -> (r: ST)
        ensures
            r@ == Map::<Seq<char>, Mat>::empty(),
    {
        let r = ST { st: Vec::new() };
        assert(r@ =~= Map::<Seq<char>, Mat>::empty());
        r
    }
}

impl ST {
    /// The position of the entry binding `sy`, if there is one.
    fn find(&self, sy: &SY) -> (r: Option<usize>)
        ensures
            match r {
                Some(i) => i < self.st@.len() && self.st@[i as int].0@ == sy@,
                None => !self@.contains_key(sy@),
            },
    {
        let mut i: usize = 0;
        while i < self.st.len()
            invariant
                i <= self.st@.len(),
                forall|t: int| 0 <= t < i ==> self.st@[t].0@ != sy@,
            decreases self.st@.len() - i,
        {
            if self.st[i].0.0 == sy.0 {
                return Some(i);
            }
            i = i + 1;
        }
        None
    }

    /// The value bound to `sy`, if any.
    pub fn get(&self, sy: &SY) -> (r: Option<&A>)
        ensures
            match r {
                Some(a) => self@.contains_key(sy@) && a.wf() && a@ == self@[sy@],
                None => !self@.contains_key(sy@),
            },
    {
        proof {
            use_type_invariant(self);
        }
        match self.find(sy) {
            Some(i) => {
                proof {
                    lemma_map_of_entry(self.st@, i as int);
                }
                Some(&self.st[i].1)
            },
            None => None,
        }
    }

    /// The value bound to the symbol named `sy`, if any. The name must be a valid
    /// symbol.
    pub fn get_s(&self, sy: &str) -> (r: Option<&A>)
        requires
            spec_symbol(sy@) is Ok,
        ensures
            match r {
                Some(a) => self@.contains_key(sy@) && a.wf() && a@ == self@[sy@],
                None => !self@.contains_key(sy@),
            },
    {
        match SY::from_str(sy) {
            Ok(s) => self.get(&s),
            Err(_) => None,
        }
    }

    /// Binds `sy` to `a`, replacing any earlier value.
    pub fn insert(&mut self, sy: SY, a: A)
        requires
            a.wf(),
        ensures
            final(self)@ == old(self)@.insert(sy@, a@),
    {
        proof {
            use_type_invariant(&*self);
        }
        let found = self.find(&sy);
        let mut st: Vec<(SY, A)> = Vec::new();
        std::mem::swap(&mut st, &mut self.st);
        let ghost old_st = st@;
        let ghost e = (sy, a);
        match found {
            Some(i) => {
                st.set(i, (sy, a));
                proof {
                    assert(st@ == old_st.update(i as int, e));
                    lemma_map_of_update(old_st, i as int, e);
                }
            },
            None => {
                st.push((sy, a));
                proof {
                    assert(st@ == old_st.push(e));
                    lemma_map_of_push(old_st, e);
                }
            },
        }
        assert forall|t: int| 0 <= t < st@.len() implies (#[trigger] st@[t]).1.wf() by {
            if t < old_st.len() && st@[t] != e {
                assert(st@[t] == old_st[t]);
            }
        }
        self.st = st;
    }
}

} // verus!
