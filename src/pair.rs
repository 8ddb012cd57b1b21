//! Two numerals separated by a comma: a record of the data table, or the
//! persisted weights.

use vstd::prelude::*;
use crate::lexical::{
    COMMA, is_blank, is_digit, is_numeral, is_numeral_range, trim, trim_end, trim_range, trim_start,
};

verus! {

/// The text of two numerals, in the order in which they stand.
#[derive(Debug, Clone, PartialEq, Eq)]
pub struct NumeralPair {
    pub first: Vec<u8>,
    pub second: Vec<u8>,
}

impl View for NumeralPair {
    type V = (Seq<u8>, Seq<u8>);

    open spec fn view(&self) -> (Seq<u8>, Seq<u8>) {
        (self.first@, self.second@)
    }
}

/// `c` is the position of the first comma of `t`.
pub open spec fn is_first_comma(t: Seq<u8>, c: int) -> bool {
    &&& 0 <= c < t.len()
    &&& t[c] == COMMA
    &&& forall|j: int| 0 <= j < c ==> #[trigger] t[j] != COMMA
}

/// `t` read as two numerals separated by its first comma, each of them with
/// blanks allowed around it; `None` where `t` has no such form.
pub open spec fn split_pair(t: Seq<u8>) -> Option<(Seq<u8>, Seq<u8>)> {
    if exists|c: int| is_first_comma(t, c) {
        let c = choose|c: int| is_first_comma(t, c);
        let first = trim(t.take(c));
        let second = trim(t.skip(c + 1));
        if is_numeral(first) && is_numeral(second) {
            Some((first, second))
        } else {
            None
        }
    } else {
        None
    }
}

/// A copy of `s[lo..hi]`.
pub fn copy_range(s: &[u8], lo: usize, hi: usize) -> (r: Vec<u8>)
    requires
        lo <= hi <= s@.len(),
    ensures
        r@ == s@.subrange(lo as int, hi as int),
{
    let mut r: Vec<u8> = Vec::with_capacity(hi - lo);
    let mut k: usize = lo;
    while k < hi
        invariant
            lo <= k <= hi <= s@.len(),
            r@ == s@.subrange(lo as int, k as int),
        decreases hi - k,
    {
        r.push(s[k]);
        assert(r@ =~= s@.subrange(lo as int, k + 1));
        k = k + 1;
    }
    r
}

/// Reads `s[lo..hi]` as two comma-separated numerals.
pub fn split_pair_range(s: &[u8], lo: usize, hi: usize) -> (r: Option<NumeralPair>)
    requires
        lo <= hi <= s@.len(),
    ensures
        r matches Some(p) ==> split_pair(s@.subrange(lo as int, hi as int)) == Some(p@),
        r is None ==> split_pair(s@.subrange(lo as int, hi as int)) is None,
{
    let ghost t = s@.subrange(lo as int, hi as int);
    let mut k: usize = lo;
    while k < hi && s[k] != COMMA
        invariant
            lo <= k <= hi <= s@.len(),
            t == s@.subrange(lo as int, hi as int),
            forall|j: int| 0 <= j < k - lo ==> #[trigger] t[j] != COMMA,
        decreases hi - k,
    {
        k = k + 1;
    }
    if k == hi {
        assert(!exists|c: int| is_first_comma(t, c));
        return None;
    }
    let ghost c = k - lo;
    assert(is_first_comma(t, c));
    assert forall|d: int| is_first_comma(t, d) implies d == c by {
        if d < c {
            assert(t[d] != COMMA);
        } else if d > c {
            assert(t[c] != COMMA);
        }
    }
    assert(t.take(c) =~= s@.subrange(lo as int, k as int));
    assert(t.skip(c + 1) =~= s@.subrange(k + 1, hi as int));
    let (a, b) = trim_range(s, lo, k);
    let (d, e) = trim_range(s, k + 1, hi);
    if is_numeral_range(s, a, b) && is_numeral_range(s, d, e) {
        Some(NumeralPair { first: copy_range(s, a, b), second: copy_range(s, d, e) })
    } else {
        None
    }
}

/// Reads persisted weights: two numerals separated by a comma, with blanks
/// (line feeds included) allowed around each.
pub fn parse_weights(text: &[u8]) -> (r: Option<NumeralPair>)
    ensures
        r matches Some(p) ==> split_pair(text@) == Some(p@),
        r is None ==> split_pair(text@) is None,
{
    assert(text@.subrange(0, text@.len() as int) =~= text@);
    split_pair_range(text, 0, text.len())
}

proof fn lemma_numeral_is_trimmed(a: Seq<u8>)
    requires
        is_numeral(a),
    ensures
        trim(a) == a,
        forall|i: int| 0 <= i < a.len() ==> #[trigger] a[i] != COMMA,
{
    assert(!is_blank(a[0]));
    assert(trim_start(a) == a);
    assert(is_digit(a.last()));
    assert(trim_end(a) == a);
    assert forall|i: int| 0 <= i < a.len() implies #[trigger] a[i] != COMMA by {
        if a[0] == crate::lexical::MINUS || a[0] == crate::lexical::PLUS {
            if i > 0 {
                assert(a[i] == a.drop_first()[i - 1]);
            }
        }
    }
}

/// Two numerals written with a comma between them read back as the same two
/// numerals: the form in which weights are persisted round-trips.
pub proof fn lemma_pair_round_trip(a: Seq<u8>, b: Seq<u8>)
    requires
        is_numeral(a),
        is_numeral(b),
    ensures
        split_pair(a + seq![COMMA] + b) == Some((a, b)),
{
    lemma_numeral_is_trimmed(a);
    lemma_numeral_is_trimmed(b);
    let t = a + seq![COMMA] + b;
    let c = a.len() as int;
    assert(is_first_comma(t, c));
    assert forall|d: int| is_first_comma(t, d) implies d == c by {
        if d < c {
            assert(t[d] == a[d]);
        }
    }
    assert(t.take(c) =~= a);
    assert(t.skip(c + 1) =~= b);
}

} // verus!
