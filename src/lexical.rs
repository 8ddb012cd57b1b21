//! Byte classes, trimming and decimal numerals.

use vstd::prelude::*;

verus! {

pub const SPACE: u8 = 0x20;
pub const TAB: u8 = 0x09;
pub const CR: u8 = 0x0d;
pub const LF: u8 = 0x0a;
pub const COMMA: u8 = 0x2c;
pub const POINT: u8 = 0x2e;
pub const MINUS: u8 = 0x2d;
pub const PLUS: u8 = 0x2b;

/// Space, tab, carriage return or line feed.
pub open spec fn is_blank(b: u8) -> bool {
    b == SPACE || b == TAB || b == CR || b == LF
}

pub open spec fn is_digit(b: u8) -> bool {
    0x30 <= b && b <= 0x39
}

/// `t` without its leading blanks.
pub open spec fn trim_start(t: Seq<u8>) -> Seq<u8>
    decreases t.len(),
{
    if t.len() > 0 && is_blank(t[0]) {
        trim_start(t.drop_first())
    } else {
        t
    }
}

/// `t` without its trailing blanks.
pub open spec fn trim_end(t: Seq<u8>) -> Seq<u8>
    decreases t.len(),
{
    if t.len() > 0 && is_blank(t.last()) {
        trim_end(t.drop_last())
    } else {
        t
    }
}

pub open spec fn trim(t: Seq<u8>) -> Seq<u8> {
    trim_end(trim_start(t))
}

/// Digits, with at most one decimal point that has a digit on each side.
pub open spec fn is_unsigned_numeral(u: Seq<u8>) -> bool {
    &&& u.len() > 0
    &&& is_digit(u[0])
    &&& is_digit(u.last())
    &&& forall|i: int| 0 <= i < u.len() ==> is_digit(#[trigger] u[i]) || u[i] == POINT
    &&& forall|i: int, j: int|
        0 <= i < u.len() && 0 <= j < u.len() && #[trigger] u[i] == POINT && #[trigger] u[j]
            == POINT ==> i == j
}

/// A plain decimal numeral with an optional sign, such as `-12.5` or `24000`.
pub open spec fn is_numeral(t: Seq<u8>) -> bool {
    if t.len() > 0 && (t[0] == MINUS || t[0] == PLUS) {
        is_unsigned_numeral(t.drop_first())
    } else {
        is_unsigned_numeral(t)
    }
}

pub fn is_blank_byte(b: u8) -> (r: bool)
    ensures
        r == is_blank(b),
{
    b == SPACE || b == TAB || b == CR || b == LF
}

pub fn is_digit_byte(b: u8) -> (r: bool)
    ensures
        r == is_digit(b),
{
    0x30 <= b && b <= 0x39
}

/// The bounds of `s[lo..hi]` with its leading and trailing blanks removed.
pub fn trim_range(s: &[u8], lo: usize, hi: usize) -> (r: (usize, usize))
    requires
        lo <= hi <= s@.len(),
    ensures
        lo <= r.0 <= r.1 <= hi,
        s@.subrange(r.0 as int, r.1 as int) == trim(s@.subrange(lo as int, hi as int)),
{
    let mut a: usize = lo;
    while a < hi && is_blank_byte(s[a])
        invariant
            lo <= a <= hi <= s@.len(),
            trim_start(s@.subrange(lo as int, hi as int)) == trim_start(
                s@.subrange(a as int, hi as int),
            ),
        decreases hi - a,
    {
        assert(s@.subrange(a as int, hi as int).drop_first() =~= s@.subrange(
            a + 1,
            hi as int,
        ));
        a = a + 1;
    }
    assert(trim_start(s@.subrange(a as int, hi as int)) == s@.subrange(a as int, hi as int));
    let mut b: usize = hi;
    while b > a && is_blank_byte(s[b - 1])
        invariant
            lo <= a <= b <= hi <= s@.len(),
            trim(s@.subrange(lo as int, hi as int)) == trim_end(s@.subrange(a as int, b as int)),
        decreases b - a,
    {
        assert(s@.subrange(a as int, b as int).drop_last() =~= s@.subrange(
            a as int,
            b - 1,
        ));
        b = b - 1;
    }
    (a, b)
}

/// Whether `s[lo..hi]` is a decimal numeral.
pub fn is_numeral_range(s: &[u8], lo: usize, hi: usize) -> (r: bool)
    requires
        lo <= hi <= s@.len(),
    ensures
        r == is_numeral(s@.subrange(lo as int, hi as int)),
{
    let t = Ghost(s@.subrange(lo as int, hi as int));
    if lo < hi && (s[lo] == MINUS || s[lo] == PLUS) {
        assert(t@.drop_first() =~= s@.subrange(lo + 1, hi as int));
        is_unsigned_numeral_range(s, lo + 1, hi)
    } else {
        is_unsigned_numeral_range(s, lo, hi)
    }
}

/// Whether `s[lo..hi]` is an unsigned decimal numeral.
pub fn is_unsigned_numeral_range(s: &[u8], lo: usize, hi: usize) -> (r: bool)
    requires
        lo <= hi <= s@.len(),
    ensures
        r == is_unsigned_numeral(s@.subrange(lo as int, hi as int)),
{
    let ghost u = s@.subrange(lo as int, hi as int);
    if lo == hi || !is_digit_byte(s[lo]) || !is_digit_byte(s[hi - 1]) {
        return false;
    }
    // `point == hi` while no point has been met.
    let mut point: usize = hi;
    let mut k: usize = lo;
    while k < hi
        invariant
            lo <= k <= hi <= s@.len(),
            u == s@.subrange(lo as int, hi as int),
            forall|i: int| 0 <= i < k - lo ==> is_digit(#[trigger] u[i]) || u[i] == POINT,
            point == hi ==> forall|i: int| 0 <= i < k - lo ==> #[trigger] u[i] != POINT,
            point < hi ==> lo <= point < k && u[point - lo] == POINT && forall|i: int|
                0 <= i < k - lo && #[trigger] u[i] == POINT ==> i == point - lo,
            point <= hi,
        decreases hi - k,
    {
        let b = s[k];
        if b == POINT {
            if point < hi {
                assert(u[point - lo] == POINT && u[k - lo] == POINT);
                return false;
            }
            point = k;
        } else if !is_digit_byte(b) {
            assert(!(is_digit(u[k - lo]) || u[k - lo] == POINT));
            return false;
        }
        k = k + 1;
    }
    true
}

} // verus!
