//! Small verified text utilities shared by the parser, the normalizer and
//! the store: character-vector conversions, decimal rendering, and the
//! lexicographic order on character sequences that the store sorts by.

use vstd::prelude::*;
use crate::outside::push_char;

verus! {

/// The characters of `s` as a vector.
pub fn chars_of(s: &str) -> (v: Vec<char>)
    ensures
        v@ == s@,
{
    let n = s.unicode_len();
    let mut v: Vec<char> = Vec::new();
    let mut i: usize = 0;
    while i < n
        invariant
            i <= n,
            n == s@.len(),
            v@ == s@.take(i as int),
        decreases n - i,
    {
        let c = s.get_char(i);
        v.push(c);
        assert(v@ =~= s@.take(i + 1));
        i = i + 1;
    }
    assert(v@ =~= s@);
    v
}

/// The characters of `v` as a string.
pub fn string_of(v: &Vec<char>) -> (r: String)
    ensures
        r@ == v@,
{
    let mut r = String::new();
    let mut i: usize = 0;
    let n = v.len();
    while i < n
        invariant
            i <= n,
            n == v@.len(),
            r@ == v@.take(i as int),
        decreases n - i,
    {
        push_char(&mut r, v[i]);
        assert(r@ =~= v@.take(i + 1));
        i = i + 1;
    }
    assert(r@ =~= v@);
    r
}

/// `a` and `b` hold the same characters.
pub fn chars_eq(a: &Vec<char>, b: &Vec<char>) -> (r: bool)
    ensures
        r == (a@ == b@),
{
    if a.len() != b.len() {
        return false;
    }
    let n = a.len();
    let mut i: usize = 0;
    while i < n
        invariant
            i <= n,
            n == a@.len() == b@.len(),
            forall|k: int| 0 <= k < i ==> a@[k] == b@[k],
        decreases n - i,
    {
        if a[i] != b[i] {
            return false;
        }
        i = i + 1;
    }
    assert(a@ =~= b@);
    true
}

/// The characters of `v` from `a` (inclusive) to `b` (exclusive).
pub fn sub_vec(v: &Vec<char>, a: usize, b: usize) -> (r: Vec<char>)
    requires
        a <= b <= v@.len(),
    ensures
        r@ == v@.subrange(a as int, b as int),
{
    let mut r: Vec<char> = Vec::new();
    let mut i: usize = a;
    while i < b
        invariant
            a <= i <= b <= v@.len(),
            r@ == v@.subrange(a as int, i as int),
        decreases b - i,
    {
        r.push(v[i]);
        assert(r@ =~= v@.subrange(a as int, i + 1));
        i = i + 1;
    }
    r
}

/// The decimal digit character for `d`.
pub open spec fn spec_digit(d: int) -> char {
    if d == 0 { '0' } else if d == 1 { '1' } else if d == 2 { '2' }
    else if d == 3 { '3' } else if d == 4 { '4' } else if d == 5 { '5' }
    else if d == 6 { '6' } else if d == 7 { '7' } else if d == 8 { '8' }
    else { '9' }
}

/// The decimal rendering of `n`, most significant digit first, no sign,
/// no leading zeros (except for zero itself).
pub open spec fn spec_dec(n: int) -> Seq<char>
    decreases n,
{
    if n < 10 {
        seq![spec_digit(n)]
    } else {
        spec_dec(n / 10).push(spec_digit(n % 10))
    }
}

fn digit_char(d: u64) -> (c: char)
    requires
        d < 10,
    ensures
        c == spec_digit(d as int),
{
    match d {
        0 => '0', 1 => '1', 2 => '2', 3 => '3', 4 => '4',
        5 => '5', 6 => '6', 7 => '7', 8 => '8', _ => '9',
    }
}

fn dec_chars(n: u64, out: &mut Vec<char>)
    ensures
        final(out)@ == old(out)@ + spec_dec(n as int),
    decreases n,
{
    if n < 10 {
        out.push(digit_char(n));
        assert(final(out)@ =~= old(out)@ + spec_dec(n as int));
    } else {
        dec_chars(n / 10, out);
        out.push(digit_char(n % 10));
        assert(final(out)@ =~= old(out)@ + spec_dec(n as int));
    }
}

/// `n` rendered in decimal.
pub fn dec_u64(n: u64) -> (r: Vec<char>)
    ensures
        r@ == spec_dec(n as int),
{
    let mut out: Vec<char> = Vec::new();
    dec_chars(n, &mut out);
    assert(out@ =~= spec_dec(n as int));
    out
}

/// Strict lexicographic order on the suffixes of `a` and `b` from
/// position `i` on, comparing characters by code point.
pub open spec fn lex_lt_from(a: Seq<char>, b: Seq<char>, i: int) -> bool
    decreases b.len() - i,
{
    if i >= b.len() {
        false
    } else if i >= a.len() {
        true
    } else if a[i] != b[i] {
        a[i] < b[i]
    } else {
        lex_lt_from(a, b, i + 1)
    }
}

/// Strict lexicographic order by code point; on UTF-8 encoded text this is
/// exactly the byte order an SQL store sorts TEXT columns by.
pub open spec fn lex_lt(a: Seq<char>, b: Seq<char>) -> bool {
    lex_lt_from(a, b, 0)
}

/// Non-strict lexicographic order.
pub open spec fn lex_le(a: Seq<char>, b: Seq<char>) -> bool {
    lex_lt(a, b) || a == b
}

proof fn lemma_lex_from_total(a: Seq<char>, b: Seq<char>, i: int)
    requires
        0 <= i <= a.len(),
        0 <= i <= b.len(),
    ensures
        lex_lt_from(a, b, i) || lex_lt_from(b, a, i) || a.skip(i) == b.skip(i),
    decreases a.len() + b.len() - 2 * i,
{
    if i >= b.len() {
        if i >= a.len() {
            assert(a.skip(i) =~= b.skip(i));
        }
    } else if i >= a.len() {
    } else if a[i] != b[i] {
    } else {
        lemma_lex_from_total(a, b, i + 1);
        if a.skip(i + 1) == b.skip(i + 1) {
            assert(a.skip(i + 1).len() == a.len() - (i + 1));
            assert(b.skip(i + 1).len() == b.len() - (i + 1));
            assert(a.len() == b.len());
            assert forall|k: int| 0 <= k < a.skip(i).len() implies
                a.skip(i)[k] == b.skip(i)[k] by {
                if k > 0 {
                    assert(a.skip(i + 1)[k - 1] == b.skip(i + 1)[k - 1]);
                }
            }
            assert(a.skip(i) =~= b.skip(i));
        }
    }
}

/// The order is total: two sequences compare one way, the other, or are equal.
pub proof fn lemma_lex_total(a: Seq<char>, b: Seq<char>)
    ensures
        lex_le(a, b) || lex_le(b, a),
{
    lemma_lex_from_total(a, b, 0);
    if !lex_lt_from(a, b, 0) && !lex_lt_from(b, a, 0) {
        assert(a.skip(0) =~= a);
        assert(b.skip(0) =~= b);
    }
}

proof fn lemma_lex_from_trans(a: Seq<char>, b: Seq<char>, c: Seq<char>, i: int)
    requires
        0 <= i,
        lex_lt_from(a, b, i),
        lex_lt_from(b, c, i),
    ensures
        lex_lt_from(a, c, i),
    decreases c.len() - i,
{
    if i >= b.len() {
    } else if i >= a.len() {
    } else if a[i] != b[i] {
        if b[i] != c[i] {
        } else {
        }
    } else {
        if b[i] != c[i] {
        } else {
            lemma_lex_from_trans(a, b, c, i + 1);
        }
    }
}

proof fn lemma_lex_from_asym(a: Seq<char>, b: Seq<char>, i: int)
    requires
        0 <= i,
    ensures
        !(lex_lt_from(a, b, i) && lex_lt_from(b, a, i)),
    decreases b.len() - i,
{
    if lex_lt_from(a, b, i) && lex_lt_from(b, a, i) {
        if 0 <= i < a.len() && i < b.len() && a[i] == b[i] {
            lemma_lex_from_asym(a, b, i + 1);
        }
    }
}

/// The order is asymmetric: at most one of two distinct sequences precedes
/// the other.
pub proof fn lemma_lex_asym(a: Seq<char>, b: Seq<char>)
    ensures
        !(lex_lt(a, b) && lex_lt(b, a)),
{
    lemma_lex_from_asym(a, b, 0);
}

/// The order is transitive.
pub proof fn lemma_lex_trans(a: Seq<char>, b: Seq<char>, c: Seq<char>)
    requires
        lex_le(a, b),
        lex_le(b, c),
    ensures
        lex_le(a, c),
{
    if a == b || b == c {
    } else {
        lemma_lex_from_trans(a, b, c, 0);
    }
}


/// String equality by characters.
pub fn str_eq(a: &str, b: &str) -> (r: bool)
    ensures
        r == (a@ == b@),
{
    let va = chars_of(a);
    let vb = chars_of(b);
    chars_eq(&va, &vb)
}

/// Compares two strings in the lexicographic code-point order.
pub fn str_lt(a: &str, b: &str) -> (r: bool)
    ensures
        r == lex_lt(a@, b@),
{
    let va = chars_of(a);
    let vb = chars_of(b);
    let na = va.len();
    let nb = vb.len();
    let mut i: usize = 0;
    loop
        invariant
            i <= na,
            i <= nb,
            na == a@.len(),
            nb == b@.len(),
            va@ == a@,
            vb@ == b@,
            lex_lt(a@, b@) == lex_lt_from(a@, b@, i as int),
        decreases nb - i,
    {
        if i >= nb {
            return false;
        }
        if i >= na {
            return true;
        }
        let ca = va[i];
        let cb = vb[i];
        if ca != cb {
            return ca < cb;
        }
        i = i + 1;
    }
}

} // verus!
