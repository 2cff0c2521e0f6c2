//! Filename normalization for the similarity pipeline.
//!
//! A path is reduced to a canonical lowercase name: take the file stem,
//! lowercase it, strip one layer of noise suffixes (`_final`, `_old`,
//! `_backup`, `_copy` and their space-separated forms), then repeatedly
//! strip a trailing digit cluster and the single separator before it —
//! the repeated auto-numbering a DAW appends to saved copies — and trim.

use vstd::prelude::*;
use crate::outside::{lower_of, lowercase};
use crate::text::{chars_of, string_of, sub_vec};

verus! {

pub open spec fn is_space(c: char) -> bool {
    c == ' ' || c == '\t' || c == '\n' || c == '\r'
}

pub open spec fn is_digit(c: char) -> bool {
    '0' <= c && c <= '9'
}

pub open spec fn is_sep(c: char) -> bool {
    c == '_' || c == ' '
}

pub open spec fn strip_end_ws(s: Seq<char>) -> Seq<char>
    decreases s.len(),
{
    if s.len() > 0 && is_space(s.last()) {
        strip_end_ws(s.drop_last())
    } else {
        s
    }
}

pub open spec fn strip_end_digits(s: Seq<char>) -> Seq<char>
    decreases s.len(),
{
    if s.len() > 0 && is_digit(s.last()) {
        strip_end_digits(s.drop_last())
    } else {
        s
    }
}

pub open spec fn strip_front_ws(s: Seq<char>) -> Seq<char>
    decreases s.len(),
{
    if s.len() > 0 && is_space(s[0]) {
        strip_front_ws(s.skip(1))
    } else {
        s
    }
}

/// Trim whitespace from both ends.
pub open spec fn spec_trim(s: Seq<char>) -> Seq<char> {
    strip_front_ws(strip_end_ws(s))
}

pub proof fn lemma_strip_end_ws_len(s: Seq<char>)
    ensures
        strip_end_ws(s).len() <= s.len(),
    decreases s.len(),
{
    if s.len() > 0 && is_space(s.last()) {
        lemma_strip_end_ws_len(s.drop_last());
    }
}

pub proof fn lemma_strip_end_digits_len(s: Seq<char>)
    ensures
        strip_end_digits(s).len() <= s.len(),
    decreases s.len(),
{
    if s.len() > 0 && is_digit(s.last()) {
        lemma_strip_end_digits_len(s.drop_last());
    }
}

/// `s` ends with `t`.
pub open spec fn ends_with(s: Seq<char>, t: Seq<char>) -> bool {
    s.len() >= t.len() && s.skip(s.len() - t.len()) == t
}

/// The noise suffixes, checked in this order.
pub open spec fn noise_list() -> Seq<Seq<char>> {
    seq![
        "_final"@, "_old"@, "_backup"@, "_copy"@,
        " final"@, " old"@, " backup"@, " copy"@,
    ]
}

/// One pass over the noise suffixes: each one in order is stripped if the
/// (current) name ends with it.
pub open spec fn strip_noise_from(s: Seq<char>, i: int) -> Seq<char>
    decreases noise_list().len() - i,
{
    if i < 0 || i >= noise_list().len() {
        s
    } else {
        let suf = noise_list()[i];
        let s2 = if ends_with(s, suf) {
            s.take(s.len() - suf.len())
        } else {
            s
        };
        strip_noise_from(s2, i + 1)
    }
}

pub open spec fn strip_noise(s: Seq<char>) -> Seq<char> {
    strip_noise_from(s, 0)
}

/// Repeatedly strip a trailing digit cluster and one separator before it.
/// One round looks at the name with trailing whitespace ignored; if that
/// ends in digits they go, together with a single trailing `_` or space,
/// and the loop runs again; a round without digits keeps the name as it
/// stood (whitespace included) for the final trim.
pub open spec fn digit_strip_loop(s: Seq<char>) -> Seq<char>
    decreases s.len(),
    via digit_strip_loop_decreases
{
    let t = strip_end_ws(s);
    let d = strip_end_digits(t);
    if d.len() == t.len() {
        s
    } else {
        let w = if d.len() > 0 && is_sep(d.last()) {
            d.drop_last()
        } else {
            d
        };
        if w.len() == 0 {
            w
        } else {
            digit_strip_loop(w)
        }
    }
}

#[via_fn]
proof fn digit_strip_loop_decreases(s: Seq<char>) {
    lemma_strip_end_ws_len(s);
    lemma_strip_end_digits_len(strip_end_ws(s));
}

/// Position of the last occurrence of `c` in `s`, or `-1`.
pub open spec fn last_pos(s: Seq<char>, c: char) -> int
    decreases s.len(),
{
    if s.len() == 0 {
        -1
    } else if s.last() == c {
        s.len() - 1
    } else {
        last_pos(s.drop_last(), c)
    }
}

pub proof fn lemma_last_pos_range(s: Seq<char>, c: char)
    ensures
        -1 <= last_pos(s, c) < s.len(),
    decreases s.len(),
{
    if s.len() > 0 && s.last() != c {
        lemma_last_pos_range(s.drop_last(), c);
    }
}

/// The file stem of a path: the part of the last `/`-separated component
/// before its final dot (a name whose only dot leads it keeps the dot).
/// An empty component falls back to the whole path.
pub open spec fn stem_of(s: Seq<char>) -> Seq<char> {
    let name = s.skip(last_pos(s, '/') + 1);
    if name.len() == 0 {
        s
    } else {
        let d = last_pos(name, '.');
        if d <= 0 {
            name
        } else {
            name.take(d)
        }
    }
}

/// The normalized form of a path.
pub open spec fn spec_normalize(s: Seq<char>) -> Seq<char> {
    spec_trim(digit_strip_loop(strip_noise(lower_of(stem_of(s)))))
}

fn space_char(c: char) -> (r: bool)
    ensures
        r == is_space(c),
{
    c == ' ' || c == '\t' || c == '\n' || c == '\r'
}

fn digit_char(c: char) -> (r: bool)
    ensures
        r == is_digit(c),
{
    '0' <= c && c <= '9'
}

fn sep_char(c: char) -> (r: bool)
    ensures
        r == is_sep(c),
{
    c == '_' || c == ' '
}

fn trim_end_ws(v: &Vec<char>) -> (r: Vec<char>)
    ensures
        r@ == strip_end_ws(v@),
        r@.len() <= v@.len(),
{
    let mut j = v.len();
    assert(v@.take(j as int) =~= v@);
    while j > 0 && space_char(v[j - 1])
        invariant
            j <= v@.len(),
            strip_end_ws(v@) == strip_end_ws(v@.take(j as int)),
        decreases j,
    {
        assert(v@.take(j as int).last() == v@[j - 1]);
        assert(v@.take(j as int).drop_last() =~= v@.take(j - 1));
        j = j - 1;
    }
    assert(j == 0 || v@.take(j as int).last() == v@[j as int - 1]);
    assert(strip_end_ws(v@.take(j as int)) == v@.take(j as int));
    sub_vec(v, 0, j)
}

fn trim_end_digits(v: &Vec<char>) -> (r: Vec<char>)
    ensures
        r@ == strip_end_digits(v@),
        r@.len() <= v@.len(),
{
    let mut j = v.len();
    assert(v@.take(j as int) =~= v@);
    while j > 0 && digit_char(v[j - 1])
        invariant
            j <= v@.len(),
            strip_end_digits(v@) == strip_end_digits(v@.take(j as int)),
        decreases j,
    {
        assert(v@.take(j as int).last() == v@[j - 1]);
        assert(v@.take(j as int).drop_last() =~= v@.take(j - 1));
        j = j - 1;
    }
    assert(j == 0 || v@.take(j as int).last() == v@[j as int - 1]);
    assert(strip_end_digits(v@.take(j as int)) == v@.take(j as int));
    sub_vec(v, 0, j)
}

fn trim_front_ws(v: &Vec<char>) -> (r: Vec<char>)
    ensures
        r@ == strip_front_ws(v@),
{
    let n = v.len();
    let mut j: usize = 0;
    assert(v@.skip(0) =~= v@);
    while j < n && space_char(v[j])
        invariant
            j <= n,
            n == v@.len(),
            strip_front_ws(v@) == strip_front_ws(v@.skip(j as int)),
        decreases n - j,
    {
        assert(v@.skip(j as int)[0] == v@[j as int]);
        assert(v@.skip(j as int).skip(1) =~= v@.skip(j + 1));
        j = j + 1;
    }
    assert(j == n || v@.skip(j as int)[0] == v@[j as int]);
    assert(strip_front_ws(v@.skip(j as int)) == v@.skip(j as int));
    let r = sub_vec(v, j, n);
    assert(r@ =~= v@.skip(j as int));
    r
}

/// Whether `v` ends with the characters of `suf`; if so, returns `v`
/// shortened by that suffix.
fn strip_one_suffix(v: &Vec<char>, suf: &Vec<char>) -> (r: Vec<char>)
    ensures
        ends_with(v@, suf@) ==> r@ == v@.take(v@.len() - suf@.len()),
        !ends_with(v@, suf@) ==> r@ == v@,
{
    let nv = v.len();
    let ns = suf.len();
    if nv < ns {
        assert(!ends_with(v@, suf@));
        return sub_vec(v, 0, nv);
    }
    let base = nv - ns;
    let mut k: usize = 0;
    while k < ns && v[base + k] == suf[k]
        invariant
            k <= ns,
            ns <= nv,
            base == nv - ns,
            nv == v@.len(),
            ns == suf@.len(),
            forall|h: int| 0 <= h < k ==> v@[base + h] == suf@[h],
        decreases ns - k,
    {
        k = k + 1;
    }
    if k == ns {
        assert(v@.skip(base as int) =~= suf@) by {
            assert(forall|h: int| 0 <= h < ns ==>
                #[trigger] v@.skip(base as int)[h] == v@[base + h]);
        }
        assert(ends_with(v@, suf@));
        sub_vec(v, 0, base)
    } else {
        assert(v@[base + k] != suf@[k as int]);
        assert(!ends_with(v@, suf@)) by {
            if ends_with(v@, suf@) {
                assert(v@.skip(base as int)[k as int] == suf@[k as int]);
            }
        }
        sub_vec(v, 0, nv)
    }
}

/// Normalizes a path to the canonical lowercase name used for matching.
pub fn normalize_filename(path: &str) -> (r: String)
    ensures
        r@ == spec_normalize(path@),
{
    let v = chars_of(path);
    let n = v.len();

    // stem: last '/'-separated component, extension removed
    proof {
        lemma_last_pos_range(v@, '/');
    }
    // find the position after the last '/', scanning from the end
    let mut j = n;
    assert(v@.take(j as int) =~= v@);
    while j > 0 && v[j - 1] != '/'
        invariant
            j <= n,
            n == v@.len(),
            last_pos(v@, '/') == last_pos(v@.take(j as int), '/'),
            forall|h: int| j <= h < n ==> v@[h] != '/',
        decreases j,
    {
        assert(v@.take(j as int).last() == v@[j - 1]);
        assert(v@.take(j as int).drop_last() =~= v@.take(j - 1));
        j = j - 1;
    }
    // here: j == 0 with no '/' anywhere, or v[j-1] == '/'
    proof {
        if j > 0 {
            assert(v@.take(j as int).last() == v@[j - 1]);
            assert(last_pos(v@.take(j as int), '/') == j - 1);
        } else {
            assert(v@.take(0) =~= Seq::<char>::empty());
            assert(last_pos(v@.take(0), '/') == -1);
        }
    }
    let name = sub_vec(&v, j, n);
    assert(name@ =~= v@.skip(last_pos(v@, '/') + 1));

    let stem: Vec<char>;
    if name.len() == 0 {
        stem = sub_vec(&v, 0, n);
        assert(stem@ =~= v@);
        assert(stem@ == stem_of(v@));
    } else {
        // last '.' within the name
        proof {
            lemma_last_pos_range(name@, '.');
        }
        let m = name.len();
        let mut k = m;
        assert(name@.take(k as int) =~= name@);
        while k > 0 && name[k - 1] != '.'
            invariant
                k <= m,
                m == name@.len(),
                last_pos(name@, '.') == last_pos(name@.take(k as int), '.'),
            decreases k,
        {
            assert(name@.take(k as int).last() == name@[k - 1]);
            assert(name@.take(k as int).drop_last() =~= name@.take(k - 1));
            k = k - 1;
        }
        proof {
            if k > 0 {
                assert(name@.take(k as int).last() == name@[k - 1]);
                assert(last_pos(name@.take(k as int), '.') == k - 1);
            } else {
                assert(name@.take(0) =~= Seq::<char>::empty());
                assert(last_pos(name@.take(0), '.') == -1);
            }
        }
        if k <= 1 {
            // no dot, or only a leading dot: keep the whole name
            stem = name;
            assert(stem@ == stem_of(v@));
        } else {
            stem = sub_vec(&name, 0, k - 1);
            assert(stem@ == stem_of(v@));
        }
    }

    // lowercase through the trusted wrapper
    let stem_str = string_of(&stem);
    let lowered = lowercase(stem_str.as_str());
    let mut cur = chars_of(lowered.as_str());
    assert(cur@ == lower_of(stem_of(path@)));

    // one pass of noise suffixes, in order
    let ghost lowered_seq = cur@;
    let mut suffixes: Vec<Vec<char>> = Vec::new();
    suffixes.push(chars_of("_final"));
    suffixes.push(chars_of("_old"));
    suffixes.push(chars_of("_backup"));
    suffixes.push(chars_of("_copy"));
    suffixes.push(chars_of(" final"));
    suffixes.push(chars_of(" old"));
    suffixes.push(chars_of(" backup"));
    suffixes.push(chars_of(" copy"));
    assert(suffixes@.len() == noise_list().len());
    assert(forall|h: int| 0 <= h < 8 ==> #[trigger] suffixes@[h]@ == noise_list()[h]);
    let mut si: usize = 0;
    while si < 8
        invariant
            si <= 8,
            suffixes@.len() == 8,
            forall|h: int| 0 <= h < 8 ==> #[trigger] suffixes@[h]@ == noise_list()[h],
            strip_noise(lowered_seq) == strip_noise_from(cur@, si as int),
        decreases 8 - si,
    {
        cur = strip_one_suffix(&cur, &suffixes[si]);
        si = si + 1;
    }
    assert(strip_noise(lowered_seq) == cur@);

    // repeatedly strip trailing digit clusters
    let ghost noise_stripped = cur@;
    loop
        invariant
            digit_strip_loop(noise_stripped) == digit_strip_loop(cur@),
        ensures
            digit_strip_loop(noise_stripped) == cur@,
        decreases cur@.len(),
    {
        let ghost cur0 = cur@;
        let t = trim_end_ws(&cur);
        let d = trim_end_digits(&t);
        if d.len() == t.len() {
            assert(digit_strip_loop(cur0) == cur0);
            break;
        }
        let w = if d.len() > 0 && sep_char(d[d.len() - 1]) {
            let shorter = sub_vec(&d, 0, d.len() - 1);
            assert(shorter@ =~= d@.drop_last());
            shorter
        } else {
            d
        };
        if w.len() == 0 {
            cur = w;
            assert(digit_strip_loop(cur0) == w@);
            assert(w@ =~= Seq::<char>::empty());
            assert(digit_strip_loop(cur@) == cur@);
            break;
        }
        cur = w;
        assert(digit_strip_loop(cur0) == digit_strip_loop(cur@));
    }

    // final trim
    let trimmed_end = trim_end_ws(&cur);
    let trimmed = trim_front_ws(&trimmed_end);
    let r = string_of(&trimmed);
    assert(r@ == spec_normalize(path@));
    r
}


// ---- idempotence of normalization ---------------------------------------

proof fn lemma_strip_end_ws_clean(s: Seq<char>)
    ensures
        strip_end_ws(s).len() == 0 || !is_space(strip_end_ws(s).last()),
    decreases s.len(),
{
    if s.len() > 0 && is_space(s.last()) {
        lemma_strip_end_ws_clean(s.drop_last());
    }
}

proof fn lemma_strip_end_digits_shrinks(s: Seq<char>)
    ensures
        strip_end_digits(s) == s || strip_end_digits(s).len() < s.len(),
    decreases s.len(),
{
    if s.len() > 0 && is_digit(s.last()) {
        lemma_strip_end_digits_shrinks(s.drop_last());
        lemma_strip_end_digits_len(s.drop_last());
    }
}

proof fn lemma_strip_front_ws_suffix(s: Seq<char>)
    ensures
        strip_front_ws(s).len() == 0
            || (s.len() > 0 && strip_front_ws(s).last() == s.last()),
        strip_front_ws(s).len() == 0 || !is_space(strip_front_ws(s)[0]),
    decreases s.len(),
{
    if s.len() > 0 && is_space(s[0]) {
        lemma_strip_front_ws_suffix(s.skip(1));
        if strip_front_ws(s).len() > 0 {
            assert(s.skip(1).last() == s.last());
        }
    }
}

/// After the digit-strip loop, the name (ignoring trailing whitespace)
/// does not end in a digit.
proof fn lemma_digit_strip_clean(s: Seq<char>)
    ensures
        ({
            let t = strip_end_ws(digit_strip_loop(s));
            strip_end_digits(t) == t
        }),
    decreases s.len(),
{
    let t = strip_end_ws(s);
    let d = strip_end_digits(t);
    if d.len() == t.len() {
        lemma_strip_end_digits_shrinks(t);
    } else {
        let w = if d.len() > 0 && is_sep(d.last()) {
            d.drop_last()
        } else {
            d
        };
        if w.len() == 0 {
        } else {
            lemma_strip_end_ws_len(s);
            lemma_strip_end_digits_len(t);
            lemma_digit_strip_clean(w);
        }
    }
}

/// Normalizing an already-normalized name changes nothing, provided case
/// folding and stem extraction leave it alone (it holds no separators or
/// dots and folds to itself) and it does not itself end in one of the
/// noise suffixes.
pub proof fn lemma_normalize_idempotent(x: Seq<char>)
    requires
        stem_of(spec_normalize(x)) == spec_normalize(x),
        lower_of(spec_normalize(x)) == spec_normalize(x),
        forall|i: int| 0 <= i < noise_list().len() ==>
            !ends_with(spec_normalize(x), #[trigger] noise_list()[i]),
    ensures
        spec_normalize(spec_normalize(x)) == spec_normalize(x),
{
    let r = spec_normalize(x);
    // one pass of noise suffixes is a no-op on r
    assert(!ends_with(r, noise_list()[0]));
    assert(!ends_with(r, noise_list()[1]));
    assert(!ends_with(r, noise_list()[2]));
    assert(!ends_with(r, noise_list()[3]));
    assert(!ends_with(r, noise_list()[4]));
    assert(!ends_with(r, noise_list()[5]));
    assert(!ends_with(r, noise_list()[6]));
    assert(!ends_with(r, noise_list()[7]));
    assert(strip_noise_from(r, 0) == strip_noise_from(r, 1));
    assert(strip_noise_from(r, 1) == strip_noise_from(r, 2));
    assert(strip_noise_from(r, 2) == strip_noise_from(r, 3));
    assert(strip_noise_from(r, 3) == strip_noise_from(r, 4));
    assert(strip_noise_from(r, 4) == strip_noise_from(r, 5));
    assert(strip_noise_from(r, 5) == strip_noise_from(r, 6));
    assert(strip_noise_from(r, 6) == strip_noise_from(r, 7));
    assert(strip_noise_from(r, 7) == strip_noise_from(r, 8));
    assert(strip_noise_from(r, 8) == r);
    assert(strip_noise(r) == r);

    // r carries no leading or trailing whitespace and no trailing digit
    let y = strip_noise(lower_of(stem_of(x)));
    let z = digit_strip_loop(y);
    let t = strip_end_ws(z);
    lemma_digit_strip_clean(y);
    lemma_strip_end_ws_clean(z);
    lemma_strip_front_ws_suffix(t);
    assert(r == strip_front_ws(t));
    assert(r.len() == 0 || !is_space(r.last()));
    assert(r.len() == 0 || !is_space(r[0]));
    assert(r.len() == 0 || !is_digit(r.last())) by {
        if r.len() > 0 && is_digit(r.last()) {
            assert(t.len() > 0 && t.last() == r.last());
            lemma_strip_end_digits_len(t.drop_last());
            assert(strip_end_digits(t) == strip_end_digits(t.drop_last()));
            assert(strip_end_digits(t).len() < t.len());
        }
    }

    // so the digit-strip loop and the final trim fix r
    assert(strip_end_ws(r) == r);
    assert(strip_end_digits(r) == r);
    assert(digit_strip_loop(r) == r);
    assert(strip_front_ws(r) == r);
    assert(spec_trim(r) == r);
    assert(spec_normalize(r) == spec_trim(digit_strip_loop(strip_noise(r))));
    assert(spec_normalize(r) == r);
}


// ---- a trailing copy number does not change the normalized name ---------

proof fn lemma_last_pos_none(s: Seq<char>, c: char)
    requires
        forall|i: int| 0 <= i < s.len() ==> s[i] != c,
    ensures
        last_pos(s, c) == -1,
    decreases s.len(),
{
    if s.len() > 0 {
        assert(s.last() != c);
        assert(forall|i: int| 0 <= i < s.drop_last().len() ==> s.drop_last()[i] != c);
        lemma_last_pos_none(s.drop_last(), c);
    }
}

proof fn lemma_last_pos_only_at(s: Seq<char>, c: char, p: int)
    requires
        0 <= p < s.len(),
        s[p] == c,
        forall|i: int| 0 <= i < s.len() && i != p ==> s[i] != c,
    ensures
        last_pos(s, c) == p,
    decreases s.len(),
{
    if s.last() == c {
        assert(p == s.len() - 1);
    } else {
        assert(p < s.len() - 1);
        assert(forall|i: int| 0 <= i < s.drop_last().len() && i != p ==>
            s.drop_last()[i] != c);
        assert(s.drop_last()[p] == c);
        lemma_last_pos_only_at(s.drop_last(), c, p);
    }
}

proof fn lemma_strip_digits_append(a: Seq<char>, ds: Seq<char>)
    requires
        a.len() > 0,
        !is_digit(a.last()),
        forall|i: int| 0 <= i < ds.len() ==> is_digit(#[trigger] ds[i]),
    ensures
        strip_end_digits(a + ds) == a,
    decreases ds.len(),
{
    if ds.len() == 0 {
        assert(a + ds =~= a);
    } else {
        assert((a + ds).last() == ds.last());
        assert((a + ds).drop_last() =~= a + ds.drop_last());
        assert(forall|i: int| 0 <= i < ds.drop_last().len() ==>
            is_digit(#[trigger] ds.drop_last()[i]));
        lemma_strip_digits_append(a, ds.drop_last());
    }
}

proof fn lemma_no_noise_after_digit(s: Seq<char>)
    requires
        s.len() > 0,
        is_digit(s.last()),
    ensures
        forall|i: int| 0 <= i < noise_list().len() ==>
            !ends_with(s, #[trigger] noise_list()[i]),
{
    reveal_strlit("_final");
    reveal_strlit("_old");
    reveal_strlit("_backup");
    reveal_strlit("_copy");
    reveal_strlit(" final");
    reveal_strlit(" old");
    reveal_strlit(" backup");
    reveal_strlit(" copy");
    assert forall|i: int| 0 <= i < noise_list().len() implies
        !ends_with(s, #[trigger] noise_list()[i]) by {
        let suf = noise_list()[i];
        assert(suf.len() > 0 && !is_digit(suf.last())) by {
            if i == 0 { assert(noise_list()[0].last() == 'l'); }
            if i == 1 { assert(noise_list()[1].last() == 'd'); }
            if i == 2 { assert(noise_list()[2].last() == 'p'); }
            if i == 3 { assert(noise_list()[3].last() == 'y'); }
            if i == 4 { assert(noise_list()[4].last() == 'l'); }
            if i == 5 { assert(noise_list()[5].last() == 'd'); }
            if i == 6 { assert(noise_list()[6].last() == 'p'); }
            if i == 7 { assert(noise_list()[7].last() == 'y'); }
        }
        if ends_with(s, suf) {
            assert(s.skip(s.len() - suf.len()).last() == s.last());
        }
    }
}

proof fn lemma_strip_noise_noop(s: Seq<char>)
    requires
        forall|i: int| 0 <= i < noise_list().len() ==>
            !ends_with(s, #[trigger] noise_list()[i]),
    ensures
        strip_noise(s) == s,
{
    assert(!ends_with(s, noise_list()[0]));
    assert(!ends_with(s, noise_list()[1]));
    assert(!ends_with(s, noise_list()[2]));
    assert(!ends_with(s, noise_list()[3]));
    assert(!ends_with(s, noise_list()[4]));
    assert(!ends_with(s, noise_list()[5]));
    assert(!ends_with(s, noise_list()[6]));
    assert(!ends_with(s, noise_list()[7]));
    assert(strip_noise_from(s, 0) == strip_noise_from(s, 1));
    assert(strip_noise_from(s, 1) == strip_noise_from(s, 2));
    assert(strip_noise_from(s, 2) == strip_noise_from(s, 3));
    assert(strip_noise_from(s, 3) == strip_noise_from(s, 4));
    assert(strip_noise_from(s, 4) == strip_noise_from(s, 5));
    assert(strip_noise_from(s, 5) == strip_noise_from(s, 6));
    assert(strip_noise_from(s, 6) == strip_noise_from(s, 7));
    assert(strip_noise_from(s, 7) == strip_noise_from(s, 8));
    assert(strip_noise_from(s, 8) == s);
}

/// Appending a space and a copy number before the extension does not
/// change the normalized name: `"X N.flp"` and `"X.flp"` normalize alike.
/// The name must be a plain one — no path separators or dots, nonempty,
/// folding to itself under the appended tail — and its folded form must
/// not end in a digit or a noise suffix.
pub proof fn lemma_copy_number_ignored(x: Seq<char>, digits: Seq<char>)
    requires
        x.len() > 0,
        forall|i: int| 0 <= i < x.len() ==> x[i] != '/' && x[i] != '.',
        digits.len() > 0,
        forall|i: int| 0 <= i < digits.len() ==> is_digit(#[trigger] digits[i]),
        lower_of(x + seq![' '] + digits) == lower_of(x) + seq![' '] + digits,
        ({
            let l = lower_of(x);
            l.len() == 0 || !is_digit(l.last())
        }),
        forall|i: int| 0 <= i < noise_list().len() ==>
            !ends_with(lower_of(x), #[trigger] noise_list()[i]),
    ensures
        spec_normalize(x + seq![' '] + digits + ".flp"@) == spec_normalize(x + ".flp"@),
{
    reveal_strlit(".flp");
    let l = lower_of(x);
    let ext = ".flp"@;
    assert(ext.len() == 4);
    assert(ext[0] == '.' && ext[1] == 'f' && ext[2] == 'l' && ext[3] == 'p');

    // the stem of "X.flp" is X
    let full1 = x + ext;
    assert(forall|i: int| 0 <= i < full1.len() ==> full1[i] != '/') by {
        assert(forall|i: int| 0 <= i < x.len() ==> full1[i] == x[i]);
        assert(forall|i: int| x.len() <= i < full1.len() ==> full1[i] == ext[i - x.len()]);
    }
    lemma_last_pos_none(full1, '/');
    assert(full1.skip(0) =~= full1);
    lemma_last_pos_only_at(full1, '.', x.len() as int);
    assert(full1.take(x.len() as int) =~= x);
    assert(stem_of(full1) == x);

    // the stem of "X N.flp" is "X N"
    let mid = x + seq![' '] + digits;
    let full2 = mid + ext;
    assert(forall|i: int| 0 <= i < full2.len() ==> full2[i] != '/') by {
        assert(forall|i: int| 0 <= i < mid.len() ==> full2[i] == mid[i]);
        assert(forall|i: int| mid.len() <= i < full2.len() ==> full2[i] == ext[i - mid.len()]);
        assert(forall|i: int| 0 <= i < x.len() ==> mid[i] == x[i]);
        assert(mid[x.len() as int] == ' ');
        assert(forall|i: int| x.len() + 1 <= i < mid.len() ==> mid[i] == digits[i - x.len() - 1]);
    }
    lemma_last_pos_none(full2, '/');
    assert(full2.skip(0) =~= full2);
    assert(full2[mid.len() as int] == '.');
    assert(forall|i: int| 0 <= i < full2.len() && i != mid.len() ==> full2[i] != '.') by {
        assert(forall|i: int| 0 <= i < mid.len() ==> full2[i] == mid[i]);
        assert(forall|i: int| mid.len() <= i < full2.len() ==> full2[i] == ext[i - mid.len()]);
        assert(forall|i: int| 0 <= i < x.len() ==> mid[i] == x[i]);
        assert(mid[x.len() as int] == ' ');
        assert(forall|i: int| x.len() + 1 <= i < mid.len() ==> mid[i] == digits[i - x.len() - 1]);
    }
    lemma_last_pos_only_at(full2, '.', mid.len() as int);
    assert(full2.take(mid.len() as int) =~= mid);
    assert(stem_of(full2) == mid);

    // folding appends the tail unchanged
    let lm = l + seq![' '] + digits;
    assert(lower_of(mid) == lm);

    // noise stripping is a no-op on both sides
    assert(lm.last() == digits.last());
    lemma_no_noise_after_digit(lm);
    lemma_strip_noise_noop(lm);
    lemma_strip_noise_noop(l);

    // the digit loop peels the copy number and the one separator
    assert(!is_space(lm.last()));
    assert(strip_end_ws(lm) == lm);
    let lsp = l + seq![' '];
    assert(lm =~= lsp + digits);
    assert(lsp.last() == ' ');
    assert(!is_digit(lsp.last()));
    lemma_strip_digits_append(lsp, digits);
    assert(strip_end_digits(lm) == lsp);
    assert(lsp.len() < lm.len());
    assert(is_sep(lsp.last()));
    assert(lsp.drop_last() =~= l);
    if l.len() == 0 {
        assert(digit_strip_loop(lm) == l);
        assert(strip_end_ws(l) == l);
        assert(strip_end_digits(l) == l);
        assert(digit_strip_loop(l) == l);
    } else {
        assert(digit_strip_loop(lm) == digit_strip_loop(l));
    }
    assert(spec_normalize(full2) == spec_trim(digit_strip_loop(lm)));
    assert(spec_normalize(full1) == spec_trim(digit_strip_loop(l)));
}

} // verus!
