//! Pairwise similarity scoring.
//!
//! The name component is the Jaccard coefficient over sets of padded
//! character trigrams (each word is framed by two leading and one usable
//! trailing space, the classic text-search construction); very short names
//! must match exactly.  Tempo and modification-time proximity add or
//! subtract fixed bonuses.  Everything is computed in thousandths, so the
//! score is an exact integer in `0 ..= 1000`.

use vstd::prelude::*;

verus! {

/// Characters that belong to a word: ASCII letters, digits, underscore,
/// and everything beyond ASCII.  Runs of other characters separate words.
pub open spec fn is_word_char(c: char) -> bool {
    ('a' <= c && c <= 'z') || ('A' <= c && c <= 'Z') || ('0' <= c && c <= '9')
        || c == '_' || (c as u32) > 127
}

fn word_char(c: char) -> (r: bool)
    ensures
        r == is_word_char(c),
{
    ('a' <= c && c <= 'z') || ('A' <= c && c <= 'Z') || ('0' <= c && c <= '9')
        || c == '_' || (c as u32) > 127
}

/// Whether some word character occurs at or after `i`.
pub open spec fn has_word_from(s: Seq<char>, i: int) -> bool
    decreases s.len() - i,
{
    if i < 0 || i >= s.len() {
        false
    } else if is_word_char(s[i]) {
        true
    } else {
        has_word_from(s, i + 1)
    }
}

/// The rest of the padded form from position `i` on: each word framed by
/// two spaces on its left, and two closing spaces at the very end.
pub open spec fn padded_from(s: Seq<char>, i: int) -> Seq<char>
    decreases s.len() - i, 1int,
{
    if i < 0 || i >= s.len() {
        seq![' ', ' ']
    } else if !is_word_char(s[i]) {
        padded_from(s, i + 1)
    } else {
        seq![' ', ' '] + word_tail(s, i)
    }
}

/// The padded form from inside a word at position `i`.
pub open spec fn word_tail(s: Seq<char>, i: int) -> Seq<char>
    decreases s.len() - i, 0int,
{
    if i < 0 || i >= s.len() {
        seq![' ', ' ']
    } else if is_word_char(s[i]) {
        seq![s[i]] + word_tail(s, i + 1)
    } else {
        padded_from(s, i + 1)
    }
}

/// The whitespace-padded form of `s`: empty when `s` holds no word at all,
/// otherwise every word framed in double spaces.
pub open spec fn spec_padded(s: Seq<char>) -> Seq<char> {
    if has_word_from(s, 0) {
        padded_from(s, 0)
    } else {
        Seq::empty()
    }
}

/// The set of trigrams whose window starts before `k` in `p`, skipping
/// windows that end in two spaces.
pub open spec fn tri_upto(p: Seq<char>, k: int) -> Set<(char, char, char)>
    decreases k,
{
    if k <= 0 || p.len() < 3 {
        Set::empty()
    } else {
        let rest = tri_upto(p, k - 1);
        if k - 1 + 3 > p.len() {
            rest
        } else if p[k] == ' ' && p[k + 1] == ' ' {
            rest
        } else {
            rest.insert((p[k - 1], p[k], p[k + 1]))
        }
    }
}

/// The trigram set of a name.
pub open spec fn tri_set(s: Seq<char>) -> Set<(char, char, char)> {
    tri_upto(spec_padded(s), spec_padded(s).len() - 2)
}

pub proof fn lemma_tri_upto_finite(p: Seq<char>, k: int)
    ensures
        tri_upto(p, k).finite(),
    decreases k,
{
    if k <= 0 || p.len() < 3 {
    } else {
        lemma_tri_upto_finite(p, k - 1);
    }
}

/// The trigram component in thousandths: exact match for short names,
/// otherwise the Jaccard coefficient of the trigram sets (an empty union
/// counts as full similarity).
pub open spec fn spec_trigram_millis(a: Seq<char>, b: Seq<char>) -> int {
    if a.len() < 4 || b.len() < 4 {
        if a == b {
            1000
        } else {
            0
        }
    } else {
        let i = tri_set(a).intersect(tri_set(b)).len() as int;
        let u = tri_set(a).union(tri_set(b)).len() as int;
        if u == 0 {
            1000
        } else {
            1000 * i / u
        }
    }
}

/// Tempo proximity bonus, tempos in milli-BPM: within one BPM +0.15,
/// more than five BPM apart -0.10, otherwise no signal.
pub open spec fn spec_bpm_signal(a: Option<u32>, b: Option<u32>) -> int {
    match (a, b) {
        (Some(x), Some(y)) => {
            let d = if x >= y { x - y } else { y - x };
            if d <= 1000 {
                150
            } else if d > 5000 {
                -100
            } else {
                0
            }
        },
        _ => 0,
    }
}

/// Modification-time proximity bonus: within three days +0.10, within
/// fourteen days +0.05, otherwise nothing.
pub open spec fn spec_temporal_signal(a: int, b: int) -> int {
    let d = if a >= b { a - b } else { b - a };
    if d <= 259200 {
        100
    } else if d <= 1209600 {
        50
    } else {
        0
    }
}

/// Total pairwise confidence in thousandths, clamped into `0 ..= 1000`.
pub open spec fn spec_confidence(
    a: Seq<char>,
    b: Seq<char>,
    bpm_a: Option<u32>,
    bpm_b: Option<u32>,
    mtime_a: int,
    mtime_b: int,
) -> int {
    let total = spec_trigram_millis(a, b) + spec_bpm_signal(bpm_a, bpm_b)
        + spec_temporal_signal(mtime_a, mtime_b);
    if total < 0 {
        0
    } else if total > 1000 {
        1000
    } else {
        total
    }
}

pub fn bpm_signal(a: Option<u32>, b: Option<u32>) -> (r: i32)
    ensures
        r as int == spec_bpm_signal(a, b),
{
    match (a, b) {
        (Some(x), Some(y)) => {
            let d = if x >= y { x - y } else { y - x };
            if d <= 1000 {
                150
            } else if d > 5000 {
                -100
            } else {
                0
            }
        },
        _ => 0,
    }
}

pub fn temporal_signal(a: i64, b: i64) -> (r: i32)
    ensures
        r as int == spec_temporal_signal(a as int, b as int),
{
    let d: i128 = if a >= b {
        a as i128 - b as i128
    } else {
        b as i128 - a as i128
    };
    if d <= 259200 {
        100
    } else if d <= 1209600 {
        50
    } else {
        0
    }
}

proof fn lemma_no_word_prefix(s: Seq<char>, i: int)
    requires
        0 <= i <= s.len(),
        forall|k: int| 0 <= k < i ==> !is_word_char(#[trigger] s[k]),
    ensures
        has_word_from(s, 0) == has_word_from(s, i),
    decreases i,
{
    if i > 0 {
        lemma_no_word_prefix(s, i - 1);
        assert(has_word_from(s, i - 1) == has_word_from(s, i));
    }
}

/// Builds the padded form of `v`.
fn build_padded(v: &Vec<char>) -> (p: Vec<char>)
    ensures
        p@ == spec_padded(v@),
{
    let ghost s = v@;
    let n = v.len();
    // find out whether any word character occurs at all
    let mut i: usize = 0;
    while i < n && !word_char(v[i])
        invariant
            i <= n,
            n == s.len(),
            v@ == s,
            forall|k: int| 0 <= k < i ==> !is_word_char(#[trigger] s[k]),
        decreases n - i,
    {
        i = i + 1;
    }
    proof {
        lemma_no_word_prefix(s, i as int);
    }
    if i == n {
        assert(!has_word_from(s, 0));
        let p: Vec<char> = Vec::new();
        assert(p@ =~= spec_padded(s));
        return p;
    }
    assert(has_word_from(s, 0));

    let mut out: Vec<char> = Vec::new();
    let mut i: usize = 0;
    while i < n
        invariant
            i <= n,
            n == s.len(),
            v@ == s,
            spec_padded(s) == out@ + padded_from(s, i as int),
        decreases n - i,
    {
        if !word_char(v[i]) {
            i = i + 1;
        } else {
            let ghost out0 = out@;
            out.push(' ');
            out.push(' ');
            assert(out@ =~= out0 + seq![' ', ' ']);
            assert(padded_from(s, i as int) == seq![' ', ' '] + word_tail(s, i as int));
            assert(spec_padded(s) =~= out@ + word_tail(s, i as int));
            // copy the word run
            let ghost ib = i as int;
            while i < n && word_char(v[i])
                invariant
                    ib <= i <= n,
                    n == s.len(),
                    v@ == s,
                    i as int == ib ==> i < n && is_word_char(s[ib]),
                    spec_padded(s) == out@ + word_tail(s, i as int),
                decreases n - i,
            {
                let ghost out1 = out@;
                out.push(v[i]);
                assert(out@ =~= out1 + seq![s[i as int]]);
                assert(word_tail(s, i as int)
                    == seq![s[i as int]] + word_tail(s, i + 1));
                assert(spec_padded(s) =~= out@ + word_tail(s, i + 1));
                i = i + 1;
            }
            if i < n {
                // a separator ends the word
                assert(word_tail(s, i as int) == padded_from(s, i + 1));
                assert(padded_from(s, i as int) == padded_from(s, i + 1));
            } else {
                assert(word_tail(s, i as int) =~= seq![' ', ' ']);
                assert(padded_from(s, i as int) =~= seq![' ', ' ']);
            }
        }
    }
    out.push(' ');
    out.push(' ');
    assert(padded_from(s, n as int) =~= seq![' ', ' ']);
    assert(out@ =~= spec_padded(s));
    out
}

proof fn lemma_take_to_set_step<T>(s: Seq<T>, k: int)
    requires
        0 <= k < s.len(),
    ensures
        s.take(k + 1).to_set() == s.take(k).to_set().insert(s[k]),
{
    let a = s.take(k);
    let b = s.take(k + 1);
    assert forall|x: T| #[trigger] b.to_set().contains(x) implies
        a.to_set().insert(s[k]).contains(x) by {
        let idx = choose|idx: int| 0 <= idx < b.len() && b[idx] == x;
        if idx < k {
            assert(a[idx] == x);
            assert(a.contains(x));
        }
    }
    assert forall|x: T| a.to_set().insert(s[k]).contains(x) implies
        #[trigger] b.to_set().contains(x) by {
        if a.to_set().contains(x) {
            let idx = choose|idx: int| 0 <= idx < a.len() && a[idx] == x;
            assert(b[idx] == x);
            assert(b.contains(x));
        } else {
            assert(b[k] == x);
            assert(b.contains(x));
        }
    }
    assert(b.to_set() =~= a.to_set().insert(s[k]));
}

proof fn lemma_push_to_set<T>(s: Seq<T>, t: T)
    ensures
        s.push(t).to_set() == s.to_set().insert(t),
        s.no_duplicates() && !s.contains(t) ==> s.push(t).no_duplicates(),
{
    let b = s.push(t);
    assert forall|x: T| #[trigger] b.to_set().contains(x) implies
        s.to_set().insert(t).contains(x) by {
        let idx = choose|idx: int| 0 <= idx < b.len() && b[idx] == x;
        if idx < s.len() {
            assert(s[idx] == x);
            assert(s.contains(x));
        }
    }
    assert forall|x: T| s.to_set().insert(t).contains(x) implies
        #[trigger] b.to_set().contains(x) by {
        if s.to_set().contains(x) {
            let idx = choose|idx: int| 0 <= idx < s.len() && s[idx] == x;
            assert(b[idx] == x);
            assert(b.contains(x));
        } else {
            assert(b[s.len() as int] == x);
            assert(b.contains(x));
        }
    }
    assert(b.to_set() =~= s.to_set().insert(t));
    if s.no_duplicates() && !s.contains(t) {
        assert forall|i: int, j: int| 0 <= i < j < b.len() implies b[i] != b[j] by {
            if j == s.len() {
                assert(b[j] == t);
                assert(s[i] == b[i]);
                assert(!s.contains(t));
            }
        }
    }
}

proof fn lemma_distinct_prefix_new<T>(s: Seq<T>, k: int)
    requires
        s.no_duplicates(),
        0 <= k < s.len(),
    ensures
        !s.take(k).to_set().contains(s[k]),
{
    let a = s.take(k);
    assert(!a.contains(s[k])) by {
        if a.contains(s[k]) {
            let idx = choose|idx: int| 0 <= idx < a.len() && a[idx] == s[k];
            assert(s[idx] == s[k]);
        }
    }
}

/// Collects the distinct trigrams of the padded form `p`.
fn collect_trigrams(p: &Vec<char>) -> (tv: Vec<(char, char, char)>)
    ensures
        tv@.no_duplicates(),
        tv@.to_set() == tri_upto(p@, p@.len() - 2),
{
    let n = p.len();
    let mut tv: Vec<(char, char, char)> = Vec::new();
    if n < 3 {
        assert(tv@.to_set() =~= tri_upto(p@, p@.len() - 2));
        return tv;
    }
    let mut k: usize = 0;
    while k + 2 < n
        invariant
            n == p@.len(),
            n >= 3,
            k + 2 <= n,
            tv@.no_duplicates(),
            tv@.to_set() == tri_upto(p@, k as int),
        decreases n - k,
    {
        let t0 = p[k];
        let t1 = p[k + 1];
        let t2 = p[k + 2];
        let ghost before = tv@;
        if !(t1 == ' ' && t2 == ' ') {
            // skip if already present
            let m = tv.len();
            let mut j: usize = 0;
            while j < m && !(tv[j].0 == t0 && tv[j].1 == t1 && tv[j].2 == t2)
                invariant
                    m == tv@.len(),
                    j <= m,
                    forall|h: int| 0 <= h < j ==> tv@[h] != (t0, t1, t2),
                decreases m - j,
            {
                j = j + 1;
            }
            let seen = j < m;
            if !seen {
                assert(!before.contains((t0, t1, t2)));
                proof {
                    lemma_push_to_set(before, (t0, t1, t2));
                }
                tv.push((t0, t1, t2));
            } else {
                assert(tv@[j as int] == (t0, t1, t2));
                assert(tv@.contains((t0, t1, t2)));
            }
        }
        proof {
            assert(tri_upto(p@, k + 1) == if k as int + 3 > p@.len() {
                tri_upto(p@, k as int)
            } else if p@[k + 1] == ' ' && p@[k + 2] == ' ' {
                tri_upto(p@, k as int)
            } else {
                tri_upto(p@, k as int).insert((p@[k as int], p@[k + 1], p@[k + 2]))
            });
            assert(tv@.to_set() =~= tri_upto(p@, k + 1));
        }
        k = k + 1;
    }
    assert(k + 2 == n);
    assert(tv@.to_set() == tri_upto(p@, p@.len() - 2));
    tv
}

fn tri_contains(tv: &Vec<(char, char, char)>, t: (char, char, char)) -> (r: bool)
    ensures
        r == tv@.contains(t),
{
    let m = tv.len();
    let mut j: usize = 0;
    while j < m && !(tv[j].0 == t.0 && tv[j].1 == t.1 && tv[j].2 == t.2)
        invariant
            m == tv@.len(),
            j <= m,
            forall|h: int| 0 <= h < j ==> tv@[h] != t,
        decreases m - j,
    {
        j = j + 1;
    }
    if j < m {
        assert(tv@[j as int] == t);
        assert(tv@.contains(t));
        true
    } else {
        false
    }
}

/// The trigram component for names that are both at least four characters
/// long: Jaccard coefficient of the trigram sets, in thousandths.
fn jaccard_millis(a: &Vec<char>, b: &Vec<char>) -> (r: u32)
    ensures
        ({
            let i = tri_set(a@).intersect(tri_set(b@)).len() as int;
            let u = tri_set(a@).union(tri_set(b@)).len() as int;
            r as int == if u == 0 { 1000int } else { 1000 * i / u }
        }),
        r <= 1000,
{
    let pa = build_padded(a);
    let pb = build_padded(b);
    let ta = collect_trigrams(&pa);
    let tb = collect_trigrams(&pb);
    let ghost sa = tri_set(a@);
    let ghost sb = tri_set(b@);
    proof {
        lemma_tri_upto_finite(pa@, pa@.len() - 2);
        lemma_tri_upto_finite(pb@, pb@.len() - 2);
        ta@.unique_seq_to_set();
        tb@.unique_seq_to_set();
    }

    // intersection count
    let na = ta.len();
    let nb = tb.len();
    let mut inter: usize = 0;
    let ghost mut iset = Set::<(char, char, char)>::empty();
    let mut k: usize = 0;
    while k < na
        invariant
            k <= na,
            na == ta@.len(),
            ta@.no_duplicates(),
            ta@.to_set() == sa,
            tb@.to_set() == sb,
            iset == ta@.take(k as int).to_set().intersect(sb),
            iset.finite(),
            inter == iset.len(),
            inter <= k,
        decreases na - k,
    {
        let t = ta[k];
        let is_in = tri_contains(&tb, t);
        proof {
            lemma_take_to_set_step(ta@, k as int);
            lemma_distinct_prefix_new(ta@, k as int);
        }
        if is_in {
            inter = inter + 1;
            proof {
                assert(sb.contains(t));
                let ni = iset.insert(t);
                assert(ni =~= ta@.take(k + 1).to_set().intersect(sb));
                assert(!iset.contains(t));
                assert(ni.len() == iset.len() + 1);
                iset = ni;
            }
        } else {
            proof {
                assert(!tb@.contains(t));
                assert(!sb.contains(t)) by {
                    if sb.contains(t) {
                        assert(tb@.to_set().contains(t));
                    }
                }
                assert(iset =~= ta@.take(k + 1).to_set().intersect(sb));
            }
        }
        k = k + 1;
    }
    proof {
        assert(ta@.take(na as int) =~= ta@);
        assert(iset =~= sa.intersect(sb));
    }

    // union count: everything of `a`, plus what occurs only in `b`
    let mut extra: usize = 0;
    let ghost mut uset = sa;
    proof {
        assert(tb@.take(0) =~= Seq::<(char, char, char)>::empty());
        assert(tb@.take(0).to_set() =~= Set::<(char, char, char)>::empty());
        assert(uset =~= sa.union(tb@.take(0).to_set()));
    }
    let mut k: usize = 0;
    while k < nb
        invariant
            k <= nb,
            na == ta@.len(),
            nb == tb@.len(),
            tb@.no_duplicates(),
            ta@.to_set() == sa,
            tb@.to_set() == sb,
            sa.finite(),
            sb.finite(),
            sa.len() == na,
            uset == sa.union(tb@.take(k as int).to_set()),
            uset.finite(),
            extra <= k,
            uset.len() == na + extra,
        decreases nb - k,
    {
        let t = tb[k];
        let is_in = tri_contains(&ta, t);
        proof {
            lemma_take_to_set_step(tb@, k as int);
            lemma_distinct_prefix_new(tb@, k as int);
        }
        if !is_in {
            proof {
                assert(!ta@.contains(t));
                assert(!sa.contains(t)) by {
                    if sa.contains(t) {
                        assert(ta@.to_set().contains(t));
                    }
                }
                assert(!uset.contains(t));
                let nu = uset.insert(t);
                assert(nu =~= sa.union(tb@.take(k + 1).to_set()));
                assert(nu.len() == uset.len() + 1);
                uset = nu;
            }
            extra = extra + 1;
        } else {
            proof {
                assert(ta@.contains(t));
                assert(sa.contains(t)) by {
                    assert(ta@.to_set().contains(t));
                }
                assert(uset =~= sa.union(tb@.take(k + 1).to_set()));
            }
        }
        k = k + 1;
    }
    proof {
        assert(tb@.take(nb as int) =~= tb@);
        assert(uset =~= sa.union(sb));
    }

    let u128_union: u128 = na as u128 + extra as u128;
    if u128_union == 0 {
        1000
    } else {
        proof {
            assert(iset.len() <= uset.len()) by {
                vstd::set_lib::lemma_len_subset(iset, uset);
            }
            assert(1000 * (iset.len() as int) / (uset.len() as int) <= 1000) by (nonlinear_arith)
                requires
                    iset.len() <= uset.len(),
                    uset.len() > 0,
            ;
            assert(1000 * (iset.len() as int) / (uset.len() as int) >= 0) by (nonlinear_arith)
                requires
                    uset.len() > 0,
            ;
        }
        let q: u128 = (1000u128 * (inter as u128)) / u128_union;
        proof {
            assert(q == 1000 * (iset.len() as int) / (uset.len() as int));
        }
        q as u32
    }
}

/// The trigram component of the confidence, in thousandths.
pub fn trigram_millis(norm_a: &str, norm_b: &str) -> (r: u32)
    ensures
        r as int == spec_trigram_millis(norm_a@, norm_b@),
        r <= 1000,
{
    let va = crate::text::chars_of(norm_a);
    let vb = crate::text::chars_of(norm_b);
    if va.len() < 4 || vb.len() < 4 {
        if crate::text::chars_eq(&va, &vb) {
            1000
        } else {
            0
        }
    } else {
        jaccard_millis(&va, &vb)
    }
}

/// Total pairwise confidence in thousandths.
pub fn compute_confidence(
    norm_a: &str,
    norm_b: &str,
    bpm_a: Option<u32>,
    bpm_b: Option<u32>,
    mtime_a: i64,
    mtime_b: i64,
) -> (c: u32)
    ensures
        c as int == spec_confidence(norm_a@, norm_b@, bpm_a, bpm_b, mtime_a as int, mtime_b as int),
        c <= 1000,
{
    let tri = trigram_millis(norm_a, norm_b);
    let total: i64 = tri as i64 + bpm_signal(bpm_a, bpm_b) as i64
        + temporal_signal(mtime_a, mtime_b) as i64;
    if total < 0 {
        0
    } else if total > 1000 {
        1000
    } else {
        total as u32
    }
}

/// The confidence is symmetric in its two files.
pub proof fn lemma_confidence_symmetric(
    a: Seq<char>,
    b: Seq<char>,
    bpm_a: Option<u32>,
    bpm_b: Option<u32>,
    mtime_a: int,
    mtime_b: int,
)
    ensures
        spec_confidence(a, b, bpm_a, bpm_b, mtime_a, mtime_b)
            == spec_confidence(b, a, bpm_b, bpm_a, mtime_b, mtime_a),
{
    assert(tri_set(a).intersect(tri_set(b)) =~= tri_set(b).intersect(tri_set(a)));
    assert(tri_set(a).union(tri_set(b)) =~= tri_set(b).union(tri_set(a)));
}

/// The confidence always lies between zero and one (in thousandths).
pub proof fn lemma_confidence_clamped(
    a: Seq<char>,
    b: Seq<char>,
    bpm_a: Option<u32>,
    bpm_b: Option<u32>,
    mtime_a: int,
    mtime_b: int,
)
    ensures
        0 <= spec_confidence(a, b, bpm_a, bpm_b, mtime_a, mtime_b) <= 1000,
{
}

} // verus!
