//! Character-level helpers shared by the parsers: whitespace trimming as
//! `str::trim` does it, searching, and building strings from characters.
use vstd::prelude::*;

verus! {

/// The Unicode `White_Space` property, which `char::is_whitespace` tests.
pub open spec fn is_white_space(c: char) -> bool {
    ||| ('\u{9}' <= c && c <= '\u{d}')
    ||| c == ' '
    ||| c == '\u{85}'
    ||| c == '\u{a0}'
    ||| c == '\u{1680}'
    ||| ('\u{2000}' <= c && c <= '\u{200a}')
    ||| c == '\u{2028}'
    ||| c == '\u{2029}'
    ||| c == '\u{202f}'
    ||| c == '\u{205f}'
    ||| c == '\u{3000}'
}

/// `s` without its leading whitespace.
pub open spec fn trim_start_ws(s: Seq<char>) -> Seq<char>
    decreases s.len(),
{
    if s.len() > 0 && is_white_space(s[0]) {
        trim_start_ws(s.drop_first())
    } else {
        s
    }
}

/// `s` without its trailing whitespace.
pub open spec fn trim_end_ws(s: Seq<char>) -> Seq<char>
    decreases s.len(),
{
    if s.len() > 0 && is_white_space(s.last()) {
        trim_end_ws(s.drop_last())
    } else {
        s
    }
}

/// `s` without leading and trailing whitespace, as `str::trim` gives it.
pub open spec fn trim_ws(s: Seq<char>) -> Seq<char> {
    trim_end_ws(trim_start_ws(s))
}

/// What `trim_ws` keeps: the run of `s` between its leading and trailing
/// whitespace, which neither starts nor ends with whitespace.
pub proof fn lemma_trim_ws(s: Seq<char>)
    ensures
        exists|lo: int, hi: int|
            #![trigger s.subrange(lo, hi)]
            {
                &&& 0 <= lo <= hi <= s.len()
                &&& trim_ws(s) == s.subrange(lo, hi)
                &&& forall|k: int| 0 <= k < lo ==> is_white_space(#[trigger] s[k])
                &&& forall|k: int| hi <= k < s.len() ==> is_white_space(#[trigger] s[k])
                &&& lo < hi ==> !is_white_space(s[lo]) && !is_white_space(s[hi - 1])
            },
{
    let lo = lemma_trim_start_ws(s);
    let t = trim_start_ws(s);
    let n = lemma_trim_end_ws(t);
    let hi = lo + n;
    assert(trim_ws(s) == t.subrange(0, n));
    assert(t.subrange(0, n) == s.subrange(lo, hi));
    assert forall|k: int| hi <= k < s.len() implies is_white_space(#[trigger] s[k]) by {
        assert(t[k - lo] == s[k]);
    }
    if lo < hi {
        assert(t[0] == s[lo]);
        assert(t[n - 1] == s[hi - 1]);
    }
}

proof fn lemma_trim_start_ws(s: Seq<char>) -> (lo: int)
    ensures
        0 <= lo <= s.len(),
        trim_start_ws(s) == s.skip(lo),
        forall|k: int| 0 <= k < lo ==> is_white_space(#[trigger] s[k]),
        lo < s.len() ==> !is_white_space(s[lo]),
    decreases s.len(),
{
    if s.len() > 0 && is_white_space(s[0]) {
        let lo = lemma_trim_start_ws(s.drop_first());
        assert(s.drop_first().skip(lo) == s.skip(lo + 1));
        assert forall|k: int| 0 <= k < lo + 1 implies is_white_space(#[trigger] s[k]) by {
            if k > 0 {
                assert(s.drop_first()[k - 1] == s[k]);
            }
        }
        if lo + 1 < s.len() {
            assert(s.drop_first()[lo] == s[lo + 1]);
        }
        lo + 1
    } else {
        assert(s.skip(0) == s);
        0
    }
}

proof fn lemma_trim_end_ws(s: Seq<char>) -> (n: int)
    ensures
        0 <= n <= s.len(),
        trim_end_ws(s) == s.subrange(0, n),
        forall|k: int| n <= k < s.len() ==> is_white_space(#[trigger] s[k]),
        n > 0 ==> !is_white_space(s[n - 1]),
    decreases s.len(),
{
    if s.len() > 0 && is_white_space(s.last()) {
        let n = lemma_trim_end_ws(s.drop_last());
        assert(s.drop_last().subrange(0, n) == s.subrange(0, n));
        assert forall|k: int| n <= k < s.len() implies is_white_space(#[trigger] s[k]) by {
            if k < s.len() - 1 {
                assert(s.drop_last()[k] == s[k]);
            }
        }
        if n > 0 {
            assert(s.drop_last()[n - 1] == s[n - 1]);
        }
        n
    } else {
        assert(s.subrange(0, s.len() as int) == s);
        s.len() as int
    }
}

/// `s` without any leading copies of `c` (`trim_start_matches` with a char).
pub open spec fn trim_start_char(s: Seq<char>, c: char) -> Seq<char>
    decreases s.len(),
{
    if s.len() > 0 && s[0] == c {
        trim_start_char(s.drop_first(), c)
    } else {
        s
    }
}

/// `s` without any trailing copies of `c` (`trim_end_matches` with a char).
pub open spec fn trim_end_char(s: Seq<char>, c: char) -> Seq<char>
    decreases s.len(),
{
    if s.len() > 0 && s.last() == c {
        trim_end_char(s.drop_last(), c)
    } else {
        s
    }
}

/// The first position at or after `i` where `s` holds `c`.
pub open spec fn find_char_from(s: Seq<char>, c: char, i: int) -> Option<int>
    decreases s.len() - i,
{
    if i < 0 || i >= s.len() {
        None
    } else if s[i] == c {
        Some(i)
    } else {
        find_char_from(s, c, i + 1)
    }
}

pub(crate) proof fn lemma_find_char_from_bounds(s: Seq<char>, c: char, i: int)
    ensures
        find_char_from(s, c, i) matches Some(k) ==> i <= k < s.len() && s[k] == c,
    decreases s.len() - i,
{
    if 0 <= i < s.len() && s[i] != c {
        lemma_find_char_from_bounds(s, c, i + 1);
    }
}

/// What `find_char_from` finds: the first position at or after `i` that
/// holds `c`, and none when no position from `i` on holds it.
pub(crate) proof fn lemma_find_char_from(s: Seq<char>, c: char, i: int)
    requires
        0 <= i,
    ensures
        find_char_from(s, c, i) matches Some(k) ==> i <= k < s.len() && s[k] == c && forall|j: int|
            i <= j < k ==> s[j] != c,
        find_char_from(s, c, i) is None ==> forall|j: int| i <= j < s.len() ==> s[j] != c,
    decreases s.len() - i,
{
    if i < s.len() && s[i] != c {
        lemma_find_char_from(s, c, i + 1);
    }
}

/// The first position at or after `i` where `s` holds `a` or `b`.
pub open spec fn find_either_from(s: Seq<char>, a: char, b: char, i: int) -> Option<int>
    decreases s.len() - i,
{
    if i < 0 || i >= s.len() {
        None
    } else if s[i] == a || s[i] == b {
        Some(i)
    } else {
        find_either_from(s, a, b, i + 1)
    }
}

/// What `find_either_from` finds: the first position at or after `i` that
/// holds `a` or `b`, and none when no position from `i` on holds either.
pub(crate) proof fn lemma_find_either_from(s: Seq<char>, a: char, b: char, i: int)
    requires
        0 <= i <= s.len(),
    ensures
        find_either_from(s, a, b, i) matches Some(k) ==> i <= k < s.len() && (s[k] == a || s[k]
            == b) && forall|j: int| i <= j < k ==> s[j] != a && s[j] != b,
        find_either_from(s, a, b, i) is None ==> forall|j: int| i <= j < s.len() ==> s[j] != a
            && s[j] != b,
    decreases s.len() - i,
{
    if i < s.len() && s[i] != a && s[i] != b {
        lemma_find_either_from(s, a, b, i + 1);
    }
}

/// What `trim_start_char` keeps: a suffix of `s` that does not start with
/// `c`, and only copies of `c` are cut.
pub(crate) proof fn lemma_trim_start_char(s: Seq<char>, c: char)
    ensures
        trim_start_char(s, c) == s.skip(s.len() - trim_start_char(s, c).len()),
        trim_start_char(s, c).len() <= s.len(),
        forall|k: int| 0 <= k < s.len() - trim_start_char(s, c).len() ==> s[k] == c,
        trim_start_char(s, c).len() == 0 || trim_start_char(s, c)[0] != c,
    decreases s.len(),
{
    if s.len() > 0 && s[0] == c {
        lemma_trim_start_char(s.drop_first(), c);
        let t = trim_start_char(s.drop_first(), c);
        assert(s.drop_first().skip(s.drop_first().len() - t.len()) == s.skip(s.len() - t.len()));
        assert forall|k: int| 0 <= k < s.len() - t.len() implies s[k] == c by {
            if k > 0 {
                assert(s.drop_first()[k - 1] == s[k]);
            }
        }
    } else {
        assert(s.skip(0) == s);
    }
}

/// What `trim_end_char` keeps: a prefix of `s` that does not end with `c`,
/// and only copies of `c` are cut.
pub(crate) proof fn lemma_trim_end_char(s: Seq<char>, c: char)
    ensures
        trim_end_char(s, c).is_prefix_of(s),
        forall|k: int| trim_end_char(s, c).len() <= k < s.len() ==> s[k] == c,
        trim_end_char(s, c).len() == 0 || trim_end_char(s, c).last() != c,
    decreases s.len(),
{
    if s.len() > 0 && s.last() == c {
        lemma_trim_end_char(s.drop_last(), c);
        let t = trim_end_char(s.drop_last(), c);
        assert(t =~= s.subrange(0, t.len() as int));
        assert forall|k: int| t.len() <= k < s.len() implies s[k] == c by {
            if k < s.len() - 1 {
                assert(s.drop_last()[k] == s[k]);
            }
        }
    } else {
        assert(s =~= s.subrange(0, s.len() as int));
    }
}

/// Whether `pat` occurs in `s` starting at position `i`.
pub open spec fn occurs_at(s: Seq<char>, pat: Seq<char>, i: int) -> bool {
    0 <= i && i + pat.len() <= s.len() && s.subrange(i, i + pat.len()) == pat
}

/// The first position at or after `i` where `pat` occurs in `s`.
pub open spec fn find_from(s: Seq<char>, pat: Seq<char>, i: int) -> Option<int>
    decreases s.len() + 1 - i,
{
    if i < 0 || i + pat.len() > s.len() {
        None
    } else if occurs_at(s, pat, i) {
        Some(i)
    } else {
        find_from(s, pat, i + 1)
    }
}

/// What `find_from` finds: the first position at or after `i` where `pat`
/// occurs, and none when it occurs nowhere from `i` on.
pub(crate) proof fn lemma_find_from(s: Seq<char>, pat: Seq<char>, i: int)
    requires
        0 <= i,
    ensures
        find_from(s, pat, i) matches Some(k) ==> i <= k && occurs_at(s, pat, k) && forall|q: int|
            i <= q < k ==> !#[trigger] occurs_at(s, pat, q),
        find_from(s, pat, i) is None ==> forall|q: int| i <= q ==> !#[trigger] occurs_at(s, pat, q),
    decreases s.len() + 1 - i,
{
    if i + pat.len() <= s.len() && !occurs_at(s, pat, i) {
        lemma_find_from(s, pat, i + 1);
    }
}

/// The first position of `pat` in `s` (`str::find` with a string pattern).
pub open spec fn find_seq(s: Seq<char>, pat: Seq<char>) -> Option<int> {
    find_from(s, pat, 0)
}

/// The ASCII digit for `d < 10`.
pub open spec fn digit_char(d: nat) -> char {
    ((d + 48) as u8) as char
}

/// The decimal notation of `n`, as `Display` writes an unsigned integer.
pub open spec fn decimal(n: nat) -> Seq<char>
    decreases n,
{
    if n < 10 {
        seq![digit_char(n)]
    } else {
        decimal(n / 10).push(digit_char(n % 10))
    }
}

proof fn lemma_digit_char(d: nat)
    requires
        d < 10,
    ensures
        digit_char(d) as u32 == d + 48,
{
    assert(((d + 48) as u8) as u32 == d + 48);
}

/// The decimal notation of a number holds digits only, one digit for a
/// number below ten and more for any other.
pub proof fn lemma_decimal_digits(n: nat)
    ensures
        forall|i: int| 0 <= i < decimal(n).len() ==> '0' <= #[trigger] decimal(n)[i] <= '9',
        n < 10 <==> decimal(n).len() == 1,
        decimal(n).len() >= 1,
    decreases n,
{
    lemma_digit_char(n % 10);
    if n >= 10 {
        lemma_decimal_digits(n / 10);
        let d = decimal(n / 10);
        assert forall|i: int| 0 <= i < decimal(n).len() implies '0' <= #[trigger] decimal(n)[i]
            <= '9' by {
            if i < d.len() {
                assert(decimal(n)[i] == d[i]);
            }
        }
    }
}

/// Different numbers have different decimal notations.
pub proof fn lemma_decimal_injective(a: nat, b: nat)
    requires
        decimal(a) == decimal(b),
    ensures
        a == b,
    decreases a,
{
    lemma_decimal_digits(a);
    lemma_decimal_digits(b);
    lemma_digit_char(a % 10);
    lemma_digit_char(b % 10);
    if a >= 10 && b >= 10 {
        assert(decimal(a).last() == digit_char(a % 10));
        assert(decimal(b).last() == digit_char(b % 10));
        assert(decimal(a).drop_last() == decimal(a / 10));
        assert(decimal(b).drop_last() == decimal(b / 10));
        lemma_decimal_injective(a / 10, b / 10);
    } else if a < 10 && b < 10 {
        assert(decimal(a)[0] == digit_char(a));
        assert(decimal(b)[0] == digit_char(b));
    }
}

/// Appends one character to a string.
#[verifier::external_body]
pub(crate) fn push_char(s: &mut String, c: char)
    ensures
        final(s)@ == old(s)@.push(c),
{
    s.push(c);
}

/// The characters of a string slice, in order.
pub(crate) fn chars_of(s: &str) -> (v: Vec<char>)
    ensures
        v@ == s@,
{
    let mut v: Vec<char> = Vec::new();
    for c in it: s.chars()
        invariant
            v@ == it.seq().take(it.index() as int),
    {
        v.push(c);
    }
    v
}

/// A string holding `v[lo..hi]`.
pub(crate) fn string_from_range(v: &Vec<char>, lo: usize, hi: usize) -> (s: String)
    requires
        lo <= hi <= v.len(),
    ensures
        s@ == v@.subrange(lo as int, hi as int),
{
    let mut s = String::new();
    let mut i = lo;
    while i < hi
        invariant
            lo <= i <= hi <= v.len(),
            s@ == v@.subrange(lo as int, i as int),
        decreases hi - i,
    {
        push_char(&mut s, v[i]);
        assert(v@.subrange(lo as int, i + 1) == v@.subrange(lo as int, i as int).push(v@[i as int]));
        i = i + 1;
    }
    s
}

/// Appends `v[lo..hi]` to `s`.
pub(crate) fn push_range(s: &mut String, v: &Vec<char>, lo: usize, hi: usize)
    requires
        lo <= hi <= v.len(),
    ensures
        final(s)@ == old(s)@ + v@.subrange(lo as int, hi as int),
{
    let mut i = lo;
    while i < hi
        invariant
            lo <= i <= hi <= v.len(),
            s@ == old(s)@ + v@.subrange(lo as int, i as int),
        decreases hi - i,
    {
        push_char(s, v[i]);
        assert(v@.subrange(lo as int, i + 1) == v@.subrange(lo as int, i as int).push(v@[i as int]));
        i = i + 1;
    }
}

/// Appends the characters of `t` to `s`.
pub(crate) fn push_str(s: &mut String, t: &str)
    ensures
        final(s)@ == old(s)@ + t@,
{
    let v = chars_of(t);
    push_range(s, &v, 0, v.len());
    assert(v@.subrange(0, v@.len() as int) == v@);
}

/// Appends the decimal notation of `n`.
pub(crate) fn push_decimal(s: &mut String, n: u64)
    ensures
        final(s)@ == old(s)@ + decimal(n as nat),
    decreases n,
{
    if n >= 10 {
        push_decimal(s, n / 10);
    }
    let d = ((n % 10) as u8 + 48) as char;
    push_char(s, d);
}

/// Whether two character lists are equal.
pub(crate) fn same_chars(a: &Vec<char>, b: &Vec<char>) -> (r: bool)
    ensures
        r == (a@ == b@),
{
    if a.len() != b.len() {
        return false;
    }
    let mut i: usize = 0;
    while i < a.len()
        invariant
            a.len() == b.len(),
            i <= a.len(),
            forall|k: int| 0 <= k < i ==> a@[k] == b@[k],
        decreases a.len() - i,
    {
        if a[i] != b[i] {
            return false;
        }
        i = i + 1;
    }
    assert(a@ == b@);
    true
}

/// `char::is_whitespace`.
pub(crate) fn is_whitespace_char(c: char) -> (r: bool)
    ensures
        r == is_white_space(c),
{
    ('\u{9}' <= c && c <= '\u{d}') || c == ' ' || c == '\u{85}' || c == '\u{a0}' || c == '\u{1680}'
        || ('\u{2000}' <= c && c <= '\u{200a}') || c == '\u{2028}' || c == '\u{2029}' || c
        == '\u{202f}' || c == '\u{205f}' || c == '\u{3000}'
}

/// The bounds of `v[lo..hi]` with its leading and trailing whitespace removed.
pub(crate) fn trim_range(v: &Vec<char>, lo: usize, hi: usize) -> (r: (usize, usize))
    requires
        lo <= hi <= v.len(),
    ensures
        lo <= r.0 <= r.1 <= hi,
        v@.subrange(r.0 as int, r.1 as int) == trim_ws(v@.subrange(lo as int, hi as int)),
{
    let mut a = lo;
    while a < hi && is_whitespace_char(v[a])
        invariant
            lo <= a <= hi <= v.len(),
            trim_start_ws(v@.subrange(lo as int, hi as int)) == trim_start_ws(
                v@.subrange(a as int, hi as int),
            ),
        decreases hi - a,
    {
        assert(v@.subrange(a as int, hi as int).drop_first() == v@.subrange(a + 1, hi as int));
        a = a + 1;
    }
    let mut b = hi;
    while b > a && is_whitespace_char(v[b - 1])
        invariant
            lo <= a <= b <= hi <= v.len(),
            trim_end_ws(v@.subrange(a as int, hi as int)) == trim_end_ws(
                v@.subrange(a as int, b as int),
            ),
        decreases b - a,
    {
        assert(v@.subrange(a as int, b as int).drop_last() == v@.subrange(a as int, b - 1));
        b = b - 1;
    }
    (a, b)
}

/// The bounds of `v[lo..hi]` without leading copies of `c`.
pub(crate) fn trim_start_char_range(v: &Vec<char>, lo: usize, hi: usize, c: char) -> (r: usize)
    requires
        lo <= hi <= v.len(),
    ensures
        lo <= r <= hi,
        v@.subrange(r as int, hi as int) == trim_start_char(v@.subrange(lo as int, hi as int), c),
{
    let mut a = lo;
    while a < hi && v[a] == c
        invariant
            lo <= a <= hi <= v.len(),
            trim_start_char(v@.subrange(lo as int, hi as int), c) == trim_start_char(
                v@.subrange(a as int, hi as int),
                c,
            ),
        decreases hi - a,
    {
        assert(v@.subrange(a as int, hi as int).drop_first() == v@.subrange(a + 1, hi as int));
        a = a + 1;
    }
    a
}

/// The end of `v[lo..hi]` without trailing copies of `c`.
pub(crate) fn trim_end_char_range(v: &Vec<char>, lo: usize, hi: usize, c: char) -> (r: usize)
    requires
        lo <= hi <= v.len(),
    ensures
        lo <= r <= hi,
        v@.subrange(lo as int, r as int) == trim_end_char(v@.subrange(lo as int, hi as int), c),
{
    let mut b = hi;
    while b > lo && v[b - 1] == c
        invariant
            lo <= b <= hi <= v.len(),
            trim_end_char(v@.subrange(lo as int, hi as int), c) == trim_end_char(
                v@.subrange(lo as int, b as int),
                c,
            ),
        decreases b - lo,
    {
        assert(v@.subrange(lo as int, b as int).drop_last() == v@.subrange(lo as int, b - 1));
        b = b - 1;
    }
    b
}

/// The first position at or after `i` where `v` holds `c`.
pub(crate) fn find_char_from_exec(v: &Vec<char>, c: char, i: usize) -> (r: Option<usize>)
    ensures
        r matches Some(k) ==> i <= k < v.len() && find_char_from(v@, c, i as int) == Some(k as int),
        r is None ==> find_char_from(v@, c, i as int) is None,
{
    let mut k = i;
    while k < v.len()
        invariant
            i <= k,
            find_char_from(v@, c, i as int) == find_char_from(v@, c, k as int),
        decreases v.len() - k,
    {
        if v[k] == c {
            return Some(k);
        }
        k = k + 1;
    }
    None
}

/// A copy of `v[lo..hi]`.
pub(crate) fn sub_vec(v: &Vec<char>, lo: usize, hi: usize) -> (r: Vec<char>)
    requires
        lo <= hi <= v.len(),
    ensures
        r@ == v@.subrange(lo as int, hi as int),
{
    let mut r: Vec<char> = Vec::new();
    let mut i = lo;
    while i < hi
        invariant
            lo <= i <= hi <= v.len(),
            r@ == v@.subrange(lo as int, i as int),
        decreases hi - i,
    {
        r.push(v[i]);
        assert(v@.subrange(lo as int, i + 1) == v@.subrange(lo as int, i as int).push(v@[i as int]));
        i = i + 1;
    }
    r
}

/// The first position in `v` that holds `a` or `b`.
pub(crate) fn find_either(v: &Vec<char>, a: char, b: char) -> (r: Option<usize>)
    ensures
        r matches Some(i) ==> i < v.len() && find_either_from(v@, a, b, 0) == Some(i as int),
        r is None ==> find_either_from(v@, a, b, 0) is None,
{
    let mut i: usize = 0;
    while i < v.len()
        invariant
            i <= v.len(),
            find_either_from(v@, a, b, 0) == find_either_from(v@, a, b, i as int),
        decreases v.len() - i,
    {
        if v[i] == a || v[i] == b {
            return Some(i);
        }
        i = i + 1;
    }
    None
}

/// Whether `pat` occurs in `v` at position `i`.
pub(crate) fn occurs_at_exec(v: &Vec<char>, pat: &Vec<char>, i: usize) -> (r: bool)
    ensures
        r == occurs_at(v@, pat@, i as int),
{
    if i > v.len() || pat.len() > v.len() - i {
        return false;
    }
    let mut k: usize = 0;
    while k < pat.len()
        invariant
            i + pat.len() <= v.len(),
            k <= pat.len(),
            forall|j: int| 0 <= j < k ==> v@[i + j] == pat@[j],
        decreases pat.len() - k,
    {
        if v[i + k] != pat[k] {
            assert(v@.subrange(i as int, i + pat.len())[k as int] != pat@[k as int]);
            return false;
        }
        k = k + 1;
    }
    assert(v@.subrange(i as int, i + pat.len()) == pat@);
    true
}

/// The first position of `pat` in `v`.
pub(crate) fn find_seq_exec(v: &Vec<char>, pat: &Vec<char>) -> (r: Option<usize>)
    ensures
        r matches Some(i) ==> i + pat.len() <= v.len() && find_seq(v@, pat@) == Some(i as int),
        r is None ==> find_seq(v@, pat@) is None,
{
    if pat.len() > v.len() {
        return None;
    }
    if pat.len() == 0 {
        assert(v@.subrange(0, 0) == pat@);
        return Some(0);
    }
    let mut i: usize = 0;
    while i <= v.len() - pat.len()
        invariant
            0 < pat.len() <= v.len(),
            i <= v.len() - pat.len() + 1,
            find_seq(v@, pat@) == find_from(v@, pat@, i as int),
        decreases v.len() + 1 - i,
    {
        if occurs_at_exec(v, pat, i) {
            return Some(i);
        }
        i = i + 1;
    }
    None
}

} // verus!
