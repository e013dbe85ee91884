//! Character-level vocabulary shared by the scanner and the grammars: the
//! first index at which a predicate holds, substring search, trimming, and
//! the conversions between `str` and character slices.
//!
//! Text is modelled as `Seq<char>`; every position and length in this crate
//! counts characters, not bytes.

use vstd::prelude::*;

verus! {

/// What `char::is_uppercase` answers for a character `c` beyond ASCII:
/// whether `c` has the Unicode `Uppercase` property.
pub uninterp spec fn uppercase_beyond_ascii(c: char) -> bool;

/// What `char::is_whitespace` answers for a character `c` beyond ASCII:
/// whether `c` has the Unicode `White_Space` property.
pub uninterp spec fn white_space_beyond_ascii(c: char) -> bool;

/// An ASCII character: a code point up to U+007F.
pub open spec fn is_ascii_char(c: char) -> bool {
    c <= '\u{7f}'
}

/// The ASCII characters with the `Uppercase` property: `A` to `Z`.
pub open spec fn is_ascii_uppercase(c: char) -> bool {
    'A' <= c <= 'Z'
}

/// The ASCII characters with the `White_Space` property: the space, and
/// the five controls from tab (U+0009) to carriage return (U+000D).
pub open spec fn is_ascii_white_space(c: char) -> bool {
    c == ' ' || '\t' <= c <= '\r'
}

/// `c` has the Unicode `Uppercase` property: one of `A` to `Z` among the
/// ASCII characters, and what the standard library says beyond them.
pub open spec fn has_uppercase(c: char) -> bool {
    if is_ascii_char(c) {
        is_ascii_uppercase(c)
    } else {
        uppercase_beyond_ascii(c)
    }
}

/// `c` has the Unicode `White_Space` property: the space or one of the
/// controls from tab to carriage return among the ASCII characters, and
/// what the standard library says beyond them.
pub open spec fn has_white_space(c: char) -> bool {
    if is_ascii_char(c) {
        is_ascii_white_space(c)
    } else {
        white_space_beyond_ascii(c)
    }
}

/// `char::is_uppercase` is a function of the character alone. Among the
/// ASCII characters it accepts `A` to `Z` and no other; beyond ASCII its
/// answer is named [`uppercase_beyond_ascii`], and nothing is claimed of
/// which characters it accepts there.
pub assume_specification[ char::is_uppercase ](c: char) -> (r: bool)
    ensures
        r == has_uppercase(c),
        !is_ascii_char(c) ==> r == uppercase_beyond_ascii(c),
;

/// `char::is_whitespace` is a function of the character alone. Among the
/// ASCII characters it accepts the space and the controls from tab to
/// carriage return, and no other; beyond ASCII its answer is named
/// [`white_space_beyond_ascii`], and nothing is claimed of which
/// characters it accepts there.
pub assume_specification[ char::is_whitespace ](c: char) -> (r: bool)
    ensures
        r == has_white_space(c),
        !is_ascii_char(c) ==> r == white_space_beyond_ascii(c),
;

/// `String::push` appends the one character `ch` to the end of the string
/// and leaves what was there before in place.
pub assume_specification[ String::push ](s: &mut String, ch: char)
    ensures
        final(s)@ == old(s)@.push(ch),
;

/// `i` is the least index in `0..n` at which `p` holds, or `n` when `p`
/// holds nowhere in that range.
pub open spec fn is_first_where(n: int, p: spec_fn(int) -> bool, i: int) -> bool {
    &&& 0 <= i <= n
    &&& i < n ==> p(i)
    &&& forall|j: int| 0 <= j < i ==> !#[trigger] p(j)
}

/// The least index in `0..n` at which `p` holds, or `n` when there is none.
pub open spec fn first_where(n: int, p: spec_fn(int) -> bool) -> int {
    choose|i: int| is_first_where(n, p, i)
}

/// Two indices that are both first are the same index.
pub proof fn lemma_first_where_unique(n: int, p: spec_fn(int) -> bool, i: int)
    requires
        is_first_where(n, p, i),
    ensures
        first_where(n, p) == i,
{
    let j = first_where(n, p);
    assert(is_first_where(n, p, j));
    if j < i {
        assert(!p(j));
    } else if i < j {
        assert(!p(i));
    }
}

/// Every range has a first index: `first_where` meets its own definition.
pub proof fn lemma_first_where_exists(n: int, p: spec_fn(int) -> bool)
    requires
        0 <= n,
    ensures
        is_first_where(n, p, first_where(n, p)),
    decreases n,
{
    if n == 0 {
        assert(is_first_where(n, p, 0));
    } else {
        lemma_first_where_exists(n - 1, p);
        let k = first_where(n - 1, p);
        if k < n - 1 {
            assert(is_first_where(n, p, k));
        } else if p(n - 1) {
            assert(is_first_where(n, p, n - 1));
        } else {
            assert(is_first_where(n, p, n));
        }
    }
}

/// `pat` stands in `s` at index `i`.
pub open spec fn occurs_at(s: Seq<char>, pat: Seq<char>, i: int) -> bool {
    &&& 0 <= i
    &&& i + pat.len() <= s.len()
    &&& s.subrange(i, i + pat.len()) == pat
}

/// The index of the first occurrence of `pat` in `s`, if it occurs at all.
pub open spec fn find(s: Seq<char>, pat: Seq<char>) -> Option<int> {
    let i = first_where(s.len() as int + 1, |i: int| occurs_at(s, pat, i));
    if occurs_at(s, pat, i) {
        Some(i)
    } else {
        None
    }
}

/// The length of the longest prefix of `s` whose characters all satisfy `keep`.
pub open spec fn run_of(s: Seq<char>, keep: spec_fn(char) -> bool) -> int {
    first_where(s.len() as int, |i: int| !keep(s[i]))
}

/// `s` without its leading and trailing whitespace: the longest run of
/// whitespace is taken from the front, then the longest from the back.
pub open spec fn trim(s: Seq<char>) -> Seq<char> {
    let front = run_of(s, |c: char| has_white_space(c));
    let back = run_of(s.skip(front).reverse(), |c: char| has_white_space(c));
    s.subrange(front, s.len() - back)
}

/// A text in which `pat` stands somewhere has a first place where it
/// stands.
pub proof fn lemma_find_some(s: Seq<char>, pat: Seq<char>, i: int)
    requires
        occurs_at(s, pat, i),
    ensures
        find(s, pat) is Some,
{
    let p = |i: int| occurs_at(s, pat, i);
    lemma_first_where_exists(s.len() as int + 1, p);
    let f = first_where(s.len() as int + 1, p);
    if f > i {
        assert(!p(i));
    }
}

/// A run is never longer than the text it is taken from.
pub proof fn lemma_run_of_in_bounds(s: Seq<char>, keep: spec_fn(char) -> bool)
    ensures
        0 <= run_of(s, keep) <= s.len(),
        forall|j: int| 0 <= j < run_of(s, keep) ==> keep(#[trigger] s[j]),
        run_of(s, keep) < s.len() ==> !keep(s[run_of(s, keep)]),
{
    let p = |i: int| !keep(s[i]);
    lemma_first_where_exists(s.len() as int, p);
    let r = run_of(s, keep);
    assert forall|j: int| 0 <= j < r implies keep(#[trigger] s[j]) by {
        assert(!p(j));
    }
}

/// Trimming leaves nothing to trim: the trimmed text neither begins nor
/// ends with whitespace.
pub proof fn lemma_trim_idempotent(s: Seq<char>)
    ensures
        trim(trim(s)) == trim(s),
{
    let ws = |c: char| has_white_space(c);
    let n = s.len() as int;
    let a = run_of(s, ws);
    lemma_run_of_in_bounds(s, ws);
    let u = s.skip(a).reverse();
    let b = run_of(u, ws);
    lemma_run_of_in_bounds(u, ws);
    let t = trim(s);
    if a < n {
        assert(u[n - a - 1] == s[a]);
        if b >= n - a {
            assert(ws(u[n - a - 1]));
        }
        assert(u[b] == s[n - 1 - b]);
        assert(t[0] == s[a]);
        assert(t[t.len() - 1] == s[n - 1 - b]);
    }
    let front = |i: int| !ws(t[i]);
    assert(is_first_where(t.len() as int, front, 0));
    lemma_first_where_unique(t.len() as int, front, 0);
    assert(t.skip(0) =~= t);
    let v = t.skip(0).reverse();
    let back = |i: int| !ws(v[i]);
    if t.len() > 0 {
        assert(v[0] == t[t.len() - 1]);
    }
    assert(is_first_where(v.len() as int, back, 0));
    lemma_first_where_unique(v.len() as int, back, 0);
    assert(t.subrange(0, t.len() as int) =~= t);
}

/// The characters of `s`, one element for each.
pub fn to_chars(s: &str) -> (v: Vec<char>)
    ensures
        v@ == s@,
{
    let mut v: Vec<char> = Vec::new();
    for c in it: s.chars()
        invariant
            v@ == it.seq().take(it.index()),
            it.seq() == s@,
    {
        v.push(c);
    }
    v
}

/// A string made of the characters of `s`, in order.
pub fn string_of(s: &[char]) -> (r: String)
    ensures
        r@ == s@,
{
    let mut r = String::new();
    let mut i: usize = 0;
    while i < s.len()
        invariant
            i <= s.len(),
            r@ == s@.take(i as int),
        decreases s.len() - i,
    {
        r.push(s[i]);
        i += 1;
    }
    r
}

/// What is left of `input` after its first `used` characters.
pub fn tail<'a>(input: &'a str, used: usize, len: usize) -> (r: &'a str)
    requires
        used <= len,
        len == input@.len(),
    ensures
        r@ == input@.skip(used as int),
{
    input.substring_char(used, len)
}

/// Whether `pat` stands in `s` at index `i`.
pub fn matches_at(s: &[char], pat: &[char], i: usize) -> (r: bool)
    ensures
        r == occurs_at(s@, pat@, i as int),
{
    if pat.len() > s.len() || i > s.len() - pat.len() {
        return false;
    }
    let mut k: usize = 0;
    while k < pat.len()
        invariant
            k <= pat.len(),
            i + pat.len() <= s.len(),
            forall|j: int| 0 <= j < k ==> s@[i + j] == pat@[j],
        decreases pat.len() - k,
    {
        if s[i + k] != pat[k] {
            assert(s@.subrange(i as int, i + pat@.len())[k as int] != pat@[k as int]);
            return false;
        }
        k += 1;
    }
    assert(s@.subrange(i as int, i + pat@.len()) =~= pat@);
    true
}

/// The index of the first occurrence of `pat` in `s`.
pub fn find_first(s: &[char], pat: &[char]) -> (r: Option<usize>)
    ensures
        match r {
            Some(i) => find(s@, pat@) == Some(i as int) && i + pat@.len() <= s@.len(),
            None => find(s@, pat@) is None,
        },
{
    let ghost p = |i: int| occurs_at(s@, pat@, i);
    let mut i: usize = 0;
    while i <= s.len()
        invariant
            i <= s.len() + 1,
            p == (|i: int| occurs_at(s@, pat@, i)),
            forall|j: int| 0 <= j < i ==> !#[trigger] p(j),
        decreases s.len() + 1 - i,
    {
        if matches_at(s, pat, i) {
            proof {
                assert(p(i as int));
                lemma_first_where_unique(s@.len() as int + 1, p, i as int);
            }
            return Some(i);
        }
        assert(!p(i as int));
        if i == s.len() {
            proof {
                lemma_first_where_unique(s@.len() as int + 1, p, s@.len() as int + 1);
            }
            return None;
        }
        i += 1;
    }
    proof {
        lemma_first_where_unique(s@.len() as int + 1, p, s@.len() as int + 1);
    }
    None
}

/// The part of `s` that is left when leading and trailing whitespace is
/// taken away.
pub fn trimmed<'a>(s: &'a [char]) -> (r: &'a [char])
    ensures
        r@ == trim(s@),
{
    let n = s.len();
    let ghost ws = |c: char| has_white_space(c);
    let mut a: usize = 0;
    while a < n && s[a].is_whitespace()
        invariant
            a <= n,
            n == s@.len(),
            forall|j: int| 0 <= j < a ==> has_white_space(#[trigger] s@[j]),
        decreases n - a,
    {
        a += 1;
    }
    let ghost front = |i: int| !ws(s@[i]);
    proof {
        assert forall|j: int| 0 <= j < a implies !#[trigger] front(j) by {
            assert(has_white_space(s@[j]));
        }
        lemma_first_where_unique(n as int, front, a as int);
        assert(run_of(s@, ws) == a);
    }
    let mut b: usize = n;
    while b > a && s[b - 1].is_whitespace()
        invariant
            a <= b <= n,
            n == s@.len(),
            forall|j: int| b <= j < n ==> has_white_space(#[trigger] s@[j]),
        decreases b,
    {
        b -= 1;
    }
    proof {
        let t = s@.skip(a as int).reverse();
        let back = |i: int| !ws(t[i]);
        assert(t.len() == n - a);
        assert forall|j: int| 0 <= j < n - b implies !#[trigger] back(j) by {
            assert(t[j] == s@[n - 1 - j]);
        }
        if b > a {
            assert(t[n - b] == s@[b - 1]);
        } else if a < n {
            assert(!has_white_space(s@[a as int]));
            assert(t[n - 1 - a] == s@[a as int]);
            assert(back(n - 1 - a));
            assert(false);
        }
        lemma_first_where_unique(n - a, back, n - b);
        assert(run_of(t, ws) == n - b);
    }
    &s[a..b]
}

} // verus!
