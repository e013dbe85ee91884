//! The scanner: where the free text of one item ends and the next item
//! begins, and what may stand between two sibling items.
//!
//! A `//` comment runs to the end of its line. Commented text is never
//! removed, but nothing inside it counts as the start of an item.

use crate::text::{
    first_where, has_uppercase, lemma_first_where_exists, lemma_first_where_unique, matches_at,
    occurs_at, run_of,
};
use vstd::prelude::*;

verus! {

/// A comment begins at index `j`: two slashes stand there.
pub open spec fn starts_comment(s: Seq<char>, j: int) -> bool {
    0 <= j && j + 1 < s.len() && s[j] == '/' && s[j + 1] == '/'
}

/// The comment that begins at `j` reaches index `i`: no line feed stands
/// between the two. The line feed that ends a comment is still part of it.
pub open spec fn comment_covers(s: Seq<char>, j: int, i: int) -> bool {
    &&& starts_comment(s, j)
    &&& j <= i
    &&& forall|k: int| j <= k < i ==> s[k] != '\n'
}

/// Index `i` lies inside a comment.
pub open spec fn in_comment(s: Seq<char>, i: int) -> bool {
    exists|j: int| comment_covers(s, j, i)
}

/// The text `"loop"`.
pub open spec fn loop_name() -> Seq<char> {
    seq!['l', 'o', 'o', 'p']
}

/// The text `"grid"`.
pub open spec fn grid_name() -> Seq<char> {
    seq!['g', 'r', 'i', 'd']
}

/// The characters at `i` look like the start of an item: `[` directly
/// followed by an uppercase letter, or `<` directly followed by `loop` or
/// `grid`.
pub open spec fn opens_item(s: Seq<char>, i: int) -> bool {
    &&& 0 <= i < s.len()
    &&& {
        ||| s[i] == '[' && i + 1 < s.len() && has_uppercase(s[i + 1])
        ||| s[i] == '<' && (occurs_at(s, loop_name(), i + 1) || occurs_at(s, grid_name(), i + 1))
    }
}

/// An item boundary: the start of an item outside every comment.
pub open spec fn is_boundary(s: Seq<char>, i: int) -> bool {
    opens_item(s, i) && !in_comment(s, i)
}

/// [`is_boundary`] as a predicate on indices of `s`.
pub open spec fn boundary_in(s: Seq<char>) -> spec_fn(int) -> bool {
    |i: int| is_boundary(s, i)
}

/// The index of the first item boundary of `s`, or the length of `s` when
/// it has none: the length of the free text that `s` begins with.
pub open spec fn first_boundary(s: Seq<char>) -> int {
    first_where(s.len() as int, boundary_in(s))
}

/// Space, tab, carriage return and line feed.
pub open spec fn is_multispace(c: char) -> bool {
    c == ' ' || c == '\t' || c == '\r' || c == '\n'
}

/// Index `i` holds neither a separating blank nor part of a comment.
pub open spec fn ends_separators(s: Seq<char>) -> spec_fn(int) -> bool {
    |i: int| !is_multispace(s[i]) && !in_comment(s, i)
}

/// The length of what separates the start of `s` from its first item:
/// any mix of whole comments and runs of blanks.
pub open spec fn separators(s: Seq<char>) -> int {
    first_where(s.len() as int, ends_separators(s))
}

/// The index at which the line that index `i` is on ends: the index of
/// the first line feed at or after `i`, or the length of `s` where none
/// follows.
pub open spec fn line_text_end(s: Seq<char>, i: int) -> int {
    i + run_of(s.skip(i), |c: char| c != '\n')
}

/// The index just past the line that index `i` is on, its line feed
/// included.
pub open spec fn line_end(s: Seq<char>, i: int) -> int {
    let k = line_text_end(s, i);
    if k < s.len() {
        k + 1
    } else {
        k
    }
}

/// The scan stands at `i` outside every comment: the line that `i` is on
/// begins at `from`, and no comment begins between the two.
pub open spec fn on_open_line(s: Seq<char>, from: int, i: int) -> bool {
    &&& 0 <= from <= i <= s.len()
    &&& from == 0 || s[from - 1] == '\n'
    &&& forall|j: int| from <= j < i ==> !starts_comment(s, j) && s[j] != '\n'
}

/// On an open line, an index is inside a comment only if the comment
/// begins at that very index.
pub proof fn lemma_open_line(s: Seq<char>, from: int, i: int)
    requires
        on_open_line(s, from, i),
    ensures
        in_comment(s, i) <==> starts_comment(s, i),
{
    if in_comment(s, i) {
        let j = choose|j: int| comment_covers(s, j, i);
        if j < from {
            assert(s[from - 1] != '\n');
        } else if j < i {
            assert(!starts_comment(s, j));
        }
    }
    if starts_comment(s, i) {
        assert(comment_covers(s, i, i));
    }
}

/// Boundary detection is idempotent: what follows the first boundary of a
/// text begins with a boundary itself, so scanning that remainder as a text
/// of its own stops at once, with an empty prefix.
pub proof fn lemma_boundary_idempotent(s: Seq<char>)
    ensures
        first_boundary(s.skip(first_boundary(s))) == 0,
{
    lemma_first_where_exists(s.len() as int, boundary_in(s));
    let p = first_boundary(s);
    let t = s.skip(p);
    if p < s.len() {
        assert(boundary_in(s)(p));
        assert(t[0] == s[p]);
        if s[p] == '<' {
            assert(t.subrange(1, 5) =~= s.subrange(p + 1, p + 5));
        } else {
            assert(t[1] == s[p + 1]);
        }
        assert(opens_item(t, 0));
        if in_comment(t, 0) {
            let j = choose|j: int| comment_covers(t, j, 0);
            assert(t[j] == '/');
        }
        assert(boundary_in(t)(0));
    }
    lemma_first_where_unique(t.len() as int, boundary_in(t), 0);
}

/// The first boundary lies inside the text; it is a boundary unless the
/// text has none, and no boundary comes before it.
pub proof fn lemma_first_boundary(s: Seq<char>)
    ensures
        0 <= first_boundary(s) <= s.len(),
        first_boundary(s) < s.len() ==> is_boundary(s, first_boundary(s)),
        forall|i: int| 0 <= i < first_boundary(s) ==> !is_boundary(s, i),
{
    lemma_first_where_exists(s.len() as int, boundary_in(s));
    let p = first_boundary(s);
    if p < s.len() {
        assert(boundary_in(s)(p));
    }
    assert forall|i: int| 0 <= i < p implies !is_boundary(s, i) by {
        assert(!boundary_in(s)(i));
    }
}

/// The separators end inside the text.
pub proof fn lemma_separators_in_bounds(s: Seq<char>)
    ensures
        0 <= separators(s) <= s.len(),
{
    lemma_first_where_exists(s.len() as int, ends_separators(s));
}

/// Whether the characters at `i` look like the start of an item.
pub fn opens_item_at(s: &[char], i: usize) -> (r: bool)
    requires
        i < s@.len(),
    ensures
        r == opens_item(s@, i as int),
{
    let c = s[i];
    if c == '[' {
        i + 1 < s.len() && s[i + 1].is_uppercase()
    } else if c == '<' {
        let loop_name: [char; 4] = ['l', 'o', 'o', 'p'];
        let grid_name: [char; 4] = ['g', 'r', 'i', 'd'];
        assert(loop_name@ =~= self::loop_name());
        assert(grid_name@ =~= self::grid_name());
        matches_at(s, loop_name.as_slice(), i + 1) || matches_at(s, grid_name.as_slice(), i + 1)
    } else {
        false
    }
}

/// The index of the first line feed at or after `i`, or the length of
/// `s`.
pub fn find_line_feed(s: &[char], i: usize) -> (k: usize)
    requires
        i <= s@.len(),
    ensures
        k == line_text_end(s@, i as int),
        i <= k <= s@.len(),
        forall|m: int| i <= m < k ==> s@[m] != '\n',
        k < s@.len() ==> s@[k as int] == '\n',
{
    let len = s.len();
    let mut k: usize = i;
    while k < len && s[k] != '\n'
        invariant
            i <= k <= len,
            len == s@.len(),
            forall|m: int| i <= m < k ==> s@[m] != '\n',
        decreases len - k,
    {
        k += 1;
    }
    proof {
        let t = s@.skip(i as int);
        let stop = |j: int| !(|c: char| c != '\n')(t[j]);
        assert forall|j: int| 0 <= j < k - i implies !#[trigger] stop(j) by {
            assert(t[j] == s@[i + j]);
        }
        if k < len {
            assert(t[k - i] == s@[k as int]);
        }
        lemma_first_where_unique(t.len() as int, stop, k - i);
    }
    k
}

/// The index just past the line that index `i` is on.
pub fn skip_line(s: &[char], i: usize) -> (r: usize)
    requires
        i <= s@.len(),
    ensures
        r == line_end(s@, i as int),
        i <= r <= s@.len(),
        forall|k: int| i <= k < r - 1 ==> s@[k] != '\n',
        r < s@.len() ==> r > i && s@[r - 1] == '\n',
{
    let k = find_line_feed(s, i);
    if k < s.len() {
        k + 1
    } else {
        k
    }
}

/// The length of the free text that `s` begins with: the index of its
/// first item boundary, or its whole length.
pub fn scan_boundary(s: &[char]) -> (n: usize)
    ensures
        n == first_boundary(s@),
        n <= s@.len(),
        n < s@.len() ==> is_boundary(s@, n as int),
        forall|i: int| 0 <= i < n ==> !is_boundary(s@, i),
{
    let len = s.len();
    let ghost p = boundary_in(s@);
    let ghost mut from: int = 0;
    let mut i: usize = 0;
    while i < len
        invariant
            i <= len,
            len == s@.len(),
            p == boundary_in(s@),
            i < len ==> on_open_line(s@, from, i as int),
            forall|q: int| 0 <= q < i ==> !#[trigger] p(q),
        decreases len - i,
    {
        proof {
            lemma_open_line(s@, from, i as int);
        }
        if s[i] == '/' && i + 1 < len && s[i + 1] == '/' {
            let next = skip_line(s, i);
            proof {
                assert forall|q: int| i <= q < next implies !#[trigger] p(q) by {
                    assert(comment_covers(s@, i as int, q));
                }
                from = next as int;
            }
            i = next;
        } else if opens_item_at(s, i) {
            proof {
                assert(p(i as int));
                lemma_first_where_unique(len as int, p, i as int);
                assert forall|q: int| 0 <= q < i implies !is_boundary(s@, q) by {
                    assert(!p(q));
                }
            }
            return i;
        } else {
            proof {
                assert(!p(i as int));
                if s@[i as int] == '\n' {
                    from = i + 1;
                }
            }
            i += 1;
        }
    }
    proof {
        lemma_first_where_unique(len as int, p, len as int);
        assert forall|q: int| 0 <= q < len implies !is_boundary(s@, q) by {
            assert(!p(q));
        }
    }
    len
}

/// The length of what separates the start of `s` from its first item.
pub fn skip_separators(s: &[char]) -> (n: usize)
    ensures
        n == separators(s@),
        n <= s@.len(),
{
    let len = s.len();
    let ghost p = ends_separators(s@);
    let ghost mut from: int = 0;
    let mut i: usize = 0;
    while i < len
        invariant
            i <= len,
            len == s@.len(),
            p == ends_separators(s@),
            i < len ==> on_open_line(s@, from, i as int),
            forall|q: int| 0 <= q < i ==> !#[trigger] p(q),
        decreases len - i,
    {
        proof {
            lemma_open_line(s@, from, i as int);
        }
        let c = s[i];
        if c == '/' && i + 1 < len && s[i + 1] == '/' {
            let next = skip_line(s, i);
            proof {
                assert forall|q: int| i <= q < next implies !#[trigger] p(q) by {
                    assert(comment_covers(s@, i as int, q));
                }
                from = next as int;
            }
            i = next;
        } else if c == ' ' || c == '\t' || c == '\r' || c == '\n' {
            proof {
                assert(!p(i as int));
                if c == '\n' {
                    from = i + 1;
                }
            }
            i += 1;
        } else {
            proof {
                assert(p(i as int));
                lemma_first_where_unique(len as int, p, i as int);
            }
            return i;
        }
    }
    proof {
        lemma_first_where_unique(len as int, p, len as int);
    }
    len
}

} // verus!
