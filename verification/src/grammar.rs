//! The grammar of a module, as functions from text to what is read from its
//! start: how many characters were taken and what they hold, or why no such
//! thing stands there.

use crate::error::{ErrorKind, Failure};
use crate::model::{GridView, ItemView, LoopView, ModuleView, QuestionView, TagView};
use crate::scanner::{
    first_boundary, grid_name, lemma_first_boundary, lemma_separators_in_bounds, line_end,
    line_text_end, loop_name, separators, starts_comment,
};
use crate::text::{
    find, lemma_find_some, lemma_run_of_in_bounds, lemma_trim_idempotent, occurs_at, run_of, trim,
};
use vstd::prelude::*;

verus! {

/// What a parser makes of a text: the number of characters it took from
/// the front and the value they hold, or the failure.
pub type Parsed<T> = Result<(int, T), Failure>;

/// The failure of kind `kind` at index `at`.
pub open spec fn fail<T>(kind: ErrorKind, at: int) -> Parsed<T> {
    Err(Failure { kind, at })
}

/// The text `"</grid>"`.
pub open spec fn grid_close() -> Seq<char> {
    seq!['<', '/', 'g', 'r', 'i', 'd', '>']
}

/// The text `"</loop>"`.
pub open spec fn loop_close() -> Seq<char> {
    seq!['<', '/', 'l', 'o', 'o', 'p', '>']
}

/// The space character: the one blank that may stand between `<` and the
/// name of a tag. A tab there is no blank.
pub open spec fn is_blank(c: char) -> bool {
    c == ' '
}

/// A comment: `//`, then the rest of the line, whose line feed is read
/// too where there is one. The value is the text between the two.
pub open spec fn comment_line(s: Seq<char>) -> Parsed<Seq<char>> {
    if !starts_comment(s, 0) {
        fail(ErrorKind::NoMatch, 0)
    } else {
        Ok((line_end(s, 2), s.subrange(2, line_text_end(s, 2))))
    }
}

/// A question: `[`, the header up to the first `]`, then the body up to
/// the next item boundary.
pub open spec fn question(s: Seq<char>) -> Parsed<QuestionView> {
    if !(s.len() > 0 && s[0] == '[') {
        fail(ErrorKind::NoMatch, 0)
    } else {
        match find(s.skip(1), seq![']']) {
            None => fail(ErrorKind::UnterminatedHeader, 1),
            Some(h) => {
                let body = s.skip(h + 2);
                let b = first_boundary(body);
                Ok(
                    (
                        h + 2 + b,
                        QuestionView {
                            header: trim(s.subrange(1, h + 1)),
                            markdown: trim(body.take(b)),
                        },
                    ),
                )
            },
        }
    }
}

/// An opening tag: `<`, any number of spaces, the name `grid` or `loop`,
/// then the attribute text up to the first `>`.
pub open spec fn tag(s: Seq<char>) -> Parsed<TagView> {
    if !(s.len() > 0 && s[0] == '<') {
        fail(ErrorKind::NoMatch, 0)
    } else {
        let at = 1 + run_of(s.skip(1), |c: char| is_blank(c));
        if !occurs_at(s, grid_name(), at) && !occurs_at(s, loop_name(), at) {
            fail(ErrorKind::UnknownTag, at)
        } else {
            match find(s.skip(at + 4), seq!['>']) {
                None => fail(ErrorKind::UnterminatedTagAttributes, at + 4),
                Some(p) => Ok(
                    (
                        at + 4 + p + 1,
                        TagView {
                            name: s.subrange(at, at + 4),
                            params: trim(s.subrange(at + 4, at + 4 + p)),
                        },
                    ),
                ),
            }
        }
    }
}

/// The body of a grid, read from just after its opening tag: everything
/// up to the first `</grid>`, kept whole.
pub open spec fn grid_body(s: Seq<char>) -> Parsed<Seq<char>> {
    match find(s, grid_close()) {
        None => fail(ErrorKind::UnterminatedGroup, 0),
        Some(m) => Ok((m + 7, s.take(m))),
    }
}

/// The body of a loop, read from just after its opening tag: everything
/// up to the first `</loop>`, and the items that this text begins with.
/// What follows the last of these items inside the body is dropped.
pub open spec fn loop_body(s: Seq<char>) -> Parsed<(Seq<char>, Seq<ItemView>)>
    decreases s.len(), 0nat,
{
    match find(s, loop_close()) {
        None => fail(ErrorKind::UnterminatedGroup, 0),
        Some(m) => match items(s.take(m)) {
            Err(f) => Err(f),
            Ok((_, inner)) => Ok((m + 7, (s.take(m), inner))),
        },
    }
}

/// A group: an opening tag, then the body that its name asks for.
pub open spec fn group(s: Seq<char>) -> Parsed<ItemView>
    decreases s.len(), 1nat,
{
    match tag(s) {
        Err(f) => Err(f),
        Ok((t, tg)) => if tg.name == grid_name() {
            match grid_body(s.skip(t)) {
                Err(f) => Err(f.shifted(t)),
                Ok((n, body)) => Ok(
                    (t + n, ItemView::Grid(GridView { tag: tg, markdown: trim(body) })),
                ),
            }
        } else {
            match loop_body(s.skip(t)) {
                Err(f) => Err(f.shifted(t)),
                Ok((n, (body, inner))) => Ok(
                    (
                        t + n,
                        ItemView::Loop(LoopView { tag: tg, markdown: trim(body), items: inner }),
                    ),
                ),
            }
        },
    }
}

/// A question as an item.
pub open spec fn question_item(s: Seq<char>) -> Parsed<ItemView> {
    match question(s) {
        Ok((n, q)) => Ok((n, ItemView::Question(q))),
        Err(f) => Err(f),
    }
}

/// One item: what separates it from the start of the text, then a
/// question where `[` follows, a group otherwise.
pub open spec fn item(s: Seq<char>) -> Parsed<ItemView>
    decreases s.len(), 2nat,
{
    let k = separators(s);
    let rest = s.skip(k);
    proof {
        lemma_separators_in_bounds(s);
    }
    match question_item(rest) {
        Ok((n, q)) => Ok((k + n, q)),
        Err(f) => if f.kind == ErrorKind::NoMatch {
            match group(rest) {
                Ok((n, g)) => Ok((k + n, g)),
                Err(f) => Err(f.shifted(k)),
            }
        } else {
            Err(f.shifted(k))
        },
    }
}

/// A sequence of items: as many as stand at the start of the text, one
/// after the other. The sequence ends where no item begins; it fails where
/// an item has begun and does not end.
///
/// The test on `n` is there for the recursion to be well founded; an item
/// never takes nothing ([`lemma_item_advances`]), so it always holds.
pub open spec fn items(s: Seq<char>) -> Parsed<Seq<ItemView>>
    decreases s.len(), 3nat,
{
    match item(s) {
        Err(f) => if f.kind.is_fatal() {
            Err(f)
        } else {
            Ok((0, Seq::empty()))
        },
        Ok((n, first)) => {
            let after = if 0 < n <= s.len() {
                items(s.skip(n))
            } else {
                Ok((0, Seq::empty()))
            };
            match after {
                Err(f) => Err(f.shifted(n)),
                Ok((m, more)) => Ok((n + m, seq![first] + more)),
            }
        },
    }
}

/// A module: the free text before the first item boundary, then the
/// sequence of items.
pub open spec fn module(s: Seq<char>) -> Parsed<ModuleView> {
    let p = first_boundary(s);
    match items(s.skip(p)) {
        Err(f) => Err(f.shifted(p)),
        Ok((n, found)) => Ok((p + n, ModuleView { preamble: s.take(p), items: found })),
    }
}

/// Every item takes at least one character, and no more than there are.
pub proof fn lemma_item_advances(s: Seq<char>)
    ensures
        item(s) matches Ok((n, _)) ==> 0 < n <= s.len(),
{
    lemma_separators_in_bounds(s);
    let rest = s.skip(separators(s));
    if rest.len() > 0 && rest[0] == '[' {
        if let Some(h) = find(rest.skip(1), seq![']']) {
            lemma_first_boundary(rest.skip(h + 2));
        }
    }
}

/// Every production that succeeds takes at least one character, and none
/// takes more than there are: a parse that goes from one production to the
/// next moves forward each time and comes to an end.
pub proof fn lemma_productions_advance(s: Seq<char>)
    ensures
        comment_line(s) matches Ok((n, _)) ==> 2 <= n <= s.len(),
        question(s) matches Ok((n, _)) ==> 2 <= n <= s.len(),
        tag(s) matches Ok((n, _)) ==> 6 <= n <= s.len(),
        grid_body(s) matches Ok((n, _)) ==> 7 <= n <= s.len(),
        loop_body(s) matches Ok((n, _)) ==> 7 <= n <= s.len(),
        group(s) matches Ok((n, _)) ==> 13 <= n <= s.len(),
        item(s) matches Ok((n, _)) ==> 0 < n <= s.len(),
{
    lemma_item_advances(s);
    if starts_comment(s, 0) {
        lemma_run_of_in_bounds(s.skip(2), |c: char| c != '\n');
    }
    if s.len() > 0 && s[0] == '[' {
        if let Some(h) = find(s.skip(1), seq![']']) {
            lemma_first_boundary(s.skip(h + 2));
        }
    }
}

/// A sequence of items fails only where an item had begun.
pub proof fn lemma_items_fail_fatally(s: Seq<char>)
    ensures
        items(s) matches Err(f) ==> f.kind.is_fatal(),
    decreases s.len(),
{
    if let Ok((n, _)) = item(s) {
        if 0 < n <= s.len() {
            lemma_items_fail_fatally(s.skip(n));
        }
    }
}

/// A module fails only where an item had begun.
pub proof fn lemma_module_fails_fatally(s: Seq<char>)
    ensures
        module(s) matches Err(f) ==> f.kind.is_fatal(),
{
    lemma_items_fail_fatally(s.skip(first_boundary(s)));
}

/// Whatever a question holds is trimmed.
pub proof fn lemma_question_wf(s: Seq<char>)
    ensures
        question(s) matches Ok((_, q)) ==> q.wf(),
{
    if s.len() > 0 && s[0] == '[' {
        if let Some(h) = find(s.skip(1), seq![']']) {
            let body = s.skip(h + 2);
            lemma_trim_idempotent(s.subrange(1, h + 1));
            lemma_trim_idempotent(body.take(first_boundary(body)));
        }
    }
}

/// The parameter text of a tag is trimmed, and its name is `grid` or
/// `loop`.
pub proof fn lemma_tag_wf(s: Seq<char>)
    ensures
        tag(s) matches Ok((_, t)) ==> t.wf() && (t.name == grid_name() || t.name == loop_name()),
{
    if s.len() > 0 && s[0] == '<' {
        let at = 1 + run_of(s.skip(1), |c: char| is_blank(c));
        if let Some(p) = find(s.skip(at + 4), seq!['>']) {
            lemma_trim_idempotent(s.subrange(at + 4, at + 4 + p));
        }
    }
}

/// Every item found in the body of a loop is well formed.
pub proof fn lemma_loop_body_wf(s: Seq<char>)
    ensures
        loop_body(s) matches Ok((_, (_, inner))) ==> forall|i: int|
            0 <= i < inner.len() ==> (#[trigger] inner[i]).wf(),
    decreases s.len(), 0nat,
{
    if let Some(m) = find(s, loop_close()) {
        lemma_items_wf(s.take(m));
    }
}

/// A group is well formed.
pub proof fn lemma_group_wf(s: Seq<char>)
    ensures
        group(s) matches Ok((_, g)) ==> g.wf(),
    decreases s.len(), 1nat,
{
    lemma_tag_wf(s);
    if let Ok((t, tg)) = tag(s) {
        if tg.name == grid_name() {
            if let Ok((_, body)) = grid_body(s.skip(t)) {
                lemma_trim_idempotent(body);
            }
        } else {
            lemma_loop_body_wf(s.skip(t));
            if let Ok((_, (body, _))) = loop_body(s.skip(t)) {
                lemma_trim_idempotent(body);
            }
        }
    }
}

/// An item is well formed.
pub proof fn lemma_item_wf(s: Seq<char>)
    ensures
        item(s) matches Ok((_, v)) ==> v.wf(),
    decreases s.len(), 2nat,
{
    lemma_separators_in_bounds(s);
    let rest = s.skip(separators(s));
    lemma_question_wf(rest);
    lemma_group_wf(rest);
}

/// Every item of a sequence is well formed: each stored header, parameter
/// text and markdown body is trimmed.
pub proof fn lemma_items_wf(s: Seq<char>)
    ensures
        items(s) matches Ok((_, v)) ==> forall|i: int|
            0 <= i < v.len() ==> (#[trigger] v[i]).wf(),
    decreases s.len(), 3nat,
{
    lemma_item_wf(s);
    if let Ok((n, first)) = item(s) {
        if 0 < n <= s.len() {
            lemma_items_wf(s.skip(n));
        }
    }
}

/// A module is well formed: every text that its items store is trimmed.
pub proof fn lemma_module_wf(s: Seq<char>)
    ensures
        module(s) matches Ok((_, m)) ==> m.wf(),
{
    lemma_first_boundary(s);
    lemma_items_wf(s.skip(first_boundary(s)));
}

/// What a sequence of items takes lies inside the text.
pub proof fn lemma_items_in_bounds(s: Seq<char>)
    ensures
        items(s) matches Ok((n, _)) ==> 0 <= n <= s.len(),
    decreases s.len(),
{
    lemma_item_advances(s);
    if let Ok((n, _)) = item(s) {
        lemma_items_in_bounds(s.skip(n));
    }
}

/// Every `[` of the text is followed, somewhere, by a `]`.
pub open spec fn every_bracket_closes(s: Seq<char>) -> bool {
    forall|i: int|
        0 <= i < s.len() && #[trigger] s[i] == '[' ==> exists|j: int|
            i < j < s.len() && #[trigger] s[j] == ']'
}

/// The text begins with a `<` that opens no group: spaces and the name
/// `grid` or `loop` do not follow.
pub open spec fn names_no_group(r: Seq<char>) -> bool {
    tag(r) matches Err(f) && f.kind == ErrorKind::UnknownTag
}

/// The text begins with the tag of a grid, and `</grid>` follows the tag.
pub open spec fn opens_closed_grid(r: Seq<char>) -> bool {
    tag(r) matches Ok((t, tg)) && tg.name == grid_name() && grid_body(r.skip(t)) is Ok
}

/// The text holds no loop, and what it opens it closes: every `[` is
/// followed by a `]`, and every `<` either opens no group or opens a grid
/// that `</grid>` closes.
pub open spec fn closed_without_loops(s: Seq<char>) -> bool {
    &&& every_bracket_closes(s)
    &&& forall|i: int|
        0 <= i < s.len() && #[trigger] s[i] == '<' ==> names_no_group(s.skip(i))
            || opens_closed_grid(s.skip(i))
}

/// The text begins with the tag of a loop, `</loop>` follows the tag, and
/// the body between the two is closed and holds no loop itself.
pub open spec fn opens_closed_loop(r: Seq<char>) -> bool {
    &&& tag(r) matches Ok((t, tg))
    &&& tg.name == loop_name()
    &&& find(r.skip(t), loop_close()) matches Some(m)
    &&& closed_without_loops(r.skip(t).take(m))
}

/// A well-formed module text: every `[` is followed by a `]`, and every
/// `<` either opens no group, or opens a grid that `</grid>` closes, or
/// opens a loop that `</loop>` closes and whose body is closed and holds
/// no loop. A loop inside the body of a loop is not well formed: the first
/// `</loop>` ends the outer body and leaves the inner loop open.
pub open spec fn well_formed(s: Seq<char>) -> bool {
    &&& every_bracket_closes(s)
    &&& forall|i: int|
        0 <= i < s.len() && #[trigger] s[i] == '<' ==> names_no_group(s.skip(i))
            || opens_closed_grid(s.skip(i)) || opens_closed_loop(s.skip(i))
}

/// What is left of a text after any number of characters closes its
/// brackets as the whole text does.
proof fn lemma_brackets_of_suffix(s: Seq<char>, m: int)
    requires
        0 <= m <= s.len(),
        every_bracket_closes(s),
    ensures
        every_bracket_closes(s.skip(m)),
{
    let u = s.skip(m);
    assert forall|i: int| 0 <= i < u.len() && #[trigger] u[i] == '[' implies exists|j: int|
        i < j < u.len() && #[trigger] u[j] == ']' by {
        assert(s[m + i] == '[');
        let j = choose|j: int| m + i < j < s.len() && #[trigger] s[j] == ']';
        assert(u[j - m] == ']');
    }
}

/// What is left of a closed text without loops is such a text.
proof fn lemma_closed_without_loops_suffix(s: Seq<char>, m: int)
    requires
        0 <= m <= s.len(),
        closed_without_loops(s),
    ensures
        closed_without_loops(s.skip(m)),
{
    let u = s.skip(m);
    lemma_brackets_of_suffix(s, m);
    assert forall|i: int| 0 <= i < u.len() && #[trigger] u[i] == '<' implies names_no_group(
        u.skip(i),
    ) || opens_closed_grid(u.skip(i)) by {
        assert(s[m + i] == '<');
        assert(u.skip(i) =~= s.skip(m + i));
    }
}

/// What is left of a well-formed text is well formed.
proof fn lemma_well_formed_suffix(s: Seq<char>, m: int)
    requires
        0 <= m <= s.len(),
        well_formed(s),
    ensures
        well_formed(s.skip(m)),
{
    let u = s.skip(m);
    lemma_brackets_of_suffix(s, m);
    assert forall|i: int| 0 <= i < u.len() && #[trigger] u[i] == '<' implies names_no_group(
        u.skip(i),
    ) || opens_closed_grid(u.skip(i)) || opens_closed_loop(u.skip(i)) by {
        assert(s[m + i] == '<');
        assert(u.skip(i) =~= s.skip(m + i));
    }
}

/// A text whose brackets close and that begins with `[` begins with a
/// question.
proof fn lemma_closed_question(r: Seq<char>)
    requires
        every_bracket_closes(r),
        r.len() > 0,
        r[0] == '[',
    ensures
        question(r) is Ok,
{
    let j = choose|j: int| 0 < j < r.len() && #[trigger] r[j] == ']';
    assert(r.skip(1).subrange(j - 1, j - 1 + 1) =~= seq![']']);
    lemma_find_some(r.skip(1), seq![']'], j - 1);
}

/// A result that does not fail for good: a value, or the mere absence of
/// an item.
pub open spec fn is_not_fatal<T>(r: Parsed<T>) -> bool {
    r matches Err(f) ==> !f.kind.is_fatal()
}

/// A `<` that opens no group or a closed grid gives a group or none.
proof fn lemma_group_without_loops(r: Seq<char>)
    requires
        names_no_group(r) || opens_closed_grid(r),
    ensures
        is_not_fatal(group(r)),
{
}

/// A `<` that opens no group, a closed grid or a closed loop gives a
/// group or none.
proof fn lemma_group_of_well_formed(r: Seq<char>)
    requires
        names_no_group(r) || opens_closed_grid(r) || opens_closed_loop(r),
    ensures
        is_not_fatal(group(r)),
{
    if names_no_group(r) || opens_closed_grid(r) {
        lemma_group_without_loops(r);
    } else {
        let t = tag(r)->Ok_0.0;
        let m = find(r.skip(t), loop_close())->Some_0;
        lemma_items_without_loops(r.skip(t).take(m));
        assert(grid_name() != loop_name()) by {
            assert(grid_name()[0] != loop_name()[0]);
        }
    }
}

/// What an item is made of: it is the question or the group that stands
/// after the separators, and fails for good only where that one does.
proof fn lemma_item_not_fatal(s: Seq<char>)
    requires
        ({
            let rest = s.skip(separators(s));
            &&& rest.len() > 0 && rest[0] == '[' ==> question(rest) is Ok
            &&& rest.len() > 0 && rest[0] == '<' ==> is_not_fatal(group(rest))
        }),
    ensures
        is_not_fatal(item(s)),
{
    lemma_separators_in_bounds(s);
}

/// A sequence of items in a closed text without loops does not fail.
pub proof fn lemma_items_without_loops(s: Seq<char>)
    requires
        closed_without_loops(s),
    ensures
        items(s) is Ok,
    decreases s.len(),
{
    lemma_separators_in_bounds(s);
    lemma_item_advances(s);
    let k = separators(s);
    let rest = s.skip(k);
    lemma_closed_without_loops_suffix(s, k);
    if rest.len() > 0 && rest[0] == '[' {
        lemma_closed_question(rest);
    } else if rest.len() > 0 && rest[0] == '<' {
        assert(rest.skip(0) =~= rest);
        lemma_group_without_loops(rest);
    }
    lemma_item_not_fatal(s);
    if let Ok((n, _)) = item(s) {
        lemma_closed_without_loops_suffix(s, n);
        lemma_items_without_loops(s.skip(n));
    }
}

/// A sequence of items in a well-formed text does not fail.
pub proof fn lemma_items_of_well_formed(s: Seq<char>)
    requires
        well_formed(s),
    ensures
        items(s) is Ok,
    decreases s.len(),
{
    lemma_separators_in_bounds(s);
    lemma_item_advances(s);
    let k = separators(s);
    let rest = s.skip(k);
    lemma_well_formed_suffix(s, k);
    if rest.len() > 0 && rest[0] == '[' {
        lemma_closed_question(rest);
    } else if rest.len() > 0 && rest[0] == '<' {
        assert(rest.skip(0) =~= rest);
        lemma_group_of_well_formed(rest);
    }
    lemma_item_not_fatal(s);
    if let Ok((n, _)) = item(s) {
        lemma_well_formed_suffix(s, n);
        lemma_items_of_well_formed(s.skip(n));
    }
}

/// A well-formed module text parses: every item that begins in it ends,
/// so nothing stands in the way of a result.
pub proof fn lemma_well_formed_module_parses(s: Seq<char>)
    requires
        well_formed(s),
    ensures
        module(s) is Ok,
{
    lemma_first_boundary(s);
    lemma_well_formed_suffix(s, first_boundary(s));
    lemma_items_of_well_formed(s.skip(first_boundary(s)));
}

} // verus!
