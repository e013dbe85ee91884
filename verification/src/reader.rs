//! The parsers of the grammar on character slices. Each takes a text and
//! says how many characters it read from the front and what they hold, as
//! the function of the same name in the grammar lays down.

use crate::error::{ErrorKind, Failure, ParseError};
use crate::grammar::{
    fail, grid_body, grid_close, group, is_blank, item, items, lemma_item_advances, loop_body,
    loop_close, module, question, tag, Parsed,
};
use crate::model::{
    items_view, lemma_items_view_push, Grid, ItemView, Loop, Module, ModuleItem, Question, Tag,
};
use crate::scanner::{grid_name, loop_name, scan_boundary, skip_separators};
use crate::text::{
    find_first, lemma_first_where_unique, matches_at, run_of, string_of, trimmed,
};
use vstd::prelude::*;

verus! {

/// The result `r` of reading a text is what the grammar lays down in
/// `model`: the same number of characters and a value with that view, or
/// the same failure.
pub open spec fn reads<T: View>(r: Result<(usize, T), ParseError>, model: Parsed<T::V>) -> bool {
    match r {
        Ok((n, v)) => model == Ok::<(int, T::V), Failure>((n as int, v@)),
        Err(e) => model == Err::<(int, T::V), Failure>(e@),
    }
}

/// The number of spaces that `s` begins with.
pub fn skip_blanks(s: &[char]) -> (n: usize)
    ensures
        n == run_of(s@, |c: char| is_blank(c)),
        n <= s@.len(),
{
    let len = s.len();
    let mut i: usize = 0;
    while i < len && s[i] == ' '
        invariant
            i <= len,
            len == s@.len(),
            forall|j: int| 0 <= j < i ==> is_blank(#[trigger] s@[j]),
        decreases len - i,
    {
        i += 1;
    }
    proof {
        let stop = |j: int| !(|c: char| is_blank(c))(s@[j]);
        assert forall|j: int| 0 <= j < i implies !#[trigger] stop(j) by {
            assert(is_blank(s@[j]));
        }
        lemma_first_where_unique(len as int, stop, i as int);
    }
    i
}

/// Reads a question from the start of `s`.
pub fn read_question(s: &[char]) -> (r: Result<(usize, Question), ParseError>)
    ensures
        reads(r, question(s@)),
        r matches Ok((n, _)) ==> 2 <= n <= s@.len(),
        r matches Err(e) ==> e.position <= s@.len(),
{
    let len = s.len();
    if len == 0 || s[0] != '[' {
        return Err(ParseError { kind: ErrorKind::NoMatch, position: 0 });
    }
    let close: [char; 1] = [']'];
    assert(close@ =~= seq![']']);
    match find_first(&s[1..len], close.as_slice()) {
        None => Err(ParseError { kind: ErrorKind::UnterminatedHeader, position: 1 }),
        Some(h) => {
            let body = &s[h + 2..len];
            let b = scan_boundary(body);
            let header = string_of(trimmed(&s[1..h + 1]));
            let markdown = string_of(trimmed(&body[0..b]));
            Ok((h + 2 + b, Question { header, markdown }))
        },
    }
}

/// Reads an opening tag from the start of `s`, and says whether it is
/// the tag of a grid.
pub fn read_tag(s: &[char]) -> (r: Result<(usize, (Tag, bool)), ParseError>)
    ensures
        match r {
            Ok((n, (t, is_grid))) => {
                &&& tag(s@) == Ok::<(int, crate::model::TagView), Failure>((n as int, t@))
                &&& 6 <= n <= s@.len()
                &&& is_grid == (t@.name == grid_name())
                &&& !is_grid ==> t@.name == loop_name()
            },
            Err(e) => tag(s@) == Err::<(int, crate::model::TagView), Failure>(e@),
        },
        r matches Err(e) ==> e.position <= s@.len(),
{
    let len = s.len();
    if len == 0 || s[0] != '<' {
        return Err(ParseError { kind: ErrorKind::NoMatch, position: 0 });
    }
    let at = 1 + skip_blanks(&s[1..len]);
    let grid: [char; 4] = ['g', 'r', 'i', 'd'];
    let lp: [char; 4] = ['l', 'o', 'o', 'p'];
    assert(grid@ =~= grid_name());
    assert(lp@ =~= loop_name());
    let is_grid = matches_at(s, grid.as_slice(), at);
    if !is_grid && !matches_at(s, lp.as_slice(), at) {
        return Err(ParseError { kind: ErrorKind::UnknownTag, position: at });
    }
    let close: [char; 1] = ['>'];
    assert(close@ =~= seq!['>']);
    match find_first(&s[at + 4..len], close.as_slice()) {
        None => Err(ParseError { kind: ErrorKind::UnterminatedTagAttributes, position: at + 4 }),
        Some(p) => {
            let name = string_of(&s[at..at + 4]);
            let params = string_of(trimmed(&s[at + 4..at + 4 + p]));
            assert(grid_name() != loop_name()) by {
                assert(grid_name()[0] != loop_name()[0]);
            }
            Ok((at + 4 + p + 1, (Tag::from_parts(name, params), is_grid)))
        },
    }
}

/// Reads the body of a grid from the start of `s`, the text just after
/// the opening tag. Gives the number of characters read, closing tag
/// included, and the length of the body.
pub fn read_grid_body(s: &[char]) -> (r: Result<(usize, usize), ParseError>)
    ensures
        match r {
            Ok((n, m)) => grid_body(s@) == Ok::<(int, Seq<char>), Failure>(
                (n as int, s@.take(m as int)),
            ) && n == m + 7 && n <= s@.len(),
            Err(e) => grid_body(s@) == Err::<(int, Seq<char>), Failure>(e@),
        },
        r matches Err(e) ==> e.position <= s@.len(),
{
    let close: [char; 7] = ['<', '/', 'g', 'r', 'i', 'd', '>'];
    assert(close@ =~= grid_close());
    match find_first(s, close.as_slice()) {
        None => Err(ParseError { kind: ErrorKind::UnterminatedGroup, position: 0 }),
        Some(m) => {
            assert(m + 7 <= s.len());
            Ok((m + 7, m))
        },
    }
}

/// The items `done`, read from the first `n` characters of a text, followed
/// by what `rest` makes of the characters after them.
pub open spec fn followed_by(n: int, done: Seq<ItemView>, rest: Parsed<Seq<ItemView>>) -> Parsed<
    Seq<ItemView>,
> {
    match rest {
        Err(f) => Err(f.shifted(n)),
        Ok((m, more)) => Ok((n + m, done + more)),
    }
}

/// Reading one more item after `done` is reading `done` and that item.
proof fn lemma_followed_by_step(
    n: int,
    done: Seq<ItemView>,
    k: int,
    next: ItemView,
    rest: Parsed<Seq<ItemView>>,
)
    ensures
        followed_by(n, done, followed_by(k, seq![next], rest)) == followed_by(
            n + k,
            done.push(next),
            rest,
        ),
{
    match rest {
        Err(f) => {},
        Ok((m, more)) => {
            assert(done + (seq![next] + more) =~= done.push(next) + more);
        },
    }
}

/// Reads the body of a loop from the start of `s`, the text just after
/// the opening tag. Gives the number of characters read, closing tag
/// included, the length of the body, and the items found in the body.
pub fn read_loop_body(s: &[char]) -> (r: Result<(usize, (usize, Vec<ModuleItem>)), ParseError>)
    ensures
        match r {
            Ok((n, (m, inner))) => loop_body(s@) == Ok::<
                (int, (Seq<char>, Seq<ItemView>)),
                Failure,
            >((n as int, (s@.take(m as int), items_view(inner@)))) && n == m + 7 && n <= s@.len(),
            Err(e) => loop_body(s@) == Err::<(int, (Seq<char>, Seq<ItemView>)), Failure>(e@),
        },
        r matches Err(e) ==> e.position <= s@.len(),
    decreases s@.len(), 0nat,
{
    let close: [char; 7] = ['<', '/', 'l', 'o', 'o', 'p', '>'];
    assert(close@ =~= loop_close());
    match find_first(s, close.as_slice()) {
        None => Err(ParseError { kind: ErrorKind::UnterminatedGroup, position: 0 }),
        Some(m) => {
            assert(m + 7 <= s.len());
            match read_items(&s[0..m]) {
                Err(e) => Err(e),
                Ok((_, inner)) => Ok((m + 7, (m, inner))),
            }
        },
    }
}

/// Reads a group from the start of `s`: an opening tag and the body that
/// its name asks for.
pub fn read_group(s: &[char]) -> (r: Result<(usize, ModuleItem), ParseError>)
    ensures
        reads(r, group(s@)),
        r matches Ok((n, _)) ==> 13 <= n <= s@.len(),
        r matches Err(e) ==> e.position <= s@.len(),
    decreases s@.len(), 1nat,
{
    let len = s.len();
    match read_tag(s) {
        Err(e) => Err(e),
        Ok((t, (tg, is_grid))) => {
            if is_grid {
                match read_grid_body(&s[t..len]) {
                    Err(e) => Err(e.shifted(t)),
                    Ok((n, m)) => {
                        assert(s@.skip(t as int).take(m as int) =~= s@.subrange(
                            t as int,
                            t + m,
                        ));
                        let markdown = string_of(trimmed(&s[t..t + m]));
                        Ok((t + n, ModuleItem::Grid(Grid::from_parts(tg, markdown))))
                    },
                }
            } else {
                match read_loop_body(&s[t..len]) {
                    Err(e) => Err(e.shifted(t)),
                    Ok((n, (m, inner))) => {
                        assert(s@.skip(t as int).take(m as int) =~= s@.subrange(
                            t as int,
                            t + m,
                        ));
                        let markdown = string_of(trimmed(&s[t..t + m]));
                        Ok((t + n, ModuleItem::Loop(Loop::from_parts(tg, markdown, inner))))
                    },
                }
            }
        },
    }
}

/// Reads one item from the start of `s`, after what separates it from
/// the start.
pub fn read_item(s: &[char]) -> (r: Result<(usize, ModuleItem), ParseError>)
    ensures
        reads(r, item(s@)),
        r matches Ok((n, _)) ==> 0 < n <= s@.len(),
        r matches Err(e) ==> e.position <= s@.len(),
    decreases s@.len(), 2nat,
{
    let len = s.len();
    let k = skip_separators(s);
    let rest = &s[k..len];
    match read_question(rest) {
        Ok((n, q)) => Ok((k + n, ModuleItem::Question(q))),
        Err(e) => match e.kind {
            ErrorKind::NoMatch => match read_group(rest) {
                Ok((n, g)) => Ok((k + n, g)),
                Err(e) => Err(e.shifted(k)),
            },
            _ => Err(e.shifted(k)),
        },
    }
}

/// Reads as many items as stand at the start of `s`, one after the
/// other.
pub fn read_items(s: &[char]) -> (r: Result<(usize, Vec<ModuleItem>), ParseError>)
    ensures
        match r {
            Ok((n, v)) => items(s@) == Ok::<(int, Seq<ItemView>), Failure>(
                (n as int, items_view(v@)),
            ) && n <= s@.len(),
            Err(e) => items(s@) == Err::<(int, Seq<ItemView>), Failure>(e@),
        },
        r matches Err(e) ==> e.position <= s@.len(),
        r matches Err(e) ==> e.kind.is_fatal(),
    decreases s@.len(), 3nat,
{
    let len = s.len();
    let mut found: Vec<ModuleItem> = Vec::new();
    let mut pos: usize = 0;
    assert(items_view(found@) + items(s@.skip(0))->Ok_0.1 =~= items(s@.skip(0))->Ok_0.1);
    assert(s@.skip(0) =~= s@);
    loop
        invariant
            pos <= len,
            len == s@.len(),
            items(s@) == followed_by(pos as int, items_view(found@), items(s@.skip(pos as int))),
        decreases len - pos,
    {
        let ghost rest = s@.skip(pos as int);
        match read_item(&s[pos..len]) {
            Err(e) => {
                if e.kind.fatal() {
                    return Err(e.shifted(pos));
                } else {
                    assert(items_view(found@) + Seq::<ItemView>::empty() =~= items_view(found@));
                    return Ok((pos, found));
                }
            },
            Ok((n, next)) => {
                proof {
                    assert(rest.skip(n as int) =~= s@.skip(pos + n));
                    lemma_followed_by_step(
                        pos as int,
                        items_view(found@),
                        n as int,
                        next@,
                        items(s@.skip(pos + n)),
                    );
                    lemma_items_view_push(found@, next);
                }
                found.push(next);
                pos = pos + n;
            },
        }
    }
}

/// Reads a module from `s`: the free text before its first item, then
/// its items.
pub fn read_module(s: &[char]) -> (r: Result<(usize, Module), ParseError>)
    ensures
        reads(r, module(s@)),
        r matches Ok((n, _)) ==> n <= s@.len(),
        r matches Err(e) ==> e.position <= s@.len(),
        r matches Err(e) ==> e.kind.is_fatal(),
{
    let len = s.len();
    let p = scan_boundary(s);
    match read_items(&s[p..len]) {
        Err(e) => Err(e.shifted(p)),
        Ok((n, found)) => {
            let preamble = string_of(&s[0..p]);
            Ok((p + n, Module { preamble, items: found }))
        },
    }
}

} // verus!
