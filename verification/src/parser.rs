//! The parsers on `str`. Each reads from the start of its input and hands
//! back what is left of it together with what it read.

use crate::error::{ErrorKind, Failure, ParseError};
use crate::grammar::{
    comment_line, grid_body, group, item, lemma_group_wf, lemma_item_wf, lemma_loop_body_wf,
    lemma_module_wf, lemma_question_wf, lemma_tag_wf, lemma_well_formed_module_parses,
    loop_body, module, question_item, tag, well_formed, Parsed,
};
use crate::model::{items_view, ItemView, Module, ModuleItem, Tag};
use crate::reader::{
    read_grid_body, read_group, read_item, read_loop_body, read_module, read_question, read_tag,
};
use crate::scanner::{
    find_line_feed, first_boundary, is_boundary, scan_boundary, separators, skip_separators,
};
use crate::text::{tail, to_chars};
use vstd::prelude::*;

verus! {

/// The result `r` of parsing `input` is what the grammar lays down in
/// `model`: on success the remainder is `input` without the characters
/// that were read and the value has the view that the grammar gives; on
/// failure kind and position are those of the grammar.
pub open spec fn parses<T: View>(
    r: Result<(&str, T), ParseError>,
    input: Seq<char>,
    model: Parsed<T::V>,
) -> bool {
    match r {
        Ok((rest, v)) => {
            &&& model matches Ok((n, m))
            &&& 0 <= n <= input.len()
            &&& rest@ == input.skip(n)
            &&& v@ == m
        },
        Err(e) => model == Err::<(int, T::V), Failure>(e@),
    }
}

/// Splits `input` at its first item boundary: the free text that it
/// begins with, and what follows. The pair is (remainder, prefix).
///
/// The remainder begins with `[` and an uppercase letter, or with `<loop`
/// or `<grid`, outside every comment, and no such place lies in the
/// prefix. Where the text has no boundary the prefix is all of it.
pub fn take_until_next_module_item<'a>(input: &'a str) -> (r: (&'a str, &'a str))
    ensures
        r.1@ == input@.take(first_boundary(input@)),
        r.0@ == input@.skip(first_boundary(input@)),
        r.1@ + r.0@ == input@,
        r.0@.len() > 0 ==> is_boundary(input@, r.1@.len() as int),
        forall|i: int| 0 <= i < r.1@.len() ==> !is_boundary(input@, i),
{
    let chars = to_chars(input);
    let p = scan_boundary(chars.as_slice());
    let prefix = input.substring_char(0, p);
    let rest = tail(input, p, chars.len());
    assert(input@.take(p as int) + input@.skip(p as int) =~= input@);
    (rest, prefix)
}

/// Skips what may stand between two items: whole `//` comments and runs of
/// spaces, tabs, carriage returns and line feeds. The pair is the
/// remainder and an empty text.
pub fn parse_whitespace_or_comment<'a>(input: &'a str) -> (r: (&'a str, &'static str))
    ensures
        r.0@ == input@.skip(separators(input@)),
        r.1@ == Seq::<char>::empty(),
{
    let chars = to_chars(input);
    let k = skip_separators(chars.as_slice());
    proof {
        reveal_strlit("");
        assert(""@ =~= Seq::<char>::empty());
    }
    (tail(input, k, chars.len()), "")
}

/// Parses one comment: `//` and the rest of the line. The pair is the
/// remainder, which begins after the line feed, and the text of the
/// comment between `//` and the line feed.
pub fn comment<'a>(input: &'a str) -> (r: Result<(&'a str, &'a str), ParseError>)
    ensures
        match r {
            Ok((rest, text)) => {
                &&& comment_line(input@) matches Ok((n, t))
                &&& 0 <= n <= input@.len()
                &&& rest@ == input@.skip(n)
                &&& text@ == t
            },
            Err(e) => comment_line(input@) == Err::<(int, Seq<char>), Failure>(e@),
        },
        r matches Ok((rest, _)) ==> rest@.len() < input@.len(),
{
    let chars = to_chars(input);
    let s = chars.as_slice();
    let len = s.len();
    if !(len >= 2 && s[0] == '/' && s[1] == '/') {
        return Err(ParseError { kind: ErrorKind::NoMatch, position: 0 });
    }
    let k = find_line_feed(s, 2);
    let n = if k < len {
        k + 1
    } else {
        k
    };
    Ok((tail(input, n, len), input.substring_char(2, k)))
}

/// Parses a question: `[`, the header up to the first `]`, and the body up
/// to the next item boundary. Header and body are stored trimmed.
///
/// Fails with `NoMatch` where the input does not begin with `[`, and with
/// `UnterminatedHeader` where no `]` follows.
pub fn parse_question<'a>(input: &'a str) -> (r: Result<(&'a str, ModuleItem), ParseError>)
    ensures
        parses(r, input@, question_item(input@)),
        r matches Ok((_, v)) ==> v@.wf(),
        r matches Ok((rest, _)) ==> rest@.len() < input@.len(),
{
    proof {
        lemma_question_wf(input@);
    }
    let chars = to_chars(input);
    match read_question(chars.as_slice()) {
        Ok((n, q)) => Ok((tail(input, n, chars.len()), ModuleItem::Question(q))),
        Err(e) => Err(e),
    }
}

/// Parses an opening tag: `<`, any number of spaces, `grid` or `loop`, and the
/// attribute text up to the first `>`, which is stored trimmed.
///
/// Fails with `NoMatch` where the input does not begin with `<`, with
/// `UnknownTag` where another name follows, and with
/// `UnterminatedTagAttributes` where no `>` follows the name.
pub fn parse_tag<'a>(input: &'a str) -> (r: Result<(&'a str, Tag), ParseError>)
    ensures
        parses(r, input@, tag(input@)),
        r matches Ok((_, v)) ==> v@.wf(),
        r matches Ok((rest, _)) ==> rest@.len() < input@.len(),
{
    proof {
        lemma_tag_wf(input@);
    }
    let chars = to_chars(input);
    match read_tag(chars.as_slice()) {
        Ok((n, (t, _))) => Ok((tail(input, n, chars.len()), t)),
        Err(e) => Err(e),
    }
}

/// Parses the body of a grid from the text that follows its opening tag:
/// everything up to the first `</grid>`, untrimmed and not looked into.
///
/// Fails with `UnterminatedGroup` where no `</grid>` follows.
pub fn parse_grid<'a>(input: &'a str) -> (r: Result<(&'a str, &'a str), ParseError>)
    ensures
        match r {
            Ok((rest, body)) => {
                &&& grid_body(input@) matches Ok((n, b))
                &&& 0 <= n <= input@.len()
                &&& rest@ == input@.skip(n)
                &&& body@ == b
            },
            Err(e) => grid_body(input@) == Err::<(int, Seq<char>), Failure>(e@),
        },
        r matches Ok((rest, _)) ==> rest@.len() < input@.len(),
{
    let chars = to_chars(input);
    match read_grid_body(chars.as_slice()) {
        Ok((n, m)) => Ok((tail(input, n, chars.len()), input.substring_char(0, m))),
        Err(e) => Err(e),
    }
}

/// Parses the body of a loop from the text that follows its opening tag:
/// everything up to the first `</loop>`, untrimmed, and the items that
/// this text begins with.
///
/// Fails with `UnterminatedGroup` where no `</loop>` follows, and as the
/// first item of the body fails that has begun and does not end.
pub fn parse_loop<'a>(input: &'a str) -> (r: Result<
    (&'a str, (&'a str, Vec<ModuleItem>)),
    ParseError,
>)
    ensures
        match r {
            Ok((rest, (body, inner))) => {
                &&& loop_body(input@) matches Ok((n, (b, found)))
                &&& 0 <= n <= input@.len()
                &&& rest@ == input@.skip(n)
                &&& body@ == b
                &&& items_view(inner@) == found
            },
            Err(e) => loop_body(input@) == Err::<(int, (Seq<char>, Seq<ItemView>)), Failure>(e@),
        },
        r matches Ok((_, (_, inner))) ==> forall|i: int|
            0 <= i < inner@.len() ==> (#[trigger] items_view(inner@)[i]).wf(),
        r matches Ok((rest, _)) ==> rest@.len() < input@.len(),
{
    proof {
        lemma_loop_body_wf(input@);
    }
    let chars = to_chars(input);
    match read_loop_body(chars.as_slice()) {
        Ok((n, (m, inner))) => {
            proof {
                let found = items_view(inner@);
                assert forall|i: int| 0 <= i < inner@.len() implies (#[trigger] found[i]).wf() by {
                    assert(loop_body(input@) matches Ok((_, (_, its))) && its[i].wf());
                }
            }
            Ok((tail(input, n, chars.len()), (input.substring_char(0, m), inner)))
        },
        Err(e) => Err(e),
    }
}

/// Parses a group: an opening tag, then the body of a grid or of a loop
/// as the tag's name asks, through its closing tag.
pub fn parse_loop_grid<'a>(input: &'a str) -> (r: Result<(&'a str, ModuleItem), ParseError>)
    ensures
        parses(r, input@, group(input@)),
        r matches Ok((_, v)) ==> v@.wf(),
        r matches Ok((rest, _)) ==> rest@.len() < input@.len(),
{
    proof {
        lemma_group_wf(input@);
    }
    let chars = to_chars(input);
    match read_group(chars.as_slice()) {
        Ok((n, g)) => Ok((tail(input, n, chars.len()), g)),
        Err(e) => Err(e),
    }
}

/// Parses one item: skips comments and blanks, then reads a question or a
/// group. On success the remainder is strictly shorter than the input.
pub fn parse_question_loop_grid<'a>(input: &'a str) -> (r: Result<
    (&'a str, ModuleItem),
    ParseError,
>)
    ensures
        parses(r, input@, item(input@)),
        r matches Ok((rest, _)) ==> rest@.len() < input@.len(),
        r matches Ok((_, v)) ==> v@.wf(),
{
    proof {
        lemma_item_wf(input@);
    }
    let chars = to_chars(input);
    match read_item(chars.as_slice()) {
        Ok((n, it)) => Ok((tail(input, n, chars.len()), it)),
        Err(e) => Err(e),
    }
}

/// Parses a module: the preamble, which is the free text before the first
/// item boundary and is stored as it stands, then the items, one after
/// the other, until no item begins. What is left is handed back and is no
/// error.
///
/// Fails only where an item has begun and does not end: a header without
/// `]`, a tag without `>`, a group without its closing tag. Such a failure
/// inside the body of a loop fails the whole module. A well-formed text,
/// in which every item that begins also ends, always parses.
pub fn parse_module<'a>(input: &'a str) -> (r: Result<(&'a str, Module), ParseError>)
    ensures
        parses(r, input@, module(input@)),
        r matches Err(e) ==> e.kind.is_fatal(),
        r matches Ok((_, m)) ==> m@.wf(),
        well_formed(input@) ==> r is Ok,
{
    proof {
        lemma_module_wf(input@);
        if well_formed(input@) {
            lemma_well_formed_module_parses(input@);
        }
    }
    let chars = to_chars(input);
    match read_module(chars.as_slice()) {
        Ok((n, m)) => Ok((tail(input, n, chars.len()), m)),
        Err(e) => Err(e),
    }
}

} // verus!
