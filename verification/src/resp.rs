//! A reader for the line-based values of a Redis-style wire protocol: one
//! type character, then a payload that ends in carriage return and line
//! feed.
//!
//! Simple strings (`+`), simple errors (`-`), integers (`:`) and bulk
//! strings (`$`) are read. The other type characters are known but not
//! read yet.

use crate::text::{lemma_first_where_unique, matches_at, occurs_at, run_of, tail, to_chars};
use vstd::prelude::*;

verus! {

/// One value of the protocol, borrowing its text from the input.
#[derive(Debug, PartialEq)]
pub enum Value<'a> {
    SimpleString(&'a str),
    SimpleError(&'a str),
    Integer(i64),
    BulkString(&'a str),
    Array(Vec<Value<'a>>),
    Null,
    Boolean(bool),
}

/// The view of a [`Value`].
pub enum ValueView {
    SimpleString(Seq<char>),
    SimpleError(Seq<char>),
    Integer(int),
    BulkString(Seq<char>),
    Array(Seq<ValueView>),
    Null,
    Boolean(bool),
}

/// The view of the value `v`.
pub open spec fn value_view(v: Value<'_>) -> ValueView
    decreases v,
{
    match v {
        Value::SimpleString(s) => ValueView::SimpleString(s@),
        Value::SimpleError(s) => ValueView::SimpleError(s@),
        Value::Integer(i) => ValueView::Integer(i as int),
        Value::BulkString(s) => ValueView::BulkString(s@),
        Value::Array(a) => ValueView::Array(
            Seq::new(
                a.len() as nat,
                |i: int|
                    if 0 <= i < a.len() {
                        value_view(a[i])
                    } else {
                        arbitrary()
                    },
            ),
        ),
        Value::Null => ValueView::Null,
        Value::Boolean(b) => ValueView::Boolean(b),
    }
}

impl<'a> View for Value<'a> {
    type V = ValueView;

    open spec fn view(&self) -> ValueView {
        value_view(*self)
    }
}

/// A copy of the values of `a`, in order.
fn copy_values<'a>(a: &Vec<Value<'a>>) -> (r: Vec<Value<'a>>)
    ensures
        r.len() == a.len(),
        forall|j: int| 0 <= j < a.len() ==> r[j]@ == a[j]@,
    decreases *a, 0nat,
{
    let mut copy: Vec<Value<'a>> = Vec::new();
    let mut i: usize = 0;
    while i < a.len()
        invariant
            i <= a.len(),
            copy.len() == i,
            forall|j: int| 0 <= j < i ==> copy[j]@ == a[j]@,
        decreases a.len() - i,
    {
        let item = copy_value(&a[i]);
        copy.push(item);
        i += 1;
    }
    copy
}

/// A copy of the value `v`.
fn copy_value<'a>(v: &Value<'a>) -> (r: Value<'a>)
    ensures
        r@ == v@,
    decreases *v, 1nat,
{
    match v {
        Value::SimpleString(s) => Value::SimpleString(*s),
        Value::SimpleError(s) => Value::SimpleError(*s),
        Value::Integer(i) => Value::Integer(*i),
        Value::BulkString(s) => Value::BulkString(*s),
        Value::Array(a) => {
            let r = Value::Array(copy_values(a));
            assert(r@->Array_0 =~= v@->Array_0);
            r
        },
        Value::Null => Value::Null,
        Value::Boolean(b) => Value::Boolean(*b),
    }
}

impl<'a> Clone for Value<'a> {
    fn clone(&self) -> (r: Self)
        ensures
            r@ == self@,
    {
        copy_value(self)
    }
}

/// Why a text is not one value.
#[derive(Debug, Clone, Copy, PartialEq, Eq, Structural)]
pub enum ValueError {
    /// The text is empty or begins with no type character.
    UnknownType,
    /// A decimal number was expected: no digit stands there, or the number
    /// does not fit in 64 bits.
    ExpectedNumber,
    /// The length of a bulk string is below -1.
    LengthOutOfRange,
    /// Carriage return and line feed were expected.
    ExpectedLineEnd,
    /// Fewer characters follow than the length of the bulk string announces.
    Truncated,
    /// Text follows the value.
    TrailingInput,
}

/// What a reader makes of a text: the number of characters it took from
/// the front and the value they hold, or the failure.
pub type Read<T> = Result<(int, T), ValueError>;

/// Carriage return, line feed.
pub open spec fn line_end() -> Seq<char> {
    seq!['\r', '\n']
}

/// A decimal digit.
pub open spec fn is_digit(c: char) -> bool {
    '0' <= c <= '9'
}

/// The number that the decimal digits `ds` write.
pub open spec fn decimal(ds: Seq<char>) -> int
    decreases ds.len(),
{
    if ds.len() == 0 {
        0
    } else {
        decimal(ds.drop_last()) * 10 + (ds.last() as int - '0' as int)
    }
}

/// One of the type characters of the protocol.
pub open spec fn is_type_char(c: char) -> bool {
    c == '+' || c == '-' || c == ':' || c == '$' || is_unread_type(c)
}

/// A type character whose values are not read yet.
pub open spec fn is_unread_type(c: char) -> bool {
    c == '*' || c == '_' || c == ',' || c == '(' || c == '!' || c == '=' || c == '%' || c == '~'
}

/// The line end, where `s` begins with it.
pub open spec fn crlf_at_start(s: Seq<char>) -> Read<Seq<char>> {
    if occurs_at(s, line_end(), 0) {
        Ok((2, line_end()))
    } else {
        Err(ValueError::ExpectedLineEnd)
    }
}

/// A line of text: everything up to the first carriage return or line
/// feed, which must be the start of a line end.
pub open spec fn simple_text(s: Seq<char>) -> Read<Seq<char>> {
    let e = run_of(s, |c: char| c != '\r' && c != '\n');
    if occurs_at(s, line_end(), e) {
        Ok((e + 2, s.take(e)))
    } else {
        Err(ValueError::ExpectedLineEnd)
    }
}

/// A signed decimal number that fits in 64 bits: an optional `+` or `-`,
/// then as many digits as follow, at least one.
pub open spec fn number(s: Seq<char>) -> Read<int> {
    let from: int = if s.len() > 0 && (s[0] == '-' || s[0] == '+') {
        1
    } else {
        0
    };
    let d = run_of(s.skip(from), |c: char| is_digit(c));
    let magnitude = decimal(s.subrange(from, from + d));
    let v = if from == 1 && s[0] == '-' {
        -magnitude
    } else {
        magnitude
    };
    if d > 0 && i64::MIN <= v <= i64::MAX {
        Ok((from + d, v))
    } else {
        Err(ValueError::ExpectedNumber)
    }
}

/// A number that is at least -1.
pub open spec fn length(s: Seq<char>) -> Read<int> {
    match number(s) {
        Err(e) => Err(e),
        Ok((n, v)) => if v >= -1 {
            Ok((n, v))
        } else {
            Err(ValueError::LengthOutOfRange)
        },
    }
}

/// `r`, followed by a line end.
pub open spec fn then_line_end<T>(s: Seq<char>, r: Read<T>) -> Read<T> {
    match r {
        Err(e) => Err(e),
        Ok((n, v)) => if occurs_at(s, line_end(), n) {
            Ok((n + 2, v))
        } else {
            Err(ValueError::ExpectedLineEnd)
        },
    }
}

/// The payload of an integer: a number and a line end.
pub open spec fn integer(s: Seq<char>) -> Read<ValueView> {
    match then_line_end(s, number(s)) {
        Err(e) => Err(e),
        Ok((n, v)) => Ok((n, ValueView::Integer(v))),
    }
}

/// The payload of a bulk string: its length and a line end, then that
/// many characters and a line end. The length -1 stands for no string at
/// all, and nothing follows it.
pub open spec fn bulk_string(s: Seq<char>) -> Read<ValueView> {
    match then_line_end(s, length(s)) {
        Err(e) => Err(e),
        Ok((at, v)) => if v == -1 {
            Ok((at, ValueView::Null))
        } else if at + v > s.len() {
            Err(ValueError::Truncated)
        } else {
            then_line_end(s, Ok((at + v, ValueView::BulkString(s.subrange(at, at + v)))))
        },
    }
}

/// The payload of a simple string.
pub open spec fn simple_string(s: Seq<char>) -> Read<ValueView> {
    match simple_text(s) {
        Err(e) => Err(e),
        Ok((n, t)) => Ok((n, ValueView::SimpleString(t))),
    }
}

/// The payload of a simple error.
pub open spec fn simple_error(s: Seq<char>) -> Read<ValueView> {
    match simple_text(s) {
        Err(e) => Err(e),
        Ok((n, t)) => Ok((n, ValueView::SimpleError(t))),
    }
}

/// One value that is the whole of `s`: the type character, the payload
/// that it announces, and nothing after it.
pub open spec fn value(s: Seq<char>) -> Read<ValueView>
    recommends
        !(s.len() > 0 && is_unread_type(s[0])),
{
    if !(s.len() > 0 && is_type_char(s[0])) {
        Err(ValueError::UnknownType)
    } else {
        let payload = s.skip(1);
        let r = if s[0] == '+' {
            simple_string(payload)
        } else if s[0] == '-' {
            simple_error(payload)
        } else if s[0] == ':' {
            integer(payload)
        } else {
            bulk_string(payload)
        };
        match r {
            Err(e) => Err(e),
            Ok((n, v)) => if 1 + n == s.len() {
                Ok((1 + n, v))
            } else {
                Err(ValueError::TrailingInput)
            },
        }
    }
}

/// Appending a digit to a numeral multiplies by ten and adds the digit.
pub proof fn lemma_decimal_push(ds: Seq<char>, c: char)
    ensures
        decimal(ds.push(c)) == decimal(ds) * 10 + (c as int - '0' as int),
{
    assert(ds.push(c).drop_last() =~= ds);
}

/// A numeral of digits is not negative.
pub proof fn lemma_decimal_nonnegative(ds: Seq<char>)
    requires
        forall|i: int| 0 <= i < ds.len() ==> is_digit(#[trigger] ds[i]),
    ensures
        0 <= decimal(ds),
    decreases ds.len(),
{
    if ds.len() > 0 {
        lemma_decimal_nonnegative(ds.drop_last());
    }
}

/// The result `r` of reading `input` is what `model` lays down: on
/// success the remainder is `input` without the characters that were read
/// and the value has the view that the model gives; on failure the error
/// is that of the model.
pub open spec fn yields<T: View>(
    r: Result<(&str, T), ValueError>,
    input: Seq<char>,
    model: Read<T::V>,
) -> bool {
    match r {
        Ok((rest, v)) => {
            &&& model matches Ok((n, m))
            &&& 0 <= n <= input.len()
            &&& rest@ == input.skip(n)
            &&& v@ == m
        },
        Err(e) => model == Err::<(int, T::V), ValueError>(e),
    }
}

/// Whether a line end stands in `s` at index `at`.
fn line_end_at(s: &[char], at: usize) -> (r: bool)
    ensures
        r == occurs_at(s@, line_end(), at as int),
        r ==> at + 2 <= s.len(),
{
    let pat: [char; 2] = ['\r', '\n'];
    assert(pat@ =~= line_end());
    matches_at(s, pat.as_slice(), at)
}

/// The number of characters at the start of `s` that are neither carriage
/// return nor line feed.
fn line_text_len(s: &[char]) -> (e: usize)
    ensures
        e == run_of(s@, |c: char| c != '\r' && c != '\n'),
        e <= s.len(),
{
    let len = s.len();
    let mut i: usize = 0;
    while i < len && s[i] != '\r' && s[i] != '\n'
        invariant
            i <= len,
            len == s@.len(),
            forall|j: int| 0 <= j < i ==> s@[j] != '\r' && s@[j] != '\n',
        decreases len - i,
    {
        i += 1;
    }
    proof {
        let stop = |j: int| !(|c: char| c != '\r' && c != '\n')(s@[j]);
        assert forall|j: int| 0 <= j < i implies !#[trigger] stop(j) by {}
        lemma_first_where_unique(len as int, stop, i as int);
    }
    i
}

/// Reads a signed decimal number from the start of `s`.
pub fn read_number(s: &[char]) -> (r: Result<(usize, i64), ValueError>)
    ensures
        match r {
            Ok((n, v)) => number(s@) == Ok::<(int, int), ValueError>((n as int, v as int)) && 0 < n
                <= s.len(),
            Err(e) => number(s@) == Err::<(int, int), ValueError>(e),
        },
{
    let len = s.len();
    let negative = len > 0 && s[0] == '-';
    let from: usize = if len > 0 && (s[0] == '-' || s[0] == '+') {
        1
    } else {
        0
    };
    let limit: u64 = if negative {
        0x8000_0000_0000_0000
    } else {
        0x7fff_ffff_ffff_ffff
    };
    let ghost t = s@.skip(from as int);
    let ghost stop = |j: int| !(|c: char| is_digit(c))(t[j]);
    let mut magnitude: u64 = 0;
    let mut fits = true;
    let mut i: usize = from;
    while i < len && '0' <= s[i] && s[i] <= '9'
        invariant
            from <= i <= len,
            len == s@.len(),
            t == s@.skip(from as int),
            stop == (|j: int| !(|c: char| is_digit(c))(t[j])),
            forall|j: int| 0 <= j < i - from ==> !#[trigger] stop(j),
            forall|j: int| from <= j < i ==> is_digit(#[trigger] s@[j]),
            fits ==> magnitude == decimal(s@.subrange(from as int, i as int)),
            fits ==> magnitude <= limit,
            !fits ==> decimal(s@.subrange(from as int, i as int)) > limit,
            0x7fff_ffff_ffff_ffff <= limit <= 0x8000_0000_0000_0000,
            negative ==> limit == 0x8000_0000_0000_0000,
            !negative ==> limit == 0x7fff_ffff_ffff_ffff,
        decreases len - i,
    {
        let digit: u64 = (s[i] as u32 - '0' as u32) as u64;
        proof {
            assert(t[i - from] == s@[i as int]);
            assert(s@.subrange(from as int, i + 1) =~= s@.subrange(from as int, i as int).push(
                s@[i as int],
            ));
            lemma_decimal_push(s@.subrange(from as int, i as int), s@[i as int]);
            assert forall|j: int|
                0 <= j < s@.subrange(from as int, i as int).len() implies is_digit(
                #[trigger] s@.subrange(from as int, i as int)[j],
            ) by {
                assert(is_digit(s@[from + j]));
            }
            lemma_decimal_nonnegative(s@.subrange(from as int, i as int));
        }
        if fits && magnitude <= (limit - digit) / 10 {
            magnitude = magnitude * 10 + digit;
        } else {
            fits = false;
        }
        i += 1;
    }
    proof {
        if i < len {
            assert(t[i - from] == s@[i as int]);
            assert(stop(i - from));
        }
        lemma_first_where_unique(t.len() as int, stop, i - from);
    }
    if i == from || !fits {
        return Err(ValueError::ExpectedNumber);
    }
    let v: i64 = if negative {
        if magnitude == 0x8000_0000_0000_0000 {
            i64::MIN
        } else {
            -(magnitude as i64)
        }
    } else {
        magnitude as i64
    };
    Ok((i, v))
}

/// Parses the line end: carriage return, line feed.
pub fn crlf<'a>(input: &'a str) -> (r: Result<(&'a str, &'a str), ValueError>)
    ensures
        yields(r, input@, crlf_at_start(input@)),
{
    let chars = to_chars(input);
    if line_end_at(chars.as_slice(), 0) {
        Ok((tail(input, 2, chars.len()), input.substring_char(0, 2)))
    } else {
        Err(ValueError::ExpectedLineEnd)
    }
}

/// Parses a line of text: everything up to the line end, which is read
/// too.
pub fn parse_simple_string_raw<'a>(input: &'a str) -> (r: Result<(&'a str, &'a str), ValueError>)
    ensures
        yields(r, input@, simple_text(input@)),
{
    let chars = to_chars(input);
    let s = chars.as_slice();
    let e = line_text_len(s);
    if line_end_at(s, e) {
        Ok((tail(input, e + 2, chars.len()), input.substring_char(0, e)))
    } else {
        Err(ValueError::ExpectedLineEnd)
    }
}

/// Parses the payload of a simple string.
pub fn parse_simple_string<'a>(input: &'a str) -> (r: Result<(&'a str, Value<'a>), ValueError>)
    ensures
        yields(r, input@, simple_string(input@)),
{
    match parse_simple_string_raw(input) {
        Ok((rest, text)) => Ok((rest, Value::SimpleString(text))),
        Err(e) => Err(e),
    }
}

/// Parses the payload of a simple error.
pub fn parse_simple_error<'a>(input: &'a str) -> (r: Result<(&'a str, Value<'a>), ValueError>)
    ensures
        yields(r, input@, simple_error(input@)),
{
    match parse_simple_string_raw(input) {
        Ok((rest, text)) => Ok((rest, Value::SimpleError(text))),
        Err(e) => Err(e),
    }
}

/// Parses the payload of an integer: a number and the line end.
pub fn parse_integer<'a>(input: &'a str) -> (r: Result<(&'a str, Value<'a>), ValueError>)
    ensures
        yields(r, input@, integer(input@)),
{
    let chars = to_chars(input);
    let s = chars.as_slice();
    match read_number(s) {
        Err(e) => Err(e),
        Ok((n, v)) => if line_end_at(s, n) {
            Ok((tail(input, n + 2, chars.len()), Value::Integer(v)))
        } else {
            Err(ValueError::ExpectedLineEnd)
        },
    }
}

/// Parses a number that is at least -1.
pub fn u64_or_minus1<'a>(input: &'a str) -> (r: Result<(&'a str, i64), ValueError>)
    ensures
        match r {
            Ok((rest, v)) => {
                &&& length(input@) matches Ok((n, m))
                &&& 0 <= n <= input@.len()
                &&& rest@ == input@.skip(n)
                &&& v == m
            },
            Err(e) => length(input@) == Err::<(int, int), ValueError>(e),
        },
{
    let chars = to_chars(input);
    match read_number(chars.as_slice()) {
        Err(e) => Err(e),
        Ok((n, v)) => if v >= -1 {
            Ok((tail(input, n, chars.len()), v))
        } else {
            Err(ValueError::LengthOutOfRange)
        },
    }
}

/// Parses the payload of a bulk string: the length and a line end, then
/// that many characters and a line end; or the length -1 and a line end,
/// which is the null value.
pub fn parse_bulk_string<'a>(input: &'a str) -> (r: Result<(&'a str, Value<'a>), ValueError>)
    ensures
        yields(r, input@, bulk_string(input@)),
{
    let chars = to_chars(input);
    let s = chars.as_slice();
    let len = s.len();
    match read_number(s) {
        Err(e) => Err(e),
        Ok((n, v)) => {
            if v < -1 {
                return Err(ValueError::LengthOutOfRange);
            }
            if !line_end_at(s, n) {
                return Err(ValueError::ExpectedLineEnd);
            }
            let at = n + 2;
            if v == -1 {
                return Ok((tail(input, at, len), Value::Null));
            }
            if v as u64 > (len - at) as u64 {
                return Err(ValueError::Truncated);
            }
            let end = at + v as usize;
            if !line_end_at(s, end) {
                return Err(ValueError::ExpectedLineEnd);
            }
            Ok((tail(input, end + 2, len), Value::BulkString(input.substring_char(at, end))))
        },
    }
}

/// Parses one value that is the whole of `input`: the type character, the
/// payload that it announces, and nothing after it.
///
/// The types `*`, `_`, `,`, `(`, `!`, `=`, `%` and `~` are not read yet:
/// an input that begins with one of them is not accepted.
pub fn parse_value<'a>(input: &'a str) -> (r: Result<(&'a str, Value<'a>), ValueError>)
    requires
        !(input@.len() > 0 && is_unread_type(input@[0])),
    ensures
        yields(r, input@, value(input@)),
        r matches Ok((rest, _)) ==> rest@.len() == 0,
{
    let chars = to_chars(input);
    let s = chars.as_slice();
    let len = s.len();
    if len == 0 {
        return Err(ValueError::UnknownType);
    }
    let payload = tail(input, 1, len);
    let c = s[0];
    let r = if c == '+' {
        parse_simple_string(payload)
    } else if c == '-' {
        parse_simple_error(payload)
    } else if c == ':' {
        parse_integer(payload)
    } else if c == '$' {
        parse_bulk_string(payload)
    } else {
        return Err(ValueError::UnknownType);
    };
    match r {
        Err(e) => Err(e),
        Ok((rest, v)) => {
            if rest.is_empty() {
                assert(rest@ =~= input@.skip(input@.len() as int));
                Ok((rest, v))
            } else {
                Err(ValueError::TrailingInput)
            }
        },
    }
}

} // verus!
