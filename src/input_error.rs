//! User-facing errors: a message and the range of text it is about.

use vstd::prelude::*;
use crate::ast::Root;
use crate::grammar::{column_of, expected_of, parse, spec_parse, ParseError};
use crate::order::{sorted_unique, strictly_sorted};
use crate::text_range::TextRange;

verus! {

/// The views of a sequence of string slices.
pub open spec fn strs_view(v: Seq<&str>) -> Seq<Seq<char>> {
    v.map_values(|x: &str| x@)
}

/// `items` joined with `sep` between each two.
pub open spec fn joined(items: Seq<Seq<char>>, sep: Seq<char>) -> Seq<char>
    decreases items.len(),
{
    if items.len() == 0 {
        seq![]
    } else if items.len() == 1 {
        items[0]
    } else {
        joined(items.drop_last(), sep) + sep + items.last()
    }
}

/// `a, b, c or d`: all but the last item joined by commas, then `or` and
/// the last; one item stands alone; no items give the empty string.
pub open spec fn spec_or_list(items: Seq<Seq<char>>) -> Seq<char> {
    if items.len() <= 1 {
        joined(items, seq![])
    } else {
        joined(items.drop_last(), ", "@) + " or "@ + items.last()
    }
}

/// Lists `items` in words: `a, b, c or d`.
pub fn or_list(items: &[&str]) -> (r: String)
    ensures
        r@ == spec_or_list(strs_view(items@)),
{
    let len = items.len();
    let ghost v = strs_view(items@);
    if len == 0 {
        return String::new();
    }
    if len == 1 {
        return String::from_str(items[0]);
    }
    let last = len - 1;
    let mut r = String::from_str(items[0]);
    let mut i: usize = 1;
    assert(v.subrange(0, 1).drop_last() =~= Seq::<Seq<char>>::empty());
    while i < last
        invariant
            1 <= i <= last,
            last == len - 1,
            len == items@.len(),
            v == strs_view(items@),
            r@ == joined(v.subrange(0, i as int), ", "@),
        decreases last - i,
    {
        r.append(", ");
        r.append(items[i]);
        i += 1;
        assert(v.subrange(0, i as int).drop_last() =~= v.subrange(0, i - 1));
    }
    r.append(" or ");
    r.append(items[last]);
    assert(v.subrange(0, last as int) =~= v.drop_last());
    r
}

/// `m` reads `expected ` and then, listed in words, the distinct `items`
/// in lexicographic order.
pub open spec fn is_expected_message(m: Seq<char>, items: Seq<Seq<char>>) -> bool {
    exists|w: Seq<Seq<char>>|
        strictly_sorted(w) && w.to_set() == items.to_set() && m == "expected "@ + spec_or_list(
            w,
        )
}

/// The message `expected a, b or c` for a set of descriptions, each named
/// once, in lexicographic order.
pub fn generate_expected_string(expected: &[&str]) -> (r: String)
    ensures
        is_expected_message(r@, strs_view(expected@)),
{
    let sorted = sorted_unique(expected);
    let list = or_list(sorted.as_slice());
    let mut r = String::from_str("expected ");
    r.append(list.as_str());
    assert(strictly_sorted(strs_view(sorted@)));
    r
}

/// An error message for the user, and the range of input text it marks.
pub struct InputError {
    /// The error message
    pub msg: String,
    /// The columns in which the error occurred
    pub pos: TextRange,
}

impl InputError {
    /// The message lists what the parser would have accepted; the range
    /// runs from the error's offset to its column (no shorter than empty).
    pub fn from_parser_error(err: ParseError) -> (r: InputError)
        ensures
            is_expected_message(r.msg@, strs_view(err.expected@)),
            r.pos.wf(),
            r.pos.start == err.offset,
            r.pos.end == if err.column > err.offset { err.column } else { err.offset },
    {
        InputError {
            msg: generate_expected_string(err.expected.as_slice()),
            pos: TextRange::new(err.offset, err.column),
        }
    }
}

/// Parses `input`; a syntax error becomes a message for the user, marking
/// the error's position.
pub fn parse_input(input: &str) -> (r: Result<Root, InputError>)
    requires
        input@.len() < usize::MAX,
    ensures
        match spec_parse(input@) {
            Ok(e) => r matches Ok(root) && root@ == e,
            Err((off, f)) => r matches Err(err) && err.pos.start == off && err.pos.end == if column_of(
                input@,
                off,
            ) > off {
                column_of(input@, off)
            } else {
                off
            } && is_expected_message(err.msg@, strs_view(expected_of(f))),
        },
{
    match parse(input) {
        Ok(root) => Ok(root),
        Err(err) => Err(InputError::from_parser_error(err)),
    }
}

} // verus!
