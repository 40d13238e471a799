//! The summary of callees that may sleep.

use crate::names::NameSet;
use crate::reading::{law_last_line_needs_no_newline, law_newline_ends_a_line};
use crate::scan::{bounds_lines, line_bounds, line_text, lines, text_bounds};
use crate::text::{chars_of, text_of};
use vstd::prelude::*;

verus! {

/// The symbols that a summary names: what its lines say, one symbol each, comments and blank
/// lines aside.
pub open spec fn symbols(text: Seq<char>) -> Set<Seq<char>> {
    Set::new(
        |symbol: Seq<char>|
            symbol.len() > 0 && exists|i: int|
                0 <= i < lines(text).len() && line_text(#[trigger] lines(text)[i]) == symbol,
    )
}

/// Reads a summary: one symbol per line, with `#` comments.
pub fn parse_summary(text: &str) -> (can_sleep: NameSet)
    ensures
        can_sleep@ == symbols(text@),
{
    let chars = chars_of(text);
    let bounds = line_bounds(chars.as_slice());
    let ghost all = lines(text@);
    let mut can_sleep = NameSet::new();
    let mut i: usize = 0;
    while i < bounds.len()
        invariant
            all == lines(text@),
            chars@ == text@,
            bounds_lines(bounds@, chars@),
            i <= bounds@.len(),
            forall|symbol: Seq<char>|
                can_sleep@.contains(symbol) <==> symbol.len() > 0 && exists|j: int|
                    0 <= j < i && line_text(#[trigger] all[j]) == symbol,
        decreases bounds@.len() - i,
    {
        let (from, to) = bounds[i];
        let (start, end) = text_bounds(chars.as_slice(), from, to);
        assert(chars@.subrange(start as int, end as int) == line_text(all[i as int]));
        if start < end {
            can_sleep.insert(text_of(chars.as_slice(), start, end));
        }
        i = i + 1;
    }
    assert(can_sleep@ == symbols(text@));
    can_sleep
}

/// Each line of a summary names what it says, unless it says nothing; the other lines do not matter
/// to that. The last line needs no newline.
pub proof fn law_each_line_names_a_symbol(line: Seq<char>, rest: Seq<char>)
    requires
        !line.contains('\n'),
    ensures
        symbols(line + seq!['\n'] + rest) == if line_text(line).len() > 0 {
            symbols(rest).insert(line_text(line))
        } else {
            symbols(rest)
        },
        line.len() > 0 ==> symbols(line) == symbols(line + seq!['\n']),
        symbols(Seq::empty()) == Set::<Seq<char>>::empty(),
{
    let text = line + seq!['\n'] + rest;
    law_newline_ends_a_line(line, rest);
    law_newline_ends_a_line(line, Seq::empty());
    law_last_line_needs_no_newline(line);
    let none = Seq::<char>::empty();
    assert(lines(none) == Seq::<Seq<char>>::empty());
    assert(line + seq!['\n'] + none == line + seq!['\n']);
    assert(lines(line + seq!['\n']) == seq![line]);
    assert(symbols(none) == Set::<Seq<char>>::empty());
    let all = lines(text);
    assert(all[0] == line);
    let expected = if line_text(line).len() > 0 {
        symbols(rest).insert(line_text(line))
    } else {
        symbols(rest)
    };
    assert forall|symbol: Seq<char>| symbols(text).contains(symbol) <==> expected.contains(
        symbol,
    ) by {
        if symbols(text).contains(symbol) {
            let i = choose|i: int|
                0 <= i < all.len() && line_text(#[trigger] all[i]) == symbol;
            if i > 0 {
                assert(all[i] == lines(rest)[i - 1]);
            }
        }
        if symbols(rest).contains(symbol) {
            let i = choose|i: int|
                0 <= i < lines(rest).len() && line_text(#[trigger] lines(rest)[i]) == symbol;
            assert(all[i + 1] == lines(rest)[i]);
        }
    }
    assert(symbols(text) == expected);
}

} // verus!
