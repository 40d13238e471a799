//! Lines, comments and words.

use crate::text::text_of;
use vstd::prelude::*;

verus! {

/// The characters with the Unicode property `White_Space`.
pub open spec fn is_space(c: char) -> bool {
    ||| '\u{9}' <= c <= '\u{d}'
    ||| c == '\u{20}'
    ||| c == '\u{85}'
    ||| c == '\u{a0}'
    ||| c == '\u{1680}'
    ||| '\u{2000}' <= c <= '\u{200a}'
    ||| c == '\u{2028}'
    ||| c == '\u{2029}'
    ||| c == '\u{202f}'
    ||| c == '\u{205f}'
    ||| c == '\u{3000}'
}

/// What comes before the first `stop`, or all of `s`.
pub open spec fn up_to(s: Seq<char>, stop: char) -> Seq<char>
    decreases s.len(),
{
    if s.len() == 0 || s[0] == stop {
        seq![]
    } else {
        seq![s[0]] + up_to(s.drop_first(), stop)
    }
}

/// The lines of a text. The newline after the last one is optional. A carriage return before a
/// newline stays with its line, where it is white space at the end.
pub open spec fn lines(s: Seq<char>) -> Seq<Seq<char>>
    decreases s.len(),
{
    if s.len() == 0 {
        seq![]
    } else {
        let line = up_to(s, '\n');
        if line.len() < s.len() {
            seq![line] + lines(s.skip(line.len() as int + 1))
        } else {
            seq![line]
        }
    }
}

/// `s` without the white space at its start.
pub open spec fn trim_start(s: Seq<char>) -> Seq<char>
    decreases s.len(),
{
    if s.len() > 0 && is_space(s[0]) {
        trim_start(s.drop_first())
    } else {
        s
    }
}

/// `s` without the white space at its end.
pub open spec fn trim_end(s: Seq<char>) -> Seq<char>
    decreases s.len(),
{
    if s.len() > 0 && is_space(s.last()) {
        trim_end(s.drop_last())
    } else {
        s
    }
}

/// What a line says: without its comment, and without the white space around it.
pub open spec fn line_text(raw: Seq<char>) -> Seq<char> {
    trim_end(trim_start(up_to(raw, '#')))
}

/// The longest start of `s` without white space.
pub open spec fn word(s: Seq<char>) -> Seq<char>
    decreases s.len(),
{
    if s.len() == 0 || is_space(s[0]) {
        seq![]
    } else {
        seq![s[0]] + word(s.drop_first())
    }
}

/// The words of `s`: its longest runs of characters that are not white space.
pub open spec fn words(s: Seq<char>) -> Seq<Seq<char>>
    decreases s.len(),
{
    if s.len() == 0 {
        seq![]
    } else if is_space(s[0]) {
        words(s.drop_first())
    } else {
        proof {
            lemma_word_bounds(s);
        }
        seq![word(s)] + words(s.skip(word(s).len() as int))
    }
}

/// Whether `c` is white space.
pub fn is_white(c: char) -> (white: bool)
    ensures
        white == is_space(c),
{
    ('\u{9}' <= c && c <= '\u{d}') || c == '\u{20}' || c == '\u{85}' || c == '\u{a0}' || c
        == '\u{1680}' || ('\u{2000}' <= c && c <= '\u{200a}') || c == '\u{2028}' || c
        == '\u{2029}' || c == '\u{202f}' || c == '\u{205f}' || c == '\u{3000}'
}

/// `up_to` is the start before the first `stop`.
pub proof fn lemma_up_to(s: Seq<char>, stop: char, n: int)
    requires
        0 <= n <= s.len(),
        forall|i: int| 0 <= i < n ==> s[i] != stop,
        n < s.len() ==> s[n] == stop,
    ensures
        up_to(s, stop) == s.take(n),
    decreases n,
{
    if n > 0 {
        lemma_up_to(s.drop_first(), stop, n - 1);
        assert(s.take(n) == seq![s[0]] + s.drop_first().take(n - 1));
    } else {
        assert(s.take(n) == Seq::<char>::empty());
    }
}

/// Where the first `stop` of `chars[from..to]` is, or `to`.
pub fn find(chars: &[char], from: usize, to: usize, stop: char) -> (at: usize)
    requires
        from <= to <= chars@.len(),
    ensures
        from <= at <= to,
        chars@.subrange(from as int, at as int) == up_to(
            chars@.subrange(from as int, to as int),
            stop,
        ),
        at < to ==> chars@[at as int] == stop,
{
    let mut at: usize = from;
    while at < to && chars[at] != stop
        invariant
            from <= at <= to <= chars@.len(),
            forall|i: int| from <= i < at ==> chars@[i] != stop,
        decreases to - at,
    {
        at = at + 1;
    }
    proof {
        let s = chars@.subrange(from as int, to as int);
        lemma_up_to(s, stop, at - from);
        assert(s.take(at - from) == chars@.subrange(from as int, at as int));
    }
    at
}

/// `bounds` are where the lines of `chars` start and end.
pub open spec fn bounds_lines(bounds: Seq<(usize, usize)>, chars: Seq<char>) -> bool {
    &&& bounds.len() == lines(chars).len()
    &&& forall|i: int|
        0 <= i < bounds.len() ==> {
            &&& (#[trigger] bounds[i]).0 <= bounds[i].1 <= chars.len()
            &&& chars.subrange(bounds[i].0 as int, bounds[i].1 as int) == lines(chars)[i]
        }
}

/// Where each line starts and ends.
pub fn line_bounds(chars: &[char]) -> (bounds: Vec<(usize, usize)>)
    ensures
        bounds_lines(bounds@, chars@),
{
    let ghost all = lines(chars@);
    let mut bounds: Vec<(usize, usize)> = Vec::new();
    let mut from: usize = 0;
    proof {
        assert(chars@.subrange(0, chars@.len() as int) == chars@);
        assert(all.skip(0) == all);
    }
    while from < chars.len()
        invariant
            from <= chars@.len(),
            all == lines(chars@),
            bounds@.len() <= all.len(),
            lines(chars@.subrange(from as int, chars@.len() as int)) == all.skip(
                bounds@.len() as int,
            ),
            forall|i: int|
                0 <= i < bounds@.len() ==> {
                    &&& (#[trigger] bounds@[i]).0 <= bounds@[i].1 <= chars@.len()
                    &&& chars@.subrange(bounds@[i].0 as int, bounds@[i].1 as int) == all[i]
                },
        decreases chars@.len() - from,
    {
        let ghost rest = chars@.subrange(from as int, chars@.len() as int);
        let ghost n = bounds@.len() as int;
        let to = find(chars, from, chars.len(), '\n');
        bounds.push((from, to));
        proof {
            let first = up_to(rest, '\n');
            assert(first == chars@.subrange(from as int, to as int));
            assert(lines(rest).len() > 0);
            assert(all.skip(n)[0] == first);
            assert(all[n] == first);
            assert(all.skip(n + 1) == all.skip(n).drop_first());
            if first.len() < rest.len() {
                assert(rest.skip(first.len() as int + 1) == chars@.subrange(
                    to as int + 1,
                    chars@.len() as int,
                ));
                assert(all.skip(n).drop_first() == lines(rest.skip(first.len() as int + 1)));
            } else {
                assert(all.skip(n).drop_first() == Seq::<Seq<char>>::empty());
                assert(chars@.subrange(to as int, chars@.len() as int) == Seq::<char>::empty());
            }
        }
        from = if to < chars.len() {
            to + 1
        } else {
            to
        };
    }
    proof {
        assert(chars@.subrange(from as int, chars@.len() as int) == Seq::<char>::empty());
        assert(all.skip(bounds@.len() as int).len() == 0);
    }
    bounds
}

/// `word` is the start before the first white space.
pub proof fn lemma_word(s: Seq<char>, n: int)
    requires
        0 <= n <= s.len(),
        forall|i: int| 0 <= i < n ==> !is_space(s[i]),
        n < s.len() ==> is_space(s[n]),
    ensures
        word(s) == s.take(n),
    decreases n,
{
    if n > 0 {
        lemma_word(s.drop_first(), n - 1);
        assert(s.take(n) == seq![s[0]] + s.drop_first().take(n - 1));
    } else {
        assert(s.take(n) == Seq::<char>::empty());
    }
}

/// The bounds of what `chars[from..to]` says, without comment and surrounding white space.
pub fn text_bounds(chars: &[char], from: usize, to: usize) -> (bounds: (usize, usize))
    requires
        from <= to <= chars@.len(),
    ensures
        from <= bounds.0 <= bounds.1 <= to,
        chars@.subrange(bounds.0 as int, bounds.1 as int) == line_text(
            chars@.subrange(from as int, to as int),
        ),
{
    let mut end = find(chars, from, to, '#');
    let mut start: usize = from;
    let ghost kept = chars@.subrange(from as int, end as int);
    while start < end && is_white(chars[start])
        invariant
            from <= start <= end <= to <= chars@.len(),
            trim_start(chars@.subrange(start as int, end as int)) == trim_start(kept),
        decreases end - start,
    {
        proof {
            let s = chars@.subrange(start as int, end as int);
            assert(s.drop_first() == chars@.subrange(start as int + 1, end as int));
        }
        start = start + 1;
    }
    let ghost started = chars@.subrange(start as int, end as int);
    assert(started == trim_start(kept));
    while start < end && is_white(chars[end - 1])
        invariant
            from <= start <= end <= to <= chars@.len(),
            trim_end(chars@.subrange(start as int, end as int)) == trim_end(started),
        decreases end - start,
    {
        proof {
            let s = chars@.subrange(start as int, end as int);
            assert(s.drop_last() == chars@.subrange(start as int, end as int - 1));
        }
        end = end - 1;
    }
    (start, end)
}

/// The models of strings.
pub open spec fn strings_view(strings: Seq<String>) -> Seq<Seq<char>> {
    strings.map_values(|s: String| s@)
}

/// The words of `chars[from..to]`.
pub fn split_words(chars: &[char], from: usize, to: usize) -> (found: Vec<String>)
    requires
        from <= to <= chars@.len(),
    ensures
        strings_view(found@) == words(chars@.subrange(from as int, to as int)),
{
    let ghost all = words(chars@.subrange(from as int, to as int));
    let mut found: Vec<String> = Vec::new();
    let mut at: usize = from;
    assert(strings_view(found@) + all == all);
    while at < to
        invariant
            from <= at <= to <= chars@.len(),
            strings_view(found@) + words(chars@.subrange(at as int, to as int)) == all,
        decreases to - at,
    {
        let ghost s = chars@.subrange(at as int, to as int);
        if is_white(chars[at]) {
            assert(s.drop_first() == chars@.subrange(at as int + 1, to as int));
            at = at + 1;
        } else {
            let mut end: usize = at + 1;
            while end < to && !is_white(chars[end])
                invariant
                    at < end <= to <= chars@.len(),
                    forall|i: int| at <= i < end ==> !is_space(chars@[i]),
                decreases to - end,
            {
                end = end + 1;
            }
            let w = text_of(chars, at, end);
            proof {
                lemma_word(s, end - at);
                assert(s.take(end - at) == chars@.subrange(at as int, end as int));
                assert(s.skip(end - at) == chars@.subrange(end as int, to as int));
                assert(words(s) == seq![w@] + words(s.skip(end - at)));
            }
            let ghost before = found@;
            found.push(w);
            proof {
                assert(strings_view(found@) == strings_view(before).push(w@));
                assert(strings_view(found@) + words(s.skip(end - at)) == strings_view(before)
                    + words(s));
            }
            at = end;
        }
    }
    assert(chars@.subrange(at as int, to as int) == Seq::<char>::empty());
    assert(strings_view(found@) == all);
    found
}

/// What starts with something that is not white space has a word.
pub proof fn lemma_words_of_text(raw: Seq<char>)
    ensures
        line_text(raw).len() > 0 ==> words(line_text(raw)).len() > 0,
{
    let s = trim_start(up_to(raw, '#'));
    lemma_trim_start(up_to(raw, '#'));
    lemma_trim_end(s);
    let text = line_text(raw);
    if text.len() > 0 {
        assert(text[0] == s[0]);
        lemma_word_bounds(text);
    }
}

/// A word is a start of the text, and not empty unless white space comes first.
pub proof fn lemma_word_bounds(s: Seq<char>)
    ensures
        word(s).len() <= s.len(),
        word(s) == s.take(word(s).len() as int),
        s.len() > 0 && !is_space(s[0]) ==> word(s).len() > 0,
    decreases s.len(),
{
    if s.len() > 0 && !is_space(s[0]) {
        lemma_word_bounds(s.drop_first());
        let n = word(s.drop_first()).len() as int;
        assert(s.take(n + 1) == seq![s[0]] + s.drop_first().take(n));
    } else {
        assert(s.take(0) == Seq::<char>::empty());
    }
}

/// What is trimmed does not start with white space.
pub proof fn lemma_trim_start(s: Seq<char>)
    ensures
        trim_start(s).len() > 0 ==> !is_space(trim_start(s)[0]),
    decreases s.len(),
{
    if s.len() > 0 && is_space(s[0]) {
        lemma_trim_start(s.drop_first());
    }
}

/// What is trimmed is a start of the text, and does not end with white space.
pub proof fn lemma_trim_end(s: Seq<char>)
    ensures
        trim_end(s).len() <= s.len(),
        trim_end(s).len() > 0 ==> !is_space(trim_end(s).last()),
        trim_end(s) == s.take(trim_end(s).len() as int),
    decreases s.len(),
{
    if s.len() > 0 && is_space(s.last()) {
        lemma_trim_end(s.drop_last());
        let n = trim_end(s).len() as int;
        assert(s.drop_last().take(n) == s.take(n));
    } else {
        assert(s.take(s.len() as int) == s);
    }
}

/// The models of strings are as many as the strings, one by one.
pub proof fn law_string_list_model_is_faithful(strings: Seq<String>)
    ensures
        strings_view(strings).len() == strings.len(),
        forall|i: int| 0 <= i < strings.len() ==> #[trigger] strings_view(strings)[i]
            == strings[i]@,
{
}

} // verus!
